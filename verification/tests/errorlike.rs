use serbzip::succinct::{CowStr, Errorlike};

#[derive(Debug)]
struct Test;

#[test]
fn tests_errorlike_from_owned() {
    let errorlike = Errorlike::<CowStr>::owned(String::from("test"));
    assert_eq!("test", errorlike.0.as_ref());
    assert_eq!(String::from("test"), errorlike.0.into_owned());
}

#[test]
fn tests_errorlike_from_borrowed() {
    let errorlike = Errorlike::<CowStr>::borrowed("test");
    assert_eq!("test", errorlike.0.as_ref());
    assert_eq!(String::from("test"), errorlike.0.into_owned());
}

#[test]
fn tests_errorlike_implements_debug() {
    let errorlike = Errorlike(Test);
    assert_eq!(String::from("Errorlike(Test)"), format!("{errorlike:?}"));
}

#[test]
fn errorlike_message_accessor() {
    let errorlike = Errorlike::<CowStr>::borrowed("test");
    assert_eq!("test", errorlike.message());

    let errorlike = Errorlike::<CowStr>::owned(String::from("owned text"));
    assert_eq!("owned text", errorlike.message());
}

#[test]
fn errorlike_from_owned() {
    let errorlike = Errorlike::<CowStr>::owned(String::from("test"));
    assert_eq!("test", errorlike.0.as_ref());
    assert_eq!(String::from("test"), errorlike.0.into_owned());
}

#[test]
fn errorlike_from_borrowed() {
    let errorlike = Errorlike::<CowStr>::borrowed("test");
    assert_eq!("test", errorlike.0.as_ref());
    assert_eq!(String::from("test"), errorlike.0.into_owned());
}

#[test]
fn errorlike_implements_debug() {
    let errorlike = Errorlike(Test);
    assert_eq!(String::from("Errorlike(Test)"), format!("{errorlike:?}"));
}
