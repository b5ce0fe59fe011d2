use serbzip::codecs::balkanoid::dict::WordVec;

fn strings(words: &[&str]) -> Vec<String> {
    words.iter().map(|w| w.to_string()).collect()
}

#[test]
fn wordvec_push_capacity_bounds() {
    let mut vec = WordVec::default();
    for i in 0..255 {
        assert_eq!(Ok(()), vec.push(format!("{i}")));
    }

    assert!(vec.push(String::from("overflow")).is_err());
}

#[test]
fn wordvec_sort_and_dedup() {
    let vec = WordVec::new(strings(&["in", "on", "on", "inn", "no", "in"])).unwrap();
    assert_eq!(
        vec![
            String::from("in"),
            String::from("no"),
            String::from("on"),
            String::from("inn")
        ],
        vec.into_vec()
    );
}

#[test]
fn wordvec_implements_debug() {
    let vec = WordVec::new(strings(&["in", "on"])).unwrap();
    assert_eq!(String::from("WordVec([\"in\", \"on\"])"), format!("{:?}", vec));
}

#[test]
fn wordvec_implements_as_ref() {
    let vec = WordVec::new(strings(&["in", "on"])).unwrap();
    assert_eq!(
        [String::from("in"), String::from("on")].as_slice(),
        vec.as_ref().as_slice()
    );
}
