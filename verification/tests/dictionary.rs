use serbzip::codecs::balkanoid::dict::{
    Dict, OverflowError, ReadFromTextFileError, WordResolveError, WordVec,
};

fn strings(words: &[&str]) -> Vec<String> {
    words.iter().map(|w| w.to_string()).collect()
}

fn assert_groups(dict: &Dict, expect: &[(&str, &[&str])]) {
    assert_eq!(expect.len(), dict.group_count());
    for (fingerprint, words) in expect {
        let group = dict
            .group(fingerprint)
            .unwrap_or_else(|| panic!("no group for fingerprint '{fingerprint}'"));
        assert_eq!(&strings(words), group.as_ref(), "for fingerprint '{fingerprint}'");
    }
}

#[test]
fn from_hashmap() {
    let dict = Dict::from_entries(vec![(
        String::from("n"),
        WordVec::new(strings(&["in", "no", "on"])).unwrap(),
    )])
    .unwrap();
    assert_eq!(Ok(Some(&String::from("no"))), dict.resolve("n", 1));
}

#[test]
fn tests_populate_incremental() {
    let mut dict = Dict::default();

    dict.populate(strings(&["uno", "no"])).unwrap();
    assert_groups(&dict, &[("n", &["no", "uno"])]);

    dict.populate(strings(&["one", "one", "no"])).unwrap();
    assert_groups(&dict, &[("n", &["no", "one", "uno"])]);

    dict.populate(strings(&["Anna"])).unwrap();
    assert_groups(&dict, &[("n", &["no", "one", "uno"])]);

    dict.populate(strings(&["anna"])).unwrap();
    assert_groups(&dict, &[("n", &["no", "one", "uno"]), ("nn", &["anna"])]);

    dict.populate(strings(&["half-time"])).unwrap();
    assert_groups(
        &dict,
        &[
            ("n", &["no", "one", "uno"]),
            ("nn", &["anna"]),
            ("hlf-tm", &["half-time"]),
        ],
    );

    dict.populate(strings(&["on", "an", "in", "inn"])).unwrap();
    assert_groups(
        &dict,
        &[
            ("n", &["an", "in", "no", "on", "one", "uno"]),
            ("nn", &["inn", "anna"]),
            ("hlf-tm", &["half-time"]),
        ],
    );

    dict.populate(strings(&["i", "one", "aio"])).unwrap();
    assert_groups(
        &dict,
        &[
            ("n", &["an", "in", "no", "on", "one", "uno"]),
            ("nn", &["inn", "anna"]),
            ("hlf-tm", &["half-time"]),
        ],
    );
}

#[test]
fn tests_count() {
    struct Case {
        input: Vec<String>,
        expect: usize,
    }
    for case in vec![
        Case { input: strings(&[""]), expect: 0 },
        Case { input: strings(&["in"]), expect: 1 },
        Case { input: strings(&["in", "on"]), expect: 2 },
        Case { input: strings(&["in", "on", "at"]), expect: 3 },
    ] {
        let dict = Dict::new(case.input.clone()).unwrap();
        assert_eq!(case.expect, dict.count(), "for input {:?}", &case.input);
    }
}

#[test]
fn tests_resolve() {
    #[derive(Debug)]
    struct Case {
        input_dict: Vec<String>,
        input_fingerprint: &'static str,
        input_position: u8,
        expect: Result<Option<&'static str>, WordResolveError>,
    }
    for case in vec![
        Case {
            input_dict: strings(&["in", "on"]),
            input_fingerprint: "n",
            input_position: 0,
            expect: Ok(Some("in")),
        },
        Case {
            input_dict: strings(&["in", "on"]),
            input_fingerprint: "n",
            input_position: 1,
            expect: Ok(Some("on")),
        },
        Case {
            input_dict: strings(&["in", "on"]),
            input_fingerprint: "n",
            input_position: 2,
            expect: Err(WordResolveError::borrowed(
                "no dictionary word at position 2 for fingerprint 'n'",
            )),
        },
        Case {
            input_dict: strings(&["in", "on"]),
            input_fingerprint: "t",
            input_position: 2,
            expect: Ok(None),
        },
    ] {
        let dict = Dict::new(case.input_dict.clone()).unwrap();
        let actual = dict
            .resolve(case.input_fingerprint, case.input_position)
            .map(|option_of_string_ref| option_of_string_ref.map(String::as_str));
        assert_eq!(case.expect, actual, "for {case:?}");
    }
}

#[test]
fn tests_position() {
    #[derive(Debug)]
    struct Case {
        input_dict: Vec<String>,
        input_fingerprint: &'static str,
        input_word: &'static str,
        expect: Option<u8>,
    }
    for case in vec![
        Case {
            input_dict: strings(&["in", "on"]),
            input_fingerprint: "n",
            input_word: "in",
            expect: Some(0),
        },
        Case {
            input_dict: strings(&["in", "on"]),
            input_fingerprint: "n",
            input_word: "on",
            expect: Some(1),
        },
        Case {
            input_dict: strings(&["in", "on"]),
            input_fingerprint: "n",
            input_word: "an",
            expect: None,
        },
        Case {
            input_dict: strings(&[]),
            input_fingerprint: "n",
            input_word: "an",
            expect: None,
        },
    ] {
        let dict = Dict::new(case.input_dict.clone()).unwrap();
        assert_eq!(
            case.expect,
            dict.position(case.input_fingerprint, case.input_word),
            "for {:?}",
            case
        )
    }
}

#[test]
fn tests_contains_fingerprint() {
    #[derive(Debug)]
    struct Case {
        input_dict: Vec<String>,
        input_fingerprint: &'static str,
        expect: bool,
    }
    for case in vec![
        Case { input_dict: strings(&["in"]), input_fingerprint: "n", expect: true },
        Case { input_dict: strings(&["in"]), input_fingerprint: "t", expect: false },
    ] {
        let dict = Dict::new(case.input_dict.clone()).unwrap();
        assert_eq!(
            case.expect,
            dict.contains_fingerprint(case.input_fingerprint),
            "for {:?}",
            case
        );
    }
}

#[test]
fn tests_populate_should_fill_to_fingerprint_limit() {
    let mut dict = Dict::default();
    let words = (0..255)
        .map(|i| format!("test-{}", "a".repeat(i)))
        .collect::<Vec<_>>();
    dict.populate(words).unwrap();
}

#[test]
fn populate_overflows_past_fingerprint_limit() {
    let mut dict = Dict::default();
    let words = (0..256)
        .map(|i| format!("test-{}", "a".repeat(i)))
        .collect::<Vec<_>>();
    let result = dict.populate(words);
    assert_eq!(Err(OverflowError::borrowed("too many words in vector")), result);
}

#[test]
fn tests_write_and_read_binary_image() {
    let dict = Dict::new(strings(&["in", "on", "at"])).unwrap();
    let image = dict.write_to_binary_image().unwrap();
    let loaded = Dict::read_from_binary_image(&image).unwrap();
    assert_eq!(dict, loaded);
}

#[test]
fn tests_read_from_text_file() {
    let text = r#"
      in
      on
      at
      the
      is
      of
      off"#;
    let loaded = Dict::read_from_text_file(text).unwrap();
    assert_eq!(
        Dict::new(strings(&["in", "on", "at", "the", "is", "of", "off"])).unwrap(),
        loaded
    );
}

#[test]
fn read_from_text_file_error_implements_debug() {
    let error =
        ReadFromTextFileError::from(std::io::Error::new(std::io::ErrorKind::AddrInUse, "test"));
    assert!(format!("{error:?}").contains("Io"));

    let error = ReadFromTextFileError::from(OverflowError::borrowed("test"));
    assert!(format!("{error:?}").contains("DictOverflow"));
}

#[test]
fn count() {
    for (input, expect) in [
        (vec![""], 0),
        (vec!["in"], 1),
        (vec!["in", "on"], 2),
        (vec!["in", "on", "at"], 3),
    ] {
        let dict = Dict::new(strings(&input)).unwrap();
        assert_eq!(expect, dict.count(), "for input {:?}", &input);
    }
}

#[test]
fn resolve() {
    let dict = Dict::new(strings(&["in", "on"])).unwrap();
    assert_eq!(Ok(Some(&String::from("in"))), dict.resolve("n", 0));
    assert_eq!(Ok(Some(&String::from("on"))), dict.resolve("n", 1));
    assert_eq!(
        Err(WordResolveError::borrowed(
            "no dictionary word at position 2 for fingerprint 'n'"
        )),
        dict.resolve("n", 2)
    );
    assert_eq!(Ok(None), dict.resolve("t", 2));
}

#[test]
fn position() {
    let dict = Dict::new(strings(&["in", "on"])).unwrap();
    assert_eq!(Some(0), dict.position("n", "in"));
    assert_eq!(Some(1), dict.position("n", "on"));
    assert_eq!(None, dict.position("n", "an"));
    let empty = Dict::new(strings(&[])).unwrap();
    assert_eq!(None, empty.position("n", "an"));
}

#[test]
fn contains_fingerprint() {
    let dict = Dict::new(strings(&["in"])).unwrap();
    assert!(dict.contains_fingerprint("n"));
    assert!(!dict.contains_fingerprint("t"));
}

#[test]
fn populate_should_fill_to_fingerprint_limit() {
    let mut dict = Dict::default();
    let words = (0..255)
        .map(|i| format!("test-{}", "a".repeat(i)))
        .collect::<Vec<_>>();
    dict.populate(words).unwrap();
}

#[test]
fn read_from_text_file() {
    let text = "\n      in\n      on\n      at\n      the\n      is\n      of\n      off";
    let loaded = Dict::read_from_text_file(text).unwrap();
    assert_eq!(
        Dict::new(strings(&["in", "on", "at", "the", "is", "of", "off"])).unwrap(),
        loaded
    );
}
