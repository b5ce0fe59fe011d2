use serbzip::codecs::balkanoid::{
    compress_word, expand_word, Dict, EncodedWord, Reduction, SplitWord, WordResolveError,
};

fn strings(words: &[&str]) -> Vec<String> {
    words.iter().map(|w| w.to_string()).collect()
}

#[test]
fn tests_reduce() {
    struct Case {
        input: &'static str,
        expect: Reduction,
    }
    for case in vec![
        Case {
            input: "fox",
            expect: Reduction {
                fingerprint: String::from("fx"),
                leading_capital: false,
                trailing_capitals: 0,
            },
        },
        Case {
            input: " foxy ",
            expect: Reduction {
                fingerprint: String::from(" fxy "),
                leading_capital: false,
                trailing_capitals: 0,
            },
        },
        Case {
            input: "Fox",
            expect: Reduction {
                fingerprint: String::from("fx"),
                leading_capital: true,
                trailing_capitals: 0,
            },
        },
        Case {
            input: "FoX",
            expect: Reduction {
                fingerprint: String::from("fx"),
                leading_capital: true,
                trailing_capitals: 1,
            },
        },
        Case {
            input: " FoX",
            expect: Reduction {
                fingerprint: String::from(" fx"),
                leading_capital: false,
                trailing_capitals: 2,
            },
        },
        Case {
            input: "",
            expect: Reduction {
                fingerprint: String::from(""),
                leading_capital: false,
                trailing_capitals: 0,
            },
        },
        Case {
            input: " ",
            expect: Reduction {
                fingerprint: String::from(" "),
                leading_capital: false,
                trailing_capitals: 0,
            },
        },
    ] {
        let actual = Reduction::from(case.input);
        assert_eq!(case.expect, actual, "for input '{}'", case.input);
    }
}

#[test]
fn reduction_take_if_lowercase() {
    assert_eq!(
        Reduction::from("test").take_if_lowercase(),
        Some(Reduction {
            fingerprint: String::from("tst"),
            leading_capital: false,
            trailing_capitals: 0
        })
    );

    assert_eq!(Reduction::from("tesT").take_if_lowercase(), None);
}

#[test]
fn split_word() {
    struct Case {
        input: &'static str,
        expect: (&'static str, &'static str),
    }
    for case in vec![
        Case { input: "foo", expect: ("foo", "") },
        Case { input: "foo!🦄", expect: ("foo", "!🦄") },
        Case { input: "¿foo?", expect: ("", "¿foo?") },
        Case { input: "123", expect: ("", "123") },
        Case { input: "foo1.1", expect: ("foo", "1.1") },
        Case { input: "\\x!", expect: ("\\x", "!") },
        Case { input: "\\!", expect: ("\\", "!") },
        Case { input: "\\", expect: ("\\", "") },
        Case { input: "яблоко", expect: ("яблоко", "") },
        Case { input: "яблоко!", expect: ("яблоко", "!") },
        Case { input: "\\яблоко!", expect: ("\\яблоко", "!") },
    ] {
        let expected = SplitWord {
            prefix: String::from(case.expect.0),
            suffix: String::from(case.expect.1),
        };
        let actual = SplitWord::from(case.input);
        assert_eq!(expected, actual, "for input '{}'", case.input);
    }
}

#[test]
fn punctuate_word() {
    struct Case {
        input: &'static str,
        expect: (&'static str, &'static str),
    }
    for case in vec![
        Case { input: "foo", expect: ("foo", "") },
        Case { input: "foo!🦄", expect: ("foo", "!🦄") },
        Case { input: "¿foo?", expect: ("", "¿foo?") },
        Case { input: "123", expect: ("", "123") },
        Case { input: "foo1.1", expect: ("foo", "1.1") },
        Case { input: "\\x!", expect: ("\\x", "!") },
        Case { input: "\\!", expect: ("\\", "!") },
        Case { input: "\\", expect: ("\\", "") },
        Case { input: "\\\\", expect: ("\\", "\\") },
        Case { input: "\\def\\", expect: ("\\def", "\\") },
        Case { input: "яблоко", expect: ("яблоко", "") },
        Case { input: "яблоко!", expect: ("яблоко", "!") },
        Case { input: "\\яблоко!", expect: ("\\яблоко", "!") },
        Case { input: "\\яблоко", expect: ("\\яблоко", "") },
    ] {
        let expected = SplitWord {
            prefix: String::from(case.expect.0),
            suffix: String::from(case.expect.1),
        };
        let actual = SplitWord::from(case.input);
        assert_eq!(expected, actual, "for input '{}'", case.input);
    }
}

#[test]
fn tests_compress_expand_word() {
    struct Case {
        input_dict: Vec<&'static str>,
        input_word: &'static str,
        expect_encoded: (u8, &'static str),
        expect_proper_capitalisation: bool,
    }
    for case in vec![
        Case {
            input_dict: vec!["count", "canet"],
            input_word: "count",
            expect_encoded: (1, "cnt"),
            expect_proper_capitalisation: true,
        },
        Case {
            input_dict: vec!["count", "canet"],
            input_word: "Count",
            expect_encoded: (1, "Cnt"),
            expect_proper_capitalisation: true,
        },
        Case {
            input_dict: vec!["count", "canet"],
            input_word: "CoUnt",
            expect_encoded: (1, "CNT"),
            expect_proper_capitalisation: false,
        },
        Case {
            input_dict: vec!["canet"],
            input_word: "CoUnt",
            expect_encoded: (0, "CoUnt"),
            expect_proper_capitalisation: true,
        },
        Case {
            input_dict: vec!["count", "canet"],
            input_word: "CounT",
            expect_encoded: (1, "CNT"),
            expect_proper_capitalisation: false,
        },
        Case {
            input_dict: vec!["count", "canet"],
            input_word: "canet",
            expect_encoded: (0, "cnt"),
            expect_proper_capitalisation: true,
        },
        Case {
            input_dict: vec!["count", "canet"],
            input_word: "cont",
            expect_encoded: (0, "cont"),
            expect_proper_capitalisation: true,
        },
        Case {
            input_dict: vec!["count", "canet"],
            input_word: "Cont",
            expect_encoded: (0, "Cont"),
            expect_proper_capitalisation: true,
        },
        Case {
            input_dict: vec!["count", "canet"],
            input_word: "ConT",
            expect_encoded: (0, "ConT"),
            expect_proper_capitalisation: true,
        },
        Case {
            input_dict: vec!["count", "canet"],
            input_word: "cnt",
            expect_encoded: (0, "\\cnt"),
            expect_proper_capitalisation: true,
        },
        Case {
            input_dict: vec!["count", "canet"],
            input_word: "Cnt",
            expect_encoded: (0, "\\Cnt"),
            expect_proper_capitalisation: true,
        },
        Case {
            input_dict: vec!["count", "canet"],
            input_word: "CnT",
            expect_encoded: (0, "\\CnT"),
            expect_proper_capitalisation: true,
        },
        Case {
            input_dict: vec!["count", "canet"],
            input_word: "mark",
            expect_encoded: (0, "mark"),
            expect_proper_capitalisation: true,
        },
        Case {
            input_dict: vec![],
            input_word: "kgb",
            expect_encoded: (0, "kgb"),
            expect_proper_capitalisation: true,
        },
        Case {
            input_dict: vec!["kagoob"],
            input_word: "kgb",
            expect_encoded: (0, "\\kgb"),
            expect_proper_capitalisation: true,
        },
        Case {
            input_dict: vec!["kgb"],
            input_word: "kgb",
            expect_encoded: (0, "kgb"),
            expect_proper_capitalisation: true,
        },
        Case {
            input_dict: vec!["as", "is"],
            input_word: "a",
            expect_encoded: (0, "a"),
            expect_proper_capitalisation: true,
        },
        Case {
            input_dict: vec!["as", "is"],
            input_word: "aio",
            expect_encoded: (0, "aio"),
            expect_proper_capitalisation: true,
        },
        Case {
            input_dict: vec!["as", "is"],
            input_word: "AIO",
            expect_encoded: (0, "AIO"),
            expect_proper_capitalisation: true,
        },
        Case {
            input_dict: vec!["as", "is"],
            input_word: "A",
            expect_encoded: (0, "A"),
            expect_proper_capitalisation: true,
        },
        Case {
            input_dict: vec!["as", "is"],
            input_word: "s.",
            expect_encoded: (0, "\\s."),
            expect_proper_capitalisation: true,
        },
        Case {
            input_dict: vec!["as", "is"],
            input_word: "S.",
            expect_encoded: (0, "\\S."),
            expect_proper_capitalisation: true,
        },
        Case {
            input_dict: vec!["prpr"],
            input_word: "-prPr-",
            expect_encoded: (0, "-prPr-"),
            expect_proper_capitalisation: true,
        },
        Case {
            input_dict: vec!["ra"],
            input_word: "ra",
            expect_encoded: (0, "r"),
            expect_proper_capitalisation: true,
        },
        Case {
            input_dict: vec!["ra"],
            input_word: "Ra",
            expect_encoded: (0, "R"),
            expect_proper_capitalisation: true,
        },
        Case {
            input_dict: vec!["ra"],
            input_word: "RA",
            expect_encoded: (0, "R"),
            expect_proper_capitalisation: false,
        },
        Case {
            input_dict: vec![""],
            input_word: "\\",
            expect_encoded: (0, "\\\\"),
            expect_proper_capitalisation: true,
        },
        Case {
            input_dict: vec![""],
            input_word: "\\\\",
            expect_encoded: (0, "\\\\\\"),
            expect_proper_capitalisation: true,
        },
        Case {
            input_dict: vec![""],
            input_word: "attaché",
            expect_encoded: (0, "attaché"),
            expect_proper_capitalisation: true,
        },
        Case {
            input_dict: vec![""],
            input_word: "attaché,",
            expect_encoded: (0, "attaché,"),
            expect_proper_capitalisation: true,
        },
        Case {
            input_dict: vec!["яблоко"],
            input_word: "яблоко",
            expect_encoded: (0, "блк"),
            expect_proper_capitalisation: true,
        },
        Case {
            input_dict: vec!["яблоко"],
            input_word: "Яблоко",
            expect_encoded: (0, "Блк"),
            expect_proper_capitalisation: true,
        },
        Case {
            input_dict: vec!["яблоко", "яблоки"],
            input_word: "Яблоки",
            expect_encoded: (0, "Блк"),
            expect_proper_capitalisation: true,
        },
        Case {
            input_dict: vec![""],
            input_word: "уж",
            expect_encoded: (0, "уж"),
            expect_proper_capitalisation: true,
        },
        Case {
            input_dict: vec![],
            input_word: "\\def\\ebook{33283}",
            expect_encoded: (0, "\\\\def\\ebook{33283}"),
            expect_proper_capitalisation: true,
        },
    ] {
        let dict = Dict::new(strings(&case.input_dict)).unwrap();
        let expected = EncodedWord::new(case.expect_encoded.0, case.expect_encoded.1.to_owned());
        let actual = compress_word(&dict, case.input_word);
        assert_eq!(
            expected, actual,
            "[compression] for input '{}' with dict {:?}",
            case.input_word, &case.input_dict
        );

        let expanded = expand_word(&dict, actual).unwrap();
        assert_eq!(
            case.input_word.to_lowercase(),
            expanded.to_lowercase(),
            "[expansion, case-insensitive check] for input '{}' with dict {:?}",
            case.input_word,
            &case.input_dict
        );
        if case.expect_proper_capitalisation {
            assert_eq!(
                case.input_word, expanded,
                "[expansion, case-sensitive check, expect equal] for input '{}' with dict {:?}",
                case.input_word, &case.input_dict
            );
        } else {
            assert_ne!(
                case.input_word, expanded,
                "[expansion, case-sensitive check, expect unequal] for input '{}' with dict {:?}",
                case.input_word, &case.input_dict
            );
        }
    }
}

#[test]
fn expand_word_cannot_resolve() {
    let dict = Dict::new(strings(&["in", "on", "as", "is"])).unwrap();
    let result = expand_word(
        &dict,
        EncodedWord { leading_spaces: 2, body: String::from("n") },
    );
    assert_eq!(
        Err(WordResolveError::borrowed(
            "no dictionary word at position 2 for fingerprint 'n'"
        )),
        result
    );
}

#[test]
fn reduce() {
    for (input, fingerprint, leading_capital, trailing_capitals) in [
        ("fox", "fx", false, 0u8),
        (" foxy ", " fxy ", false, 0),
        ("Fox", "fx", true, 0),
        ("FoX", "fx", true, 1),
        (" FoX", " fx", false, 2),
    ] {
        let actual = Reduction::from(input);
        let expect = Reduction {
            fingerprint: String::from(fingerprint),
            leading_capital,
            trailing_capitals,
        };
        assert_eq!(expect, actual, "for input '{}'", input);
    }
}
