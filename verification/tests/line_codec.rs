use serbzip::codecs::balkanoid::{
    Balkanoid, CompactionRule, Dict, EncodedWord, WordResolveError,
};
use serbzip::codecs::Codec;

fn strings(words: &[&str]) -> Vec<String> {
    words.iter().map(|w| w.to_string()).collect()
}

#[test]
fn tests_parse_line() {
    struct Case {
        input: &'static str,
        expect: Vec<(u8, &'static str)>,
    }
    for case in vec![
        Case { input: "", expect: vec![] },
        Case { input: " ", expect: vec![] },
        Case { input: "the", expect: vec![(0, "the")] },
        Case { input: " the", expect: vec![(1, "the")] },
        Case { input: "  the", expect: vec![(2, "the")] },
        Case { input: "  the ", expect: vec![(2, "the")] },
        Case {
            input: "the quick brown fox",
            expect: vec![(0, "the"), (0, "quick"), (0, "brown"), (0, "fox")],
        },
        Case {
            input: " the   quick brown  fox ",
            expect: vec![(1, "the"), (2, "quick"), (0, "brown"), (1, "fox")],
        },
    ] {
        let actual = EncodedWord::parse_line(case.input);
        let expect = case
            .expect
            .iter()
            .map(|&(leading_spaces, body)| EncodedWord::new(leading_spaces, body.to_owned()))
            .collect::<Vec<_>>();
        assert_eq!(expect, actual, "for input '{}'", case.input);
    }
}

#[test]
fn compress_expand_line() {
    #[derive(Debug)]
    struct Case {
        input_dict: Vec<&'static str>,
        input_line: &'static str,
        expect: &'static str,
    }
    for case in vec![
        Case {
            input_dict: vec!["in", "on", "as", "is"],
            input_line: "he came in, as one",
            expect: "he came n, s one",
        },
        Case {
            input_dict: vec!["in", "on", "one", "way"],
            input_line: "he came in, as one, and went on his way!",
            expect: "he came n, as   n, and went  n his wy!",
        },
        Case {
            input_dict: vec!["in", "on", "as", "is"],
            input_line: "He came In, As One",
            expect: "He came N, S One",
        },
    ] {
        let dict = Dict::new(strings(&case.input_dict)).unwrap();
        let codec = Balkanoid::new(&dict);
        let actual = codec.compress_line(case.input_line);
        assert_eq!(case.expect, actual, "[compression] for {case:?}");

        let expanded = codec.expand_line(&actual).unwrap();
        assert_eq!(
            case.input_line.to_lowercase(),
            expanded.to_lowercase(),
            "[expansion] for {case:?}"
        )
    }
}

#[test]
fn expand_line_cannot_resolve() {
    let dict = Dict::new(strings(&["in", "on", "as", "is"])).unwrap();
    let result = Balkanoid::new(&dict).expand_line("  n");
    assert_eq!(
        Err(WordResolveError::borrowed(
            "no dictionary word at position 2 for fingerprint 'n'"
        )),
        result
    );
}

#[test]
fn compaction_rule_implements_debug() {
    let formatted = format!("{:?}", CompactionRule::Conflict);
    assert_eq!("Conflict", formatted);
}

#[test]
fn parse_line() {
    for (input, expect) in [
        ("", vec![]),
        (" ", vec![]),
        ("the", vec![(0u8, "the")]),
        (" the", vec![(1, "the")]),
        ("  the", vec![(2, "the")]),
        ("  the ", vec![(2, "the")]),
        ("the quick brown fox", vec![(0, "the"), (0, "quick"), (0, "brown"), (0, "fox")]),
        (" the   quick brown  fox ", vec![(1, "the"), (2, "quick"), (0, "brown"), (1, "fox")]),
    ] {
        let actual = EncodedWord::parse_line(input);
        let expected = expect
            .iter()
            .map(|&(leading_spaces, body)| EncodedWord::new(leading_spaces, body.to_owned()))
            .collect::<Vec<_>>();
        assert_eq!(expected, actual, "for input '{}'", input);
    }
}
