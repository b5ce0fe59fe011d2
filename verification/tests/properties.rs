//! Concrete checks of the library's stated behaviours: escape handling,
//! conflict safety, idempotent population, binary persistence and the
//! end-to-end example.

use serbzip::banner::colour_256;
use serbzip::codecs::balkanoid::{compress_word, expand_word, compress_line, expand_line, Dict};
use serbzip::codecs::balkanoid::dict::WordVec;

fn strings(words: &[&str]) -> Vec<String> {
    words.iter().map(|w| w.to_string()).collect()
}

#[test]
fn escape_correctness() {
    let dict = Dict::new(strings(&[])).unwrap();
    let compressed = compress_word(&dict, "\\");
    assert_eq!(0, compressed.leading_spaces);
    assert_eq!("\\\\", compressed.body);
    let expanded = expand_word(&dict, compressed).unwrap();
    assert_eq!("\\", expanded);
}

#[test]
fn conflict_safety() {
    let dict = Dict::new(strings(&["count", "canet"])).unwrap();

    let literal = compress_word(&dict, "cnt");
    assert_eq!(0, literal.leading_spaces);
    assert_eq!("\\cnt", literal.body);

    let count = compress_word(&dict, "count");
    assert_eq!(1, count.leading_spaces);
    assert_eq!("cnt", count.body);

    let canet = compress_word(&dict, "canet");
    assert_eq!(0, canet.leading_spaces);
    assert_eq!("cnt", canet.body);

    assert_eq!("cnt", expand_word(&dict, literal).unwrap());
    assert_eq!("count", expand_word(&dict, count).unwrap());
    assert_eq!("canet", expand_word(&dict, canet).unwrap());
}

#[test]
fn population_idempotence() {
    let mut once = Dict::default();
    once.populate(strings(&["word"])).unwrap();

    let mut twice = Dict::default();
    twice.populate(strings(&["word"])).unwrap();
    twice.populate(strings(&["word"])).unwrap();

    assert_eq!(once, twice);
    assert_eq!(1, twice.count());
}

#[test]
fn unresolvable_fingerprint() {
    let dict = Dict::new(strings(&["in", "on"])).unwrap();
    let err = dict.resolve("n", 2).unwrap_err();
    assert_eq!("no dictionary word at position 2 for fingerprint 'n'", err.message());
    assert_eq!(Ok(None), dict.resolve("t", 0));
}

#[test]
fn end_to_end_example() {
    let dict = Dict::new(strings(&["in", "on", "as", "is"])).unwrap();
    let compressed = compress_line(&dict, "he came in, as one");
    assert_eq!("he came n, s one", compressed);
    let expanded = expand_line(&dict, &compressed).unwrap();
    assert_eq!("he came in, as one", expanded);
}

#[test]
fn binary_round_trip_mixed_scripts() {
    let dict = Dict::new(strings(&["яблоко", "яблоки", "in", "on", "kgb"])).unwrap();
    let image = dict.write_to_binary_image().unwrap();
    let loaded = Dict::read_from_binary_image(&image).unwrap();
    assert_eq!(dict, loaded);
    assert_eq!(Ok(Some(&String::from("яблоки"))), loaded.resolve("блк", 0));
}

#[test]
fn binary_image_rejects_garbage() {
    let garbage: Vec<u8> = vec![0xff, 0xff, 0xff, 0xff, 0x00, 0x01];
    assert!(Dict::read_from_binary_image(&garbage).is_err());
}

#[test]
fn capitalisation_survives_substitution() {
    let dict = Dict::new(strings(&["count", "canet"])).unwrap();
    let compressed = compress_word(&dict, "Count");
    assert_eq!("Cnt", compressed.body);
    assert_eq!("Count", expand_word(&dict, compressed).unwrap());
}

#[test]
fn left_to_right_mark_separates_words() {
    let dict = Dict::new(strings(&[])).unwrap();
    let expanded = expand_line(&dict, "he\u{200E}saw").unwrap();
    assert_eq!("he saw", expanded);
}

#[test]
fn colour_256_picks_from_palette() {
    assert_eq!("\u{1b}[38;5;$0m", colour_256(0));
    assert_eq!("\u{1b}[38;5;$7m", colour_256(7));
    assert_eq!("\u{1b}[38;5;$45m", colour_256(45));
    assert_eq!("\u{1b}[38;5;$123m", colour_256(123));
    assert_eq!("\u{1b}[38;5;$255m", colour_256(255));
}

#[test]
fn wordvec_capacity_exact_bound() {
    let mut vec = WordVec::default();
    for i in 0..255 {
        vec.push(format!("w{i}")).unwrap();
    }
    let err = vec.push(String::from("straw")).unwrap_err();
    assert_eq!("too many words in vector", err.message());
    // a word already present is also refused once the vector is full
    assert!(vec.push(String::from("w0")).is_err());
}

#[test]
fn line_of_literal_tokens_round_trips_exactly() {
    let dict = Dict::new(strings(&["count", "canet"])).unwrap();
    let line = "\\x cnt 123 ¡hola! уж";
    let compressed = compress_line(&dict, line);
    assert_eq!("\\\\x \\cnt 123 ¡hola! уж", compressed);
    assert_eq!(line, expand_line(&dict, &compressed).unwrap());
}
