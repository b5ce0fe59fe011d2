//! A lightweight framework for transcoding text from one lexical form to
//! another, line by line.
//!
//! The apparatus that performs this transcoding is called a **codec**,
//! described by the [`codecs::Codec`] trait.  The prominent implementation is
//! **Balkanoid** — a quasi-lossless Balkanoidal meta-lingual compressor: it
//! shrinks prose by replacing common words with their vowel-free
//! fingerprints, against a dictionary shared by the compressing and the
//! expanding side, and escapes whatever could be misread on the way back.
//!
//! Every function in this crate carries a contract that pins down its result
//! over a mathematical model of the dictionary and the codec; the laws the
//! codec obeys — which tokens round-trip exactly, that repeated population
//! changes nothing, how a fingerprint group fills to its cap, and that the
//! binary image restores a dictionary verbatim — are stated and proved
//! alongside the code.

pub mod banner;
pub mod codecs;
pub mod strutil;
pub mod succinct;
