//! Machinery common to all codec implementations.

use vstd::prelude::*;

pub mod armenoid;
pub mod balkanoid;

verus! {

/// The specification of a codec.
///
/// Codecs work line by line: [`compress_line`](Codec::compress_line) encodes
/// one line of input text, and [`expand_line`](Codec::expand_line) performs
/// the reverse operation.  Compression is total — all text is compressible —
/// while expansion may fail, since the compressed text may have been mangled.
/// Whole-stream helpers that drive a codec across a buffered reader live with
/// the I/O code, outside this crate's verified core.
pub trait Codec {
    /// The type of error returned during expansion.
    type ExpandError;

    /// Whether the codec is in a usable state — for a dictionary codec,
    /// that its dictionary satisfies its invariant.
    spec fn valid(&self) -> bool;

    /// Compresses a line of text, returning its encoded representation.
    fn compress_line(&self, line: &str) -> String
        requires
            self.valid(),
    ;

    /// Expands a line of text, returning its decoded representation.
    fn expand_line(&self, line: &str) -> Result<String, Self::ExpandError>
        requires
            self.valid(),
    ;
}

} // verus!
