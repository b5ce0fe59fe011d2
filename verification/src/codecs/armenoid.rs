//! A placeholder codec that exercises the pluggable-codec interface: it
//! replaces every token by a fixed word.

use vstd::prelude::*;
use crate::codecs::Codec;
use crate::strutil::{tokens_of, split_whitespace_tokens, push_char};
use std::convert::Infallible;

verus! {

/// `n` copies of the word `w`, joined by single spaces.
pub open spec fn repeat_join(n: nat, w: Seq<char>) -> Seq<char>
    decreases n,
{
    if n == 0 {
        Seq::empty()
    } else if n == 1 {
        w
    } else {
        repeat_join((n - 1) as nat, w) + seq![' '] + w
    }
}

/// The placeholder codec.
pub struct Armenoid;

impl Default for Armenoid {
    fn default() -> (r: Self)
        ensures
            r == (Armenoid {  }),
    {
        Armenoid
    }
}

fn echo_tokens(line: &str, word: &str) -> (r: String)
    ensures
        r@ == repeat_join(tokens_of(line@).len(), word@),
{
    let words = split_whitespace_tokens(line);
    proof {
        assert(words@.len() == tokens_of(line@).len());
    }
    let mut out = String::new();
    let mut i: usize = 0;
    while i < words.len()
        invariant
            i <= words@.len(),
            words@.len() == tokens_of(line@).len(),
            out@ == repeat_join(i as nat, word@),
        decreases words@.len() - i,
    {
        let ghost before = out@;
        if i > 0 {
            push_char(&mut out, ' ');
        }
        out.append(word);
        proof {
            if i == 0 {
                assert(out@ =~= word@);
            } else {
                assert(out@ =~= before + seq![' '] + word@);
            }
        }
        i = i + 1;
    }
    out
}

impl Codec for Armenoid {
    type ExpandError = Infallible;

    /// The placeholder codec is always usable.
    open spec fn valid(&self) -> bool {
        true
    }

    /// Replaces every whitespace-delimited token by the word `inch`.
    fn compress_line(&self, line: &str) -> (r: String)
        ensures
            r@ == repeat_join(tokens_of(line@).len(), "inch"@),
    {
        echo_tokens(line, "inch")
    }

    /// Replaces every whitespace-delimited token by the word `what`.
    fn expand_line(&self, line: &str) -> (r: Result<String, Infallible>)
        ensures
            r is Ok,
            r->Ok_0@ == repeat_join(tokens_of(line@).len(), "what"@),
    {
        Ok(echo_tokens(line, "what"))
    }
}

} // verus!
