//! Character and string helpers shared by the codec and the dictionary.
//!
//! The Unicode case mappings and character classes come from std; each is
//! reached through one trusted wrapper whose result is named by an
//! uninterpreted spec function, since the full Unicode tables cannot be
//! restated here.  Everything else in this module is verified.

use vstd::prelude::*;

verus! {

/// The first character of `char::to_lowercase(c)`.
pub uninterp spec fn lower_char_of(c: char) -> char;

/// The characters of `char::to_uppercase(c)`.
pub uninterp spec fn upper_char_of(c: char) -> Seq<char>;

/// The characters of `str::to_lowercase(s)`.
pub uninterp spec fn lower_str_of(s: Seq<char>) -> Seq<char>;

/// The characters of `str::to_uppercase(s)`.
pub uninterp spec fn upper_str_of(s: Seq<char>) -> Seq<char>;

/// Whether `char::is_uppercase(c)` holds.
pub uninterp spec fn char_is_upper(c: char) -> bool;

/// Whether `char::is_alphabetic(c)` holds.
pub uninterp spec fn char_is_alpha(c: char) -> bool;

/// Whether `char::is_whitespace(c)` holds.
pub uninterp spec fn char_is_space(c: char) -> bool;

/// Relies on char::to_lowercase: the lowercase mapping of a character depends
/// on that character alone and always yields at least one character, so the
/// first yielded character is a function of `c`.
#[verifier::external_body]
pub(crate) fn lower_char(c: char) -> (r: char)
    ensures
        r == lower_char_of(c),
{
    c.to_lowercase().next().unwrap()
}

/// Relies on char::to_uppercase: the uppercase mapping of a character depends
/// on that character alone and always yields at least one character.
#[verifier::external_body]
pub(crate) fn upper_char(c: char) -> (r: String)
    ensures
        r@ == upper_char_of(c),
        r@.len() >= 1,
{
    c.to_uppercase().to_string()
}

/// Relies on str::to_lowercase: the result depends on the characters alone;
/// an empty string stays empty.
#[verifier::external_body]
pub(crate) fn lower_str(s: &str) -> (r: String)
    ensures
        r@ == lower_str_of(s@),
        s@.len() == 0 ==> r@.len() == 0,
{
    s.to_lowercase()
}

/// Relies on str::to_uppercase: the result depends on the characters alone;
/// every character maps to at least one character, so a nonempty string stays
/// nonempty and an empty string stays empty.
#[verifier::external_body]
pub(crate) fn upper_str(s: &str) -> (r: String)
    ensures
        r@ == upper_str_of(s@),
        s@.len() > 0 ==> r@.len() > 0,
        s@.len() == 0 ==> r@.len() == 0,
{
    s.to_uppercase()
}

/// Relies on char::is_uppercase, a predicate of the character alone.
#[verifier::external_body]
pub(crate) fn is_upper(c: char) -> (r: bool)
    ensures
        r == char_is_upper(c),
{
    c.is_uppercase()
}

/// Relies on char::is_alphabetic, a predicate of the character alone.
#[verifier::external_body]
pub(crate) fn is_alpha(c: char) -> (r: bool)
    ensures
        r == char_is_alpha(c),
{
    c.is_alphabetic()
}

/// Relies on char::is_whitespace, a predicate of the character alone.
#[verifier::external_body]
pub(crate) fn is_space(c: char) -> (r: bool)
    ensures
        r == char_is_space(c),
{
    c.is_whitespace()
}

/// Relies on String::push: appends one character to the string.
#[verifier::external_body]
pub(crate) fn push_char(s: &mut String, c: char)
    ensures
        final(s)@ == old(s)@.push(c),
{
    s.push(c);
}

/// Character-for-character equality of two string slices.
pub(crate) fn str_eq(a: &str, b: &str) -> (r: bool)
    ensures
        r == (a@ == b@),
{
    let la = a.unicode_len();
    let lb = b.unicode_len();
    if la != lb {
        return false;
    }
    let mut i: usize = 0;
    while i < la
        invariant
            i <= la,
            la == a@.len(),
            la == b@.len(),
            forall|j: int| 0 <= j < i ==> a@[j] == b@[j],
        decreases la - i,
    {
        if a.get_char(i) != b.get_char(i) {
            return false;
        }
        i = i + 1;
    }
    proof {
        assert(a@ =~= b@);
    }
    true
}

/// Lexicographic (code-point) order on character sequences.
pub open spec fn lex_lt(a: Seq<char>, b: Seq<char>) -> bool
    decreases a.len(),
{
    b.len() > 0 && (a.len() == 0 || a[0] < b[0] || (a[0] == b[0] && lex_lt(
        a.skip(1),
        b.skip(1),
    )))
}

/// The dictionary's ordering key for words: length first, then lexicographic.
pub open spec fn word_lt(a: Seq<char>, b: Seq<char>) -> bool {
    a.len() < b.len() || (a.len() == b.len() && lex_lt(a, b))
}

pub proof fn lemma_skip_skip<T>(s: Seq<T>, i: int)
    requires
        0 <= i < s.len(),
    ensures
        s.skip(i).skip(1) == s.skip(i + 1),
{
    assert(s.skip(i).skip(1) =~= s.skip(i + 1));
}

/// Exactly one of `lex_lt(a, b)`, `a == b`, `lex_lt(b, a)` holds for
/// sequences of equal length.
pub proof fn lemma_lex_trichotomy(a: Seq<char>, b: Seq<char>)
    requires
        a.len() == b.len(),
    ensures
        lex_lt(a, b) || lex_lt(b, a) || a == b,
        lex_lt(a, b) ==> !lex_lt(b, a) && a != b,
        lex_lt(b, a) ==> !lex_lt(a, b) && a != b,
    decreases a.len(),
{
    if a.len() == 0 {
        assert(a =~= b);
    } else {
        lemma_lex_trichotomy(a.skip(1), b.skip(1));
        if a[0] == b[0] && a.skip(1) == b.skip(1) {
            assert forall|i: int| 0 <= i < a.len() implies a[i] == b[i] by {
                if i > 0 {
                    assert(a.skip(1)[i - 1] == b.skip(1)[i - 1]);
                }
            }
            assert(a =~= b);
        }
        if a == b {
            assert(a.skip(1) =~= b.skip(1));
        }
    }
}

/// Transitivity of the lexicographic order on sequences of equal length.
pub proof fn lemma_lex_trans(a: Seq<char>, b: Seq<char>, c: Seq<char>)
    requires
        a.len() == b.len(),
        b.len() == c.len(),
        lex_lt(a, b),
        lex_lt(b, c),
    ensures
        lex_lt(a, c),
    decreases a.len(),
{
    if a.len() > 0 {
        if a[0] == b[0] && b[0] == c[0] {
            lemma_lex_trans(a.skip(1), b.skip(1), c.skip(1));
        }
    }
}

/// Exactly one of `word_lt(a, b)`, `a == b`, `word_lt(b, a)` holds.
pub proof fn lemma_word_trichotomy(a: Seq<char>, b: Seq<char>)
    ensures
        word_lt(a, b) || word_lt(b, a) || a == b,
        word_lt(a, b) ==> !word_lt(b, a) && a != b,
        word_lt(b, a) ==> !word_lt(a, b) && a != b,
{
    if a.len() == b.len() {
        lemma_lex_trichotomy(a, b);
    }
}

/// Transitivity of the word order.
pub proof fn lemma_word_trans(a: Seq<char>, b: Seq<char>, c: Seq<char>)
    requires
        word_lt(a, b),
        word_lt(b, c),
    ensures
        word_lt(a, c),
{
    if a.len() == b.len() && b.len() == c.len() {
        lemma_lex_trans(a, b, c);
    }
}

/// Compares two words in the dictionary order: shorter first, then
/// lexicographic by code point.
pub(crate) fn word_less(a: &str, b: &str) -> (r: bool)
    ensures
        r == word_lt(a@, b@),
{
    let la = a.unicode_len();
    let lb = b.unicode_len();
    if la != lb {
        return la < lb;
    }
    proof {
        assert(a@.skip(0) =~= a@);
        assert(b@.skip(0) =~= b@);
    }
    let mut i: usize = 0;
    while i < la
        invariant
            i <= la,
            la == a@.len(),
            la == b@.len(),
            lex_lt(a@, b@) == lex_lt(a@.skip(i as int), b@.skip(i as int)),
        decreases la - i,
    {
        let ca = a.get_char(i);
        let cb = b.get_char(i);
        if ca != cb {
            return (ca as u32) < (cb as u32);
        }
        proof {
            lemma_skip_skip(a@, i as int);
            lemma_skip_skip(b@, i as int);
        }
        i = i + 1;
    }
    proof {
        assert(a@.skip(la as int) =~= Seq::<char>::empty());
        assert(b@.skip(la as int) =~= Seq::<char>::empty());
    }
    false
}

/// One step of whitespace tokenization: `buf` holds the characters of the
/// token being accumulated when the remaining input `s` starts.
pub open spec fn tok_rec(s: Seq<char>, buf: Seq<char>) -> Seq<Seq<char>>
    decreases s.len(),
{
    if s.len() == 0 {
        if buf.len() > 0 {
            seq![buf]
        } else {
            Seq::empty()
        }
    } else if char_is_space(s[0]) {
        if buf.len() > 0 {
            seq![buf] + tok_rec(s.skip(1), Seq::empty())
        } else {
            tok_rec(s.skip(1), Seq::empty())
        }
    } else {
        tok_rec(s.skip(1), buf.push(s[0]))
    }
}

/// The whitespace-delimited tokens of a line, in order, with no empties.
pub open spec fn tokens_of(s: Seq<char>) -> Seq<Seq<char>> {
    tok_rec(s, Seq::empty())
}

proof fn lemma_tok_rec_nonempty(s: Seq<char>, buf: Seq<char>)
    ensures
        forall|i: int| 0 <= i < tok_rec(s, buf).len() ==> #[trigger] tok_rec(s, buf)[i].len() > 0,
    decreases s.len(),
{
    if s.len() == 0 {
    } else if char_is_space(s[0]) {
        lemma_tok_rec_nonempty(s.skip(1), Seq::empty());
        if buf.len() > 0 {
            assert forall|i: int| 0 <= i < tok_rec(s, buf).len() implies #[trigger] tok_rec(
                s,
                buf,
            )[i].len() > 0 by {
                if i > 0 {
                    assert(tok_rec(s, buf)[i] == tok_rec(s.skip(1), Seq::empty())[i - 1]);
                }
            }
        } else {
            assert forall|i: int| 0 <= i < tok_rec(s, buf).len() implies #[trigger] tok_rec(
                s,
                buf,
            )[i].len() > 0 by {
                assert(tok_rec(s, buf)[i] == tok_rec(s.skip(1), Seq::empty())[i]);
            }
        }
    } else {
        lemma_tok_rec_nonempty(s.skip(1), buf.push(s[0]));
        assert forall|i: int| 0 <= i < tok_rec(s, buf).len() implies #[trigger] tok_rec(
            s,
            buf,
        )[i].len() > 0 by {
            assert(tok_rec(s, buf)[i] == tok_rec(s.skip(1), buf.push(s[0]))[i]);
        }
    }
}

/// Every token of a line is nonempty.
pub proof fn lemma_tokens_nonempty(s: Seq<char>)
    ensures
        forall|i: int| 0 <= i < tokens_of(s).len() ==> (#[trigger] tokens_of(s)[i]).len() > 0,
{
    lemma_tok_rec_nonempty(s, Seq::empty());
}

/// Splits a line into its whitespace-delimited tokens.
pub(crate) fn split_whitespace_tokens(line: &str) -> (r: Vec<String>)
    ensures
        r.deep_view() == tokens_of(line@),
        forall|i: int| 0 <= i < r@.len() ==> r@[i]@.len() > 0,
{
    let n = line.unicode_len();
    let mut out: Vec<String> = Vec::new();
    let mut buf = String::new();
    let mut i: usize = 0;
    proof {
        assert(line@.skip(0) =~= line@);
    }
    while i < n
        invariant
            i <= n,
            n == line@.len(),
            tokens_of(line@) == out.deep_view() + tok_rec(line@.skip(i as int), buf@),
            forall|j: int| 0 <= j < out@.len() ==> #[trigger] out@[j]@.len() > 0,
        decreases n - i,
    {
        let ghost rem = line@.skip(i as int);
        let ghost old_out = out.deep_view();
        let ghost old_buf = buf@;
        let c = line.get_char(i);
        proof {
            lemma_skip_skip(line@, i as int);
            assert(rem[0] == line@[i as int]);
        }
        if is_space(c) {
            if buf.unicode_len() > 0 {
                out.push(buf);
                buf = String::new();
                proof {
                    assert(out.deep_view() =~~= old_out.push(old_buf));
                    assert(tok_rec(rem, old_buf) == seq![old_buf] + tok_rec(
                        line@.skip(i + 1),
                        Seq::<char>::empty(),
                    ));
                    assert(buf@ =~= Seq::<char>::empty());
                }
            } else {
                proof {
                    assert(buf@ =~= Seq::<char>::empty());
                }
            }
        } else {
            push_char(&mut buf, c);
        }
        proof {
            assert(out.deep_view() + tok_rec(line@.skip(i + 1), buf@) =~~= old_out + tok_rec(
                rem,
                old_buf,
            ));
        }
        i = i + 1;
    }
    let ghost end_out = out.deep_view();
    let ghost last_buf = buf@;
    if buf.unicode_len() > 0 {
        out.push(buf);
        proof {
            assert(out.deep_view() =~~= end_out.push(last_buf));
        }
    }
    proof {
        assert(line@.skip(n as int) =~= Seq::<char>::empty());
        assert(out.deep_view() =~~= tokens_of(line@));
    }
    out
}

/// The decimal digit characters.
pub open spec fn digit_char(d: int) -> char {
    seq!['0', '1', '2', '3', '4', '5', '6', '7', '8', '9'][d]
}

/// The decimal rendering of a non-negative integer.
pub open spec fn dec_str(n: int) -> Seq<char>
    decreases n,
{
    if n < 10 {
        seq![digit_char(n)]
    } else {
        dec_str(n / 10) + seq![digit_char(n % 10)]
    }
}

fn digit_exec(d: u8) -> (c: char)
    requires
        d < 10,
    ensures
        c == digit_char(d as int),
{
    match d {
        0 => '0',
        1 => '1',
        2 => '2',
        3 => '3',
        4 => '4',
        5 => '5',
        6 => '6',
        7 => '7',
        8 => '8',
        _ => '9',
    }
}

/// Renders a byte as its decimal digits.
pub fn u8_to_string(n: u8) -> (r: String)
    ensures
        r@ == dec_str(n as int),
{
    let mut s = String::new();
    if n >= 100 {
        push_char(&mut s, digit_exec(n / 100));
    }
    if n >= 10 {
        push_char(&mut s, digit_exec((n / 10) % 10));
    }
    push_char(&mut s, digit_exec(n % 10));
    proof {
        if n >= 100 {
            assert(dec_str(n as int) == dec_str(n as int / 10) + seq![digit_char(n as int % 10)]);
            assert(dec_str(n as int / 10) == dec_str(n as int / 10 / 10) + seq![
                digit_char(n as int / 10 % 10),
            ]);
            assert(n as int / 10 / 10 == n as int / 100);
            assert(s@ =~= dec_str(n as int));
        } else if n >= 10 {
            assert(dec_str(n as int) == dec_str(n as int / 10) + seq![digit_char(n as int % 10)]);
            assert(s@ =~= dec_str(n as int));
        } else {
            assert(s@ =~= dec_str(n as int));
        }
    }
    s
}

} // verus!
