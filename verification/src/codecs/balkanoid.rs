//! The Balkanoid codec: a reversible, line-oriented text compressor that
//! replaces dictionary words by their vowel-free fingerprints.

pub mod dict;

use vstd::prelude::*;
use crate::strutil::{
    char_is_upper, lower_char_of, lower_char, is_upper, is_alpha, push_char, char_is_alpha,
    lower_str_of, lower_str, upper_str_of, upper_str, upper_char_of, upper_char,
};
use crate::codecs::Codec;
pub use dict::{Dict, WordResolveError};
use dict::{
    has_fp, group_of, fp_idx, lookup_position, lemma_word_index, resolve_msg, dict_pairs_wf,
    sorted_strict,
};

verus! {

/// True iff the character is one of the recognised Latin or Cyrillic vowels,
/// in either case.
pub open spec fn is_vowel_spec(c: char) -> bool {
    c == 'a' || c == 'A' || c == 'e' || c == 'E' || c == 'i' || c == 'I' || c == 'o' || c == 'O'
        || c == 'u' || c == 'U' || c == 'а' || c == 'А' || c == 'э' || c == 'Э' || c == 'ы'
        || c == 'Ы' || c == 'у' || c == 'У' || c == 'я' || c == 'Я' || c == 'е' || c == 'Е'
        || c == 'ё' || c == 'Ё' || c == 'ю' || c == 'Ю' || c == 'и' || c == 'И' || c == 'о'
        || c == 'О'
}

/// Classifies a character against the fixed Latin/Cyrillic vowel set.
#[verifier::when_used_as_spec(is_vowel_spec)]
pub fn is_vowel(c: char) -> (r: bool)
    ensures
        r == is_vowel_spec(c),
{
    c == 'a' || c == 'A' || c == 'e' || c == 'E' || c == 'i' || c == 'I' || c == 'o' || c == 'O'
        || c == 'u' || c == 'U' || c == 'а' || c == 'А' || c == 'э' || c == 'Э' || c == 'ы'
        || c == 'Ы' || c == 'у' || c == 'У' || c == 'я' || c == 'Я' || c == 'е' || c == 'Е'
        || c == 'ё' || c == 'Ё' || c == 'ю' || c == 'Ю' || c == 'и' || c == 'И' || c == 'о'
        || c == 'О'
}

/// True iff some character of `s` is a vowel.
pub open spec fn has_vowel(s: Seq<char>) -> bool {
    exists|i: int| 0 <= i < s.len() && is_vowel_spec(s[i])
}

/// Checks whether the text contains at least one vowel.
pub fn contains_vowels(text: &str) -> (r: bool)
    ensures
        r == has_vowel(text@),
{
    let n = text.unicode_len();
    let mut i: usize = 0;
    while i < n
        invariant
            i <= n,
            n == text@.len(),
            forall|j: int| 0 <= j < i ==> !is_vowel_spec(text@[j]),
        decreases n - i,
    {
        if is_vowel(text.get_char(i)) {
            return true;
        }
        i = i + 1;
    }
    false
}

/// The contribution of one character to a fingerprint: its lowercase form if
/// it is uppercase, otherwise the character itself.
pub open spec fn fp_char(c: char) -> char {
    if char_is_upper(c) {
        lower_char_of(c)
    } else {
        c
    }
}

/// The fingerprint of a word: its characters with every vowel removed and
/// every remaining character lower-cased.
pub open spec fn fingerprint_spec(s: Seq<char>) -> Seq<char>
    decreases s.len(),
{
    if s.len() == 0 {
        Seq::empty()
    } else {
        let rest = fingerprint_spec(s.drop_last());
        if is_vowel_spec(s.last()) {
            rest
        } else {
            rest + seq![fp_char(s.last())]
        }
    }
}

/// Whether the first character of the word is uppercase.
pub open spec fn leading_cap_spec(s: Seq<char>) -> bool {
    s.len() > 0 && char_is_upper(s[0])
}

/// The number of uppercase characters at positions past the first.
pub open spec fn trailing_caps_spec(s: Seq<char>) -> nat
    decreases s.len(),
{
    if s.len() <= 1 {
        0
    } else {
        trailing_caps_spec(s.drop_last()) + (if char_is_upper(s.last()) {
            1nat
        } else {
            0nat
        })
    }
}

/// Caps a count at the largest value a byte can hold.
pub open spec fn cap_at_255(n: nat) -> nat {
    if n > 255 {
        255
    } else {
        n
    }
}

/// A word may be indexed by the dictionary iff its reduction is pure
/// lowercase and its fingerprint is nonempty.
pub open spec fn indexable_spec(s: Seq<char>) -> bool {
    !leading_cap_spec(s) && trailing_caps_spec(s) == 0 && fingerprint_spec(s).len() > 0
}

/// A word's vowel-free, lower-cased skeleton, together with the
/// capitalization metadata needed to restore its written form.
#[derive(Debug, PartialEq)]
pub struct Reduction {
    /// The vowel-free, lower-cased fingerprint.
    pub fingerprint: String,
    /// Whether the first character was uppercase.
    pub leading_capital: bool,
    /// How many characters past the first were uppercase, capped at 255.
    pub trailing_capitals: u8,
}

impl Reduction {
    /// Bundles the three pieces of a reduction.
    pub fn new(fingerprint: String, leading_capital: bool, trailing_capitals: u8) -> (r: Self)
        ensures
            r.fingerprint == fingerprint,
            r.leading_capital == leading_capital,
            r.trailing_capitals == trailing_capitals,
    {
        Reduction { fingerprint, leading_capital, trailing_capitals }
    }

    /// True iff the source word carried no capitalization at all.
    pub open spec fn is_lowercase_spec(&self) -> bool {
        !self.leading_capital && self.trailing_capitals == 0
    }

    /// Whether the source word carried no capitalization at all.
    #[verifier::when_used_as_spec(is_lowercase_spec)]
    pub fn is_lowercase(&self) -> (r: bool)
        ensures
            r == self.is_lowercase_spec(),
    {
        !self.leading_capital && self.trailing_capitals == 0
    }

    /// The reduction itself if it is pure lowercase, else nothing.
    pub fn take_if_lowercase(self) -> (r: Option<Self>)
        ensures
            r == if self.is_lowercase_spec() {
                Some(self)
            } else {
                None::<Self>
            },
    {
        if self.is_lowercase() {
            Some(self)
        } else {
            None
        }
    }

    /// Derives the reduction of a word: walks the characters, recording
    /// capitalization and accumulating the fingerprint.  The count of
    /// trailing capitals saturates at 255 rather than overflow its byte.
    pub fn from(word: &str) -> (r: Reduction)
        ensures
            r.fingerprint@ == fingerprint_spec(word@),
            r.leading_capital == leading_cap_spec(word@),
            r.trailing_capitals as nat == cap_at_255(trailing_caps_spec(word@)),
            r.is_lowercase_spec() == (!leading_cap_spec(word@) && trailing_caps_spec(word@)
                == 0),
    {
        let n = word.unicode_len();
        let mut fingerprint = String::new();
        let mut leading_capital = false;
        let mut trailing_capitals: u8 = 0;
        let mut i: usize = 0;
        proof {
            assert(word@.take(0) =~= Seq::<char>::empty());
        }
        while i < n
            invariant
                i <= n,
                n == word@.len(),
                fingerprint@ == fingerprint_spec(word@.take(i as int)),
                leading_capital == leading_cap_spec(word@.take(i as int)),
                trailing_capitals as nat == cap_at_255(trailing_caps_spec(word@.take(i as int))),
            decreases n - i,
        {
            let ghost pre = word@.take(i as int);
            let c = word.get_char(i);
            proof {
                assert(word@.take(i + 1).drop_last() =~= pre);
                assert(word@.take(i + 1).last() == c);
                if i > 0 {
                    assert(word@.take(i + 1)[0] == word@.take(i as int)[0]);
                }
            }
            if is_upper(c) {
                if i == 0 {
                    leading_capital = true;
                } else if trailing_capitals < 255 {
                    trailing_capitals = trailing_capitals + 1;
                }
                if !is_vowel(c) {
                    push_char(&mut fingerprint, lower_char(c));
                }
            } else if !is_vowel(c) {
                push_char(&mut fingerprint, c);
            }
            proof {
                if is_vowel_spec(c) {
                    assert(fingerprint@ =~= fingerprint_spec(word@.take(i + 1)));
                } else {
                    assert(fingerprint@ =~= fingerprint_spec(word@.take(i + 1)));
                }
            }
            i = i + 1;
        }
        proof {
            assert(word@.take(n as int) =~= word@);
        }
        Reduction { fingerprint, leading_capital, trailing_capitals }
    }
}

/// The escape marker: a backslash at the start of a token marks it as
/// literal text.
pub open spec fn escape_marker() -> char {
    '\\'
}

/// Whether the character at position `i` may still belong to a token's
/// prefix: alphabetic anywhere, and the escape marker only at the start.
pub open spec fn split_allowed(s: Seq<char>, i: int) -> bool {
    if i == 0 {
        s[0] == '\\' || char_is_alpha(s[0])
    } else {
        char_is_alpha(s[i]) && s[i] != '\\'
    }
}

/// The first position at or after `i` where the prefix rule fails, or the
/// end of the token.
pub open spec fn split_point_rec(s: Seq<char>, i: int) -> int
    decreases s.len() - i,
{
    if i < 0 || i >= s.len() {
        s.len() as int
    } else if split_allowed(s, i) {
        split_point_rec(s, i + 1)
    } else {
        i
    }
}

/// Where a token splits into its prefix and its verbatim suffix.
pub open spec fn split_point(s: Seq<char>) -> int {
    split_point_rec(s, 0)
}

/// The leading run that is a candidate for substitution.
pub open spec fn prefix_of(s: Seq<char>) -> Seq<char> {
    s.take(split_point(s))
}

/// Everything after the prefix, passed through untouched.
pub open spec fn suffix_of(s: Seq<char>) -> Seq<char> {
    s.skip(split_point(s))
}

/// The split point lies in bounds; the prefix rule holds strictly before it
/// and fails at it.
pub proof fn lemma_split_props(s: Seq<char>)
    ensures
        0 <= split_point(s) <= s.len(),
        forall|j: int| 0 <= j < split_point(s) ==> split_allowed(s, j),
        split_point(s) < s.len() ==> !split_allowed(s, split_point(s)),
{
    lemma_split_rec_props(s, 0);
}

proof fn lemma_split_rec_props(s: Seq<char>, i: int)
    requires
        0 <= i <= s.len(),
    ensures
        i <= split_point_rec(s, i) <= s.len(),
        forall|j: int| i <= j < split_point_rec(s, i) ==> split_allowed(s, j),
        split_point_rec(s, i) < s.len() ==> !split_allowed(s, split_point_rec(s, i)),
    decreases s.len() - i,
{
    if i < s.len() && split_allowed(s, i) {
        lemma_split_rec_props(s, i + 1);
    }
}

/// If the prefix rule holds up to `k` and fails at `k` (or `k` is the end),
/// then the token splits exactly at `k`.
pub proof fn lemma_split_point_is(s: Seq<char>, k: int)
    requires
        0 <= k <= s.len(),
        forall|j: int| 0 <= j < k ==> split_allowed(s, j),
        k < s.len() ==> !split_allowed(s, k),
    ensures
        split_point(s) == k,
{
    lemma_split_rec_value(s, 0, k);
}

proof fn lemma_split_rec_value(s: Seq<char>, i: int, k: int)
    requires
        0 <= i <= k <= s.len(),
        forall|j: int| i <= j < k ==> split_allowed(s, j),
        k < s.len() ==> !split_allowed(s, k),
    ensures
        split_point_rec(s, i) == k,
    decreases k - i,
{
    if i < k {
        lemma_split_rec_value(s, i + 1, k);
    }
}

/// A token is its prefix followed by its suffix.
pub proof fn lemma_prefix_suffix(s: Seq<char>)
    ensures
        prefix_of(s) + suffix_of(s) == s,
{
    lemma_split_props(s);
    assert(prefix_of(s) + suffix_of(s) =~= s);
}

/// A transient view of one token, split into the leading alphabetic run and
/// the rest.
#[derive(Debug, PartialEq)]
pub struct SplitWord {
    /// The leading run: alphabetic characters, with the escape marker
    /// admitted at the first position only.
    pub prefix: String,
    /// The remainder, carried through verbatim.
    pub suffix: String,
}

fn allowed_at(word: &str, pos: usize) -> (r: bool)
    requires
        pos < word@.len(),
    ensures
        r == split_allowed(word@, pos as int),
{
    let c = word.get_char(pos);
    if pos == 0 {
        c == '\\' || is_alpha(c)
    } else {
        c != '\\' && is_alpha(c)
    }
}

impl SplitWord {
    /// Splits a token at the first position where the prefix rule fails.
    pub fn from(word: &str) -> (r: SplitWord)
        ensures
            r.prefix@ == prefix_of(word@),
            r.suffix@ == suffix_of(word@),
    {
        let n = word.unicode_len();
        let mut pos: usize = 0;
        while pos < n && allowed_at(word, pos)
            invariant
                pos <= n,
                n == word@.len(),
                forall|j: int| 0 <= j < pos ==> split_allowed(word@, j),
            decreases n - pos,
        {
            pos = pos + 1;
        }
        proof {
            lemma_split_point_is(word@, pos as int);
        }
        let prefix = String::from_str(word.substring_char(0, pos));
        let suffix = String::from_str(word.substring_char(pos, n));
        proof {
            assert(prefix@ =~= prefix_of(word@));
            assert(suffix@ =~= suffix_of(word@));
        }
        SplitWord { prefix, suffix }
    }
}

/// Whether a character separates encoded words on a line: the space, plus
/// the left-to-right mark for compatibility with bidirectional text tools.
pub open spec fn is_sep(c: char) -> bool {
    c == ' ' || c == '\u{200E}'
}

/// One step of parsing a compressed line: `pending` counts the separators
/// seen since the last word, `buf` holds the body being accumulated.
pub open spec fn parse_rec(s: Seq<char>, pending: nat, buf: Seq<char>) -> Seq<(nat, Seq<char>)>
    decreases s.len(),
{
    if s.len() == 0 {
        if buf.len() > 0 {
            seq![(cap_at_255(pending), buf)]
        } else {
            Seq::empty()
        }
    } else if is_sep(s[0]) {
        if buf.len() > 0 {
            seq![(cap_at_255(pending), buf)] + parse_rec(s.skip(1), 0, Seq::empty())
        } else {
            parse_rec(s.skip(1), pending + 1, buf)
        }
    } else {
        parse_rec(s.skip(1), pending, buf.push(s[0]))
    }
}

/// The encoded words of a compressed line: each body with the count of
/// separator characters that preceded it beyond the single word separator.
pub open spec fn parse_line_spec(s: Seq<char>) -> Seq<(nat, Seq<char>)> {
    parse_rec(s, 0, Seq::empty())
}

/// The unit the line codec assembles into output: `leading_spaces` literal
/// spaces, then `body`.
#[derive(Debug, PartialEq)]
pub struct EncodedWord {
    /// How many spaces stand before the body, beyond the one word
    /// separator.
    pub leading_spaces: u8,
    /// The text of the encoded word; never empty.
    pub body: String,
}

impl View for EncodedWord {
    type V = (nat, Seq<char>);

    open spec fn view(&self) -> (nat, Seq<char>) {
        (self.leading_spaces as nat, self.body@)
    }
}

impl DeepView for EncodedWord {
    type V = (nat, Seq<char>);

    open spec fn deep_view(&self) -> (nat, Seq<char>) {
        self.view()
    }
}

impl EncodedWord {
    /// Bundles a space count with a body, which must be nonempty.
    pub fn new(leading_spaces: u8, body: String) -> (r: Self)
        requires
            body@.len() > 0,
        ensures
            r.leading_spaces == leading_spaces,
            r.body == body,
    {
        EncodedWord { leading_spaces, body }
    }

    /// Parses a compressed line into its encoded words, counting runs of
    /// separator characters.  A run longer than 255 saturates the byte-sized
    /// count; such a run never occurs in text produced by compression.
    pub fn parse_line(line: &str) -> (r: Vec<EncodedWord>)
        ensures
            r.deep_view() == parse_line_spec(line@),
            forall|i: int| 0 <= i < r@.len() ==> (#[trigger] r@[i]).body@.len() > 0,
    {
        let n = line.unicode_len();
        let mut out: Vec<EncodedWord> = Vec::new();
        let mut buf = String::new();
        let mut pending: u8 = 0;
        let ghost mut pending_spec: nat = 0nat;
        let mut i: usize = 0;
        proof {
            assert(line@.skip(0) =~= line@);
        }
        while i < n
            invariant
                i <= n,
                n == line@.len(),
                pending as nat == cap_at_255(pending_spec),
                parse_line_spec(line@) == out.deep_view() + parse_rec(
                    line@.skip(i as int),
                    pending_spec,
                    buf@,
                ),
                forall|j: int| 0 <= j < out@.len() ==> (#[trigger] out@[j]).body@.len() > 0,
            decreases n - i,
        {
            let ghost rem = line@.skip(i as int);
            let ghost old_out = out.deep_view();
            let ghost old_buf = buf@;
            let ghost old_pend = pending_spec;
            let c = line.get_char(i);
            proof {
                crate::strutil::lemma_skip_skip(line@, i as int);
                assert(rem[0] == line@[i as int]);
            }
            if c == ' ' || c == '\u{200E}' {
                if buf.unicode_len() > 0 {
                    out.push(EncodedWord { leading_spaces: pending, body: buf });
                    buf = String::new();
                    pending = 0;
                    proof {
                        pending_spec = 0nat;
                        assert(out.deep_view() =~~= old_out.push((cap_at_255(old_pend), old_buf)));
                    }
                } else {
                    if pending < 255 {
                        pending = pending + 1;
                    }
                    proof {
                        pending_spec = pending_spec + 1;
                        assert(buf@ =~= Seq::<char>::empty());
                    }
                }
            } else {
                push_char(&mut buf, c);
            }
            proof {
                assert(out.deep_view() + parse_rec(line@.skip(i + 1), pending_spec, buf@)
                    =~~= old_out + parse_rec(rem, old_pend, old_buf));
            }
            i = i + 1;
        }
        let ghost end_out = out.deep_view();
        let ghost last_buf = buf@;
        if buf.unicode_len() > 0 {
            out.push(EncodedWord { leading_spaces: pending, body: buf });
            proof {
                assert(out.deep_view() =~~= end_out.push((cap_at_255(pending_spec), last_buf)));
            }
        }
        proof {
            assert(line@.skip(n as int) =~= Seq::<char>::empty());
            assert(out.deep_view() =~~= parse_line_spec(line@));
        }
        out
    }
}

/// Which of the word-compaction rules applies to a token.
#[derive(Debug)]
pub enum CompactionRule {
    /// The lower-cased prefix is in the dictionary: substitute its
    /// fingerprint, recapitalized.
    InDict,
    /// Not in the dictionary, and the prefix carries a vowel: safe to pass
    /// through, since substitutions are always vowel-free.
    NotInDictWithVowels,
    /// Not in the dictionary, all consonants, and the fingerprint is not a
    /// key at all: safe to pass through.
    NoFingerprintInDict,
    /// Not in the dictionary, all consonants, but the fingerprint is a key
    /// for other words: must be escaped, or expansion would substitute the
    /// wrong word.
    Conflict,
    /// The token already starts with the escape marker: double it.
    LeadingEscape,
}

/// The capitalization restoration rule: all capitals when a capital stood
/// past the first position, a leading capital when only the first position
/// was capital, otherwise untouched.
pub open spec fn restore_caps_spec(w: Seq<char>, leading: bool, nonleading: bool) -> Seq<char> {
    if nonleading {
        upper_str_of(w)
    } else if leading {
        upper_char_of(w[0]) + w.skip(1)
    } else {
        w
    }
}

/// Restores the capitalization of a lower-case word from the two recorded
/// flags.
pub fn restore_capitalisation(
    lowercase_word: String,
    leading_capital: bool,
    nonleading_capital: bool,
) -> (r: String)
    requires
        leading_capital ==> lowercase_word@.len() > 0,
    ensures
        r@ == restore_caps_spec(lowercase_word@, leading_capital, nonleading_capital),
        lowercase_word@.len() > 0 ==> r@.len() > 0,
{
    if nonleading_capital {
        upper_str(lowercase_word.as_str())
    } else if leading_capital {
        let first = lowercase_word.as_str().get_char(0);
        let n = lowercase_word.as_str().unicode_len();
        let mut out = upper_char(first);
        let rest = lowercase_word.as_str().substring_char(1, n);
        out.append(rest);
        proof {
            assert(out@ =~= restore_caps_spec(lowercase_word@, leading_capital,
            nonleading_capital));
        }
        out
    } else {
        lowercase_word
    }
}

/// The rule that compression applies to a token, against a dictionary.
pub open spec fn compress_rule(ps: Seq<(Seq<char>, Seq<Seq<char>>)>, w: Seq<char>) -> CompactionRule {
    let p = prefix_of(w);
    if p.len() > 0 && p[0] == '\\' {
        CompactionRule::LeadingEscape
    } else if lookup_position(ps, fingerprint_spec(p), lower_str_of(p)) is Some {
        CompactionRule::InDict
    } else if has_vowel(p) {
        CompactionRule::NotInDictWithVowels
    } else if !has_fp(ps, fingerprint_spec(p)) {
        CompactionRule::NoFingerprintInDict
    } else {
        CompactionRule::Conflict
    }
}

/// What compressing one token yields: the count of extra leading spaces and
/// the body.
pub open spec fn compress_word_spec(ps: Seq<(Seq<char>, Seq<Seq<char>>)>, w: Seq<char>) -> (
    nat,
    Seq<char>,
) {
    let p = prefix_of(w);
    let suf = suffix_of(w);
    match compress_rule(ps, w) {
        CompactionRule::LeadingEscape => (0nat, seq!['\\'] + p + suf),
        CompactionRule::InDict => (
            lookup_position(ps, fingerprint_spec(p), lower_str_of(p))->Some_0 as nat,
            restore_caps_spec(
                fingerprint_spec(p),
                leading_cap_spec(p),
                trailing_caps_spec(p) != 0,
            ) + suf,
        ),
        CompactionRule::NotInDictWithVowels => (0nat, p + suf),
        CompactionRule::NoFingerprintInDict => (0nat, p + suf),
        CompactionRule::Conflict => (0nat, seq!['\\'] + p + suf),
    }
}

/// Compresses one token against the dictionary, per the compaction rules.
pub fn compress_word(dict: &Dict, word: &str) -> (r: EncodedWord)
    requires
        dict.wf(),
        word@.len() > 0,
    ensures
        r@ == compress_word_spec(dict.pairs(), word@),
        r.body@.len() > 0,
{
    let ghost ps = dict.pairs();
    let ghost w = word@;
    let split = SplitWord::from(word);
    proof {
        lemma_split_props(w);
        lemma_prefix_suffix(w);
    }
    let p_len = split.prefix.as_str().unicode_len();
    let is_escape = p_len > 0 && split.prefix.as_str().get_char(0) == '\\';
    if is_escape {
        let mut body = String::from_str("\\");
        body.append(split.prefix.as_str());
        body.append(split.suffix.as_str());
        proof {
            reveal_strlit("\\");
            assert(body@ =~= seq!['\\'] + prefix_of(w) + suffix_of(w));
        }
        EncodedWord { leading_spaces: 0, body }
    } else {
        let reduction = Reduction::from(split.prefix.as_str());
        let lowercase_prefix = lower_str(split.prefix.as_str());
        match dict.position(reduction.fingerprint.as_str(), lowercase_prefix.as_str()) {
            Some(position) => {
                let ghost p = prefix_of(w);
                let ghost fp = fingerprint_spec(p);
                let ghost low = lower_str_of(p);
                let ghost g = group_of(ps, fp);
                proof {
                    let gi = fp_idx(ps, fp);
                    assert(0 <= gi < ps.len() && ps[gi].0 == fp);
                    assert(sorted_strict(ps[gi].1));
                    lemma_word_index(g, position as int);
                    assert(lookup_position(ps, fp, low) == Some(position as int));
                    assert(fp.len() > 0) by {
                        assert(ps[gi].0.len() > 0);
                    }
                }
                let body0 = restore_capitalisation(
                    reduction.fingerprint,
                    reduction.leading_capital,
                    reduction.trailing_capitals != 0,
                );
                let mut body = body0;
                body.append(split.suffix.as_str());
                proof {
                    assert(body@ =~= restore_caps_spec(
                        fp,
                        leading_cap_spec(p),
                        trailing_caps_spec(p) != 0,
                    ) + suffix_of(w));
                }
                EncodedWord { leading_spaces: position, body }
            },
            None => {
                if contains_vowels(split.prefix.as_str()) {
                    let mut body = split.prefix;
                    body.append(split.suffix.as_str());
                    proof {
                        assert(body@ =~= prefix_of(w) + suffix_of(w));
                        assert(body@.len() > 0);
                    }
                    EncodedWord { leading_spaces: 0, body }
                } else if !dict.contains_fingerprint(reduction.fingerprint.as_str()) {
                    let mut body = split.prefix;
                    body.append(split.suffix.as_str());
                    proof {
                        assert(body@ =~= prefix_of(w) + suffix_of(w));
                        assert(prefix_of(w) + suffix_of(w) == w);
                    }
                    EncodedWord { leading_spaces: 0, body }
                } else {
                    let mut body = String::from_str("\\");
                    body.append(split.prefix.as_str());
                    body.append(split.suffix.as_str());
                    proof {
                        reveal_strlit("\\");
                        assert(body@ =~= seq!['\\'] + prefix_of(w) + suffix_of(w));
                    }
                    EncodedWord { leading_spaces: 0, body }
                }
            },
        }
    }
}

/// What expanding one encoded word yields: the restored token, or the
/// message of the resolution failure.
pub open spec fn expand_word_spec(
    ps: Seq<(Seq<char>, Seq<Seq<char>>)>,
    spaces: nat,
    body: Seq<char>,
) -> Result<Seq<char>, Seq<char>> {
    let p = prefix_of(body);
    let suf = suffix_of(body);
    if p.len() == 0 {
        Ok(body)
    } else if p[0] == '\\' {
        Ok(p.skip(1) + suf)
    } else if has_vowel(p) {
        Ok(p + suf)
    } else {
        let low = lower_str_of(p);
        if !has_fp(ps, low) {
            Ok(p + suf)
        } else if spaces < group_of(ps, low).len() {
            Ok(
                restore_caps_spec(
                    group_of(ps, low)[spaces as int],
                    char_is_upper(p[0]),
                    p.len() > 1 && char_is_upper(p[1]),
                ) + suf,
            )
        } else {
            Err(resolve_msg(spaces as int, low))
        }
    }
}

/// Expands one encoded word against the dictionary: escaped words lose
/// their marker, vowel-bearing and unknown prefixes pass through, and
/// all-consonant prefixes with a known fingerprint resolve to the collated
/// word at the encoded position.
pub fn expand_word(dict: &Dict, word: EncodedWord) -> (r: Result<String, WordResolveError>)
    requires
        dict.wf(),
    ensures
        match r {
            Ok(s) => expand_word_spec(dict.pairs(), word.leading_spaces as nat, word.body@)
                == Ok::<_, Seq<char>>(s@),
            Err(e) => expand_word_spec(dict.pairs(), word.leading_spaces as nat, word.body@)
                == Err::<Seq<char>, _>(e.0@),
        },
{
    let ghost ps = dict.pairs();
    let ghost b = word.body@;
    let split = SplitWord::from(word.body.as_str());
    proof {
        lemma_split_props(b);
        lemma_prefix_suffix(b);
    }
    let p_len = split.prefix.as_str().unicode_len();
    if p_len == 0 {
        return Ok(word.body);
    }
    let first = split.prefix.as_str().get_char(0);
    if first == '\\' {
        let stripped = split.prefix.as_str().substring_char(1, p_len);
        let mut out = String::from_str(stripped);
        out.append(split.suffix.as_str());
        proof {
            assert(out@ =~= prefix_of(b).skip(1) + suffix_of(b));
        }
        return Ok(out);
    }
    let leading_capital = is_upper(first);
    let nonleading_capital = if p_len > 1 {
        is_upper(split.prefix.as_str().get_char(1))
    } else {
        false
    };
    if contains_vowels(split.prefix.as_str()) {
        let mut out = split.prefix;
        out.append(split.suffix.as_str());
        proof {
            assert(out@ =~= prefix_of(b) + suffix_of(b));
        }
        return Ok(out);
    }
    let lowercase_word = lower_str(split.prefix.as_str());
    match dict.resolve(lowercase_word.as_str(), word.leading_spaces) {
        Err(e) => Err(e),
        Ok(None) => {
            let mut out = split.prefix;
            out.append(split.suffix.as_str());
            proof {
                assert(out@ =~= prefix_of(b) + suffix_of(b));
            }
            Ok(out)
        },
        Ok(Some(resolved)) => {
            let ghost low = lower_str_of(prefix_of(b));
            proof {
                let gi = fp_idx(ps, low);
                assert(0 <= gi < ps.len() && ps[gi].0 == low);
                assert(group_of(ps, low)[word.leading_spaces as int].len() > 0) by {
                    assert(ps[gi].1[word.leading_spaces as int].len() > 0);
                }
            }
            let restored = restore_capitalisation(
                resolved.clone(),
                leading_capital,
                nonleading_capital,
            );
            let mut out = restored;
            out.append(split.suffix.as_str());
            proof {
                assert(out@ =~= restore_caps_spec(
                    group_of(ps, low)[word.leading_spaces as int],
                    char_is_upper(prefix_of(b)[0]),
                    prefix_of(b).len() > 1 && char_is_upper(prefix_of(b)[1]),
                ) + suffix_of(b));
            }
            Ok(out)
        },
    }
}

/// `n` space characters.
pub open spec fn spaces_seq(n: nat) -> Seq<char>
    decreases n,
{
    if n == 0 {
        Seq::empty()
    } else {
        spaces_seq((n - 1) as nat).push(' ')
    }
}

/// The text that a sequence of encoded words renders to, starting at word
/// `i`: one separating space between words, plus each word's extra leading
/// spaces before its body.
pub open spec fn render_encoded(ws: Seq<(nat, Seq<char>)>, i: int) -> Seq<char>
    decreases ws.len() - i,
{
    if i < 0 || i >= ws.len() {
        Seq::empty()
    } else {
        (if i > 0 {
            seq![' ']
        } else {
            Seq::empty()
        }) + spaces_seq(ws[i].0) + ws[i].1 + render_encoded(ws, i + 1)
    }
}

/// The tokens of a line, each compressed against the dictionary.
pub open spec fn compressed_words(ps: Seq<(Seq<char>, Seq<Seq<char>>)>, s: Seq<char>) -> Seq<
    (nat, Seq<char>),
> {
    crate::strutil::tokens_of(s).map(|i: int, t: Seq<char>| compress_word_spec(ps, t))
}

/// What compressing a whole line yields: every whitespace-delimited token
/// compressed, the results joined with exactly one space plus each word's
/// position spaces.
pub open spec fn compress_line_spec(ps: Seq<(Seq<char>, Seq<Seq<char>>)>, s: Seq<char>) -> Seq<
    char,
> {
    render_encoded(compressed_words(ps, s), 0)
}

/// Compresses a line of text against the dictionary, token by token.
pub fn compress_line(dict: &Dict, line: &str) -> (r: String)
    requires
        dict.wf(),
    ensures
        r@ == compress_line_spec(dict.pairs(), line@),
{
    let ghost ps = dict.pairs();
    let tokens = crate::strutil::split_whitespace_tokens(line);
    let ghost cs = compressed_words(ps, line@);
    let mut buf = String::new();
    let mut i: usize = 0;
    proof {
        assert(cs.len() == tokens@.len());
    }
    while i < tokens.len()
        invariant
            i <= tokens@.len(),
            dict.wf(),
            ps == dict.pairs(),
            tokens.deep_view() == crate::strutil::tokens_of(line@),
            cs == compressed_words(ps, line@),
            cs.len() == tokens@.len(),
            forall|j: int| 0 <= j < tokens@.len() ==> (#[trigger] tokens@[j])@.len() > 0,
            render_encoded(cs, 0) == buf@ + render_encoded(cs, i as int),
        decreases tokens@.len() - i,
    {
        proof {
            assert(tokens@[i as int]@ == crate::strutil::tokens_of(line@)[i as int]);
            assert(cs[i as int] == compress_word_spec(
                ps,
                crate::strutil::tokens_of(line@)[i as int],
            ));
        }
        let ghost before = buf@;
        let ew = compress_word(dict, tokens[i].as_str());
        if i > 0 {
            push_char(&mut buf, ' ');
        }
        let ghost with_sep = buf@;
        proof {
            assert(with_sep + spaces_seq(0) =~= with_sep);
        }
        let mut k: u8 = 0;
        while k < ew.leading_spaces
            invariant
                k <= ew.leading_spaces,
                buf@ == with_sep + spaces_seq(k as nat),
            decreases ew.leading_spaces - k,
        {
            push_char(&mut buf, ' ');
            proof {
                assert(buf@ =~= with_sep + spaces_seq((k + 1) as nat));
            }
            k = k + 1;
        }
        buf.append(ew.body.as_str());
        proof {
            assert(buf@ + render_encoded(cs, i + 1) =~= before + render_encoded(cs, i as int));
        }
        i = i + 1;
    }
    proof {
        assert(render_encoded(cs, tokens@.len() as int) =~= Seq::<char>::empty());
        assert(buf@ =~= render_encoded(cs, 0));
    }
    buf
}

/// The `Ok` text prefixed, the error untouched.
pub open spec fn prepend_result(p: Seq<char>, r: Result<Seq<char>, Seq<char>>) -> Result<
    Seq<char>,
    Seq<char>,
> {
    match r {
        Ok(rest) => Ok(p + rest),
        Err(m) => Err(m),
    }
}

/// What expanding the encoded words from `i` on yields: the expansions
/// joined by single spaces, or the first failure.
pub open spec fn expand_words_spec(
    ps: Seq<(Seq<char>, Seq<Seq<char>>)>,
    ws: Seq<(nat, Seq<char>)>,
    i: int,
) -> Result<Seq<char>, Seq<char>>
    decreases ws.len() - i,
{
    if i < 0 || i >= ws.len() {
        Ok(Seq::empty())
    } else {
        match expand_word_spec(ps, ws[i].0, ws[i].1) {
            Err(m) => Err(m),
            Ok(x) => match expand_words_spec(ps, ws, i + 1) {
                Err(m) => Err(m),
                Ok(rest) => Ok(
                    (if i > 0 {
                        seq![' ']
                    } else {
                        Seq::empty()
                    }) + x + rest,
                ),
            },
        }
    }
}

/// What expanding a whole line yields: the line parsed into encoded words,
/// each expanded, joined by single spaces; fails fast on the first word
/// that cannot be resolved.
pub open spec fn expand_line_spec(ps: Seq<(Seq<char>, Seq<Seq<char>>)>, s: Seq<char>) -> Result<
    Seq<char>,
    Seq<char>,
> {
    expand_words_spec(ps, parse_line_spec(s), 0)
}

/// Expands a line of compressed text against the dictionary, word by word,
/// returning the first resolution failure if any.
pub fn expand_line(dict: &Dict, line: &str) -> (r: Result<String, WordResolveError>)
    requires
        dict.wf(),
    ensures
        match r {
            Ok(s) => expand_line_spec(dict.pairs(), line@) == Ok::<_, Seq<char>>(s@),
            Err(e) => expand_line_spec(dict.pairs(), line@) == Err::<Seq<char>, _>(e.0@),
        },
{
    let ghost ps = dict.pairs();
    let words = EncodedWord::parse_line(line);
    let ghost ws = parse_line_spec(line@);
    let mut buf = String::new();
    let mut i: usize = 0;
    while i < words.len()
        invariant
            i <= ws.len(),
            dict.wf(),
            ps == dict.pairs(),
            words.deep_view() == ws,
            words@.len() == ws.len(),
            expand_line_spec(ps, line@) == prepend_result(
                buf@,
                expand_words_spec(ps, ws, i as int),
            ),
        decreases ws.len() - i,
    {
        proof {
            assert(words@[i as int]@ == ws[i as int]);
        }
        let ghost before = buf@;
        let word = EncodedWord {
            leading_spaces: words[i].leading_spaces,
            body: words[i].body.clone(),
        };
        match expand_word(dict, word) {
            Err(e) => {
                proof {
                    assert(expand_words_spec(ps, ws, i as int) == Err::<Seq<char>, Seq<char>>(
                        e.0@,
                    ));
                }
                return Err(e);
            },
            Ok(x) => {
                if i > 0 {
                    push_char(&mut buf, ' ');
                }
                buf.append(x.as_str());
                proof {
                    let next = expand_words_spec(ps, ws, i + 1);
                    if next is Ok {
                        assert(buf@ + next->Ok_0 =~= before + ((if i > 0 {
                            seq![' ']
                        } else {
                            Seq::<char>::empty()
                        }) + x@ + next->Ok_0));
                    }
                }
            },
        }
        i = i + 1;
    }
    proof {
        assert(expand_words_spec(ps, ws, ws.len() as int) == Ok::<Seq<char>, Seq<char>>(
            Seq::empty(),
        ));
        assert(buf@ + Seq::<char>::empty() =~= buf@);
    }
    Ok(buf)
}

/// A quasi-lossless Balkanoidal meta-lingual compressor: the word codec
/// lifted to lines, against a shared dictionary.
pub struct Balkanoid<'a> {
    dict: &'a Dict,
}

impl<'a> Balkanoid<'a> {
    /// The dictionary this codec works from.
    pub closed spec fn dict_pairs(&self) -> Seq<(Seq<char>, Seq<Seq<char>>)> {
        self.dict.pairs()
    }

    /// Binds a codec to a dictionary.
    pub fn new(dict: &'a Dict) -> (r: Self)
        ensures
            r.dict_pairs() == dict.pairs(),
            dict.wf() ==> r.valid(),
    {
        Balkanoid { dict }
    }
}

impl Codec for Balkanoid<'_> {
    type ExpandError = WordResolveError;

    /// Usable iff the dictionary satisfies its invariant.
    closed spec fn valid(&self) -> bool {
        self.dict.wf()
    }

    /// Compresses a line of text against the bound dictionary.
    fn compress_line(&self, line: &str) -> (r: String)
        ensures
            r@ == compress_line_spec(self.dict_pairs(), line@),
    {
        compress_line(self.dict, line)
    }

    /// Expands a line of compressed text against the bound dictionary.
    fn expand_line(&self, line: &str) -> (r: Result<String, WordResolveError>)
        ensures
            match r {
                Ok(s) => expand_line_spec(self.dict_pairs(), line@) == Ok::<_, Seq<char>>(s@),
                Err(e) => expand_line_spec(self.dict_pairs(), line@) == Err::<Seq<char>, _>(
                    e.0@,
                ),
            },
    {
        expand_line(self.dict, line)
    }
}

/// Round-trip safety for every token that compression does not substitute
/// and does not pass through as an unknown all-consonant fingerprint:
/// escape-led tokens, conflicting all-consonant words, vowel-bearing
/// literals and tokens without an alphabetic prefix all expand back to
/// exactly the original token.
pub proof fn lemma_compress_expand_word(ps: Seq<(Seq<char>, Seq<Seq<char>>)>, w: Seq<char>)
    requires
        dict_pairs_wf(ps),
        w.len() > 0,
        !(compress_rule(ps, w) is InDict),
        compress_rule(ps, w) is NoFingerprintInDict ==> prefix_of(w).len() == 0,
    ensures
        expand_word_spec(ps, compress_word_spec(ps, w).0, compress_word_spec(ps, w).1)
            == Ok::<Seq<char>, Seq<char>>(w),
{
    let p = prefix_of(w);
    let suf = suffix_of(w);
    lemma_split_props(w);
    lemma_prefix_suffix(w);
    match compress_rule(ps, w) {
        CompactionRule::LeadingEscape => {
            lemma_escaped_round_trip(ps, w);
        },
        CompactionRule::Conflict => {
            // an empty prefix has an empty fingerprint, which no entry
            // carries, so the prefix here is a nonempty alphabetic run
            assert(p.len() > 0) by {
                if p.len() == 0 {
                    assert(fingerprint_spec(p).len() == 0);
                    let gi = fp_idx(ps, fingerprint_spec(p));
                    assert(ps[gi].0.len() > 0);
                }
            }
            assert(p[0] != '\\');
            lemma_escaped_round_trip(ps, w);
        },
        CompactionRule::NotInDictWithVowels => {
            let body = compress_word_spec(ps, w).1;
            assert(body =~= w);
            assert(p[0] != '\\');
            assert(p.len() > 0) by {
                assert(is_vowel_spec(p[choose|i: int| 0 <= i < p.len() && is_vowel_spec(p[i])]));
            }
            assert(expand_word_spec(ps, 0, w) == Ok::<Seq<char>, Seq<char>>(p + suf));
        },
        CompactionRule::NoFingerprintInDict => {
            let body = compress_word_spec(ps, w).1;
            assert(body =~= w);
            assert(expand_word_spec(ps, 0, w) == Ok::<Seq<char>, Seq<char>>(w));
        },
        CompactionRule::InDict => {},
    }
}

/// Pushing the characters of a separator-free `body` through the parser
/// just accumulates them onto the pending buffer.
proof fn lemma_parse_body(body: Seq<char>, s: Seq<char>, pending: nat, buf: Seq<char>)
    requires
        forall|j: int| 0 <= j < body.len() ==> !is_sep(#[trigger] body[j]),
    ensures
        parse_rec(body + s, pending, buf) == parse_rec(s, pending, buf + body),
    decreases body.len(),
{
    if body.len() == 0 {
        assert(body + s =~= s);
        assert(buf + body =~= buf);
    } else {
        let c = body[0];
        assert((body + s)[0] == c);
        assert((body + s).skip(1) =~= body.skip(1) + s);
        assert forall|j: int| 0 <= j < body.skip(1).len() implies !is_sep(
            #[trigger] body.skip(1)[j],
        ) by {
            assert(body.skip(1)[j] == body[j + 1]);
        }
        lemma_parse_body(body.skip(1), s, pending, buf.push(c));
        assert(buf.push(c) + body.skip(1) =~= buf + body);
    }
}

/// The words a compressed line renders to are exactly the words its parse
/// recovers, provided every body is nonempty, free of separator characters,
/// and preceded by no extra spaces.
proof fn lemma_parse_render(ws: Seq<(nat, Seq<char>)>, i: int)
    requires
        0 <= i < ws.len(),
        forall|k: int| 0 <= k < ws.len() ==> (#[trigger] ws[k]).0 == 0,
        forall|k: int| 0 <= k < ws.len() ==> (#[trigger] ws[k]).1.len() > 0,
        forall|k: int, j: int|
            0 <= k < ws.len() && 0 <= j < ws[k].1.len() ==> !is_sep(#[trigger] ws[k].1[j]),
    ensures
        parse_rec(ws[i].1 + render_encoded(ws, i + 1), 0, Seq::empty()) == ws.skip(i),
    decreases ws.len() - i,
{
    let body = ws[i].1;
    let rest = render_encoded(ws, i + 1);
    lemma_parse_body(body, rest, 0, Seq::empty());
    assert(Seq::empty() + body =~= body);
    if i + 1 == ws.len() {
        assert(rest =~= Seq::<char>::empty());
        assert(parse_rec(rest, 0, body) == seq![(cap_at_255(0), body)]);
        assert(ws.skip(i) =~= seq![(0nat, body)]);
    } else {
        let tail = ws[i + 1].1 + render_encoded(ws, i + 2);
        assert(spaces_seq(ws[i + 1].0) =~= Seq::<char>::empty());
        assert(rest =~= seq![' '] + tail);
        assert(rest[0] == ' ');
        assert(is_sep(rest[0]));
        assert(rest.skip(1) =~= tail);
        lemma_parse_render(ws, i + 1);
        assert(parse_rec(rest, 0, body) == seq![(cap_at_255(0), body)] + parse_rec(
            tail,
            0,
            Seq::empty(),
        ));
        assert(seq![(cap_at_255(0), body)] + ws.skip(i + 1) =~= ws.skip(i));
    }
}

/// The tokens of a line, rejoined by single spaces, starting from token
/// `i`: what a round trip through the codec restores a line to.
pub open spec fn space_join(ts: Seq<Seq<char>>, i: int) -> Seq<char>
    decreases ts.len() - i,
{
    if i < 0 || i >= ts.len() {
        Seq::empty()
    } else {
        (if i > 0 {
            seq![' ']
        } else {
            Seq::empty()
        }) + ts[i] + space_join(ts, i + 1)
    }
}

/// Expanding a list of encoded words whose expansions are the given tokens
/// yields those tokens, rejoined by single spaces.
proof fn lemma_expand_words_join(
    ps: Seq<(Seq<char>, Seq<Seq<char>>)>,
    ws: Seq<(nat, Seq<char>)>,
    ts: Seq<Seq<char>>,
    i: int,
)
    requires
        0 <= i <= ws.len(),
        ws.len() == ts.len(),
        forall|k: int|
            0 <= k < ws.len() ==> expand_word_spec(ps, (#[trigger] ws[k]).0, ws[k].1)
                == Ok::<Seq<char>, Seq<char>>(ts[k]),
    ensures
        expand_words_spec(ps, ws, i) == Ok::<Seq<char>, Seq<char>>(space_join(ts, i)),
    decreases ws.len() - i,
{
    if i < ws.len() {
        lemma_expand_words_join(ps, ws, ts, i + 1);
    }
}

/// Round-trip at line level: on a line none of whose tokens is substituted
/// from the dictionary or passed through as an unknown all-consonant
/// fingerprint, and whose tokens hold no separator characters, expansion
/// undoes compression exactly, up to the collapse of inter-token whitespace
/// into single spaces that compression performs.
pub proof fn lemma_compress_expand_line(ps: Seq<(Seq<char>, Seq<Seq<char>>)>, line: Seq<char>)
    requires
        dict_pairs_wf(ps),
        forall|k: int|
            0 <= k < crate::strutil::tokens_of(line).len() ==> !(compress_rule(
                ps,
                #[trigger] crate::strutil::tokens_of(line)[k],
            ) is InDict),
        forall|k: int|
            0 <= k < crate::strutil::tokens_of(line).len() ==> (compress_rule(
                ps,
                #[trigger] crate::strutil::tokens_of(line)[k],
            ) is NoFingerprintInDict ==> prefix_of(crate::strutil::tokens_of(line)[k]).len()
                == 0),
        forall|k: int, j: int|
            0 <= k < crate::strutil::tokens_of(line).len() && 0 <= j < crate::strutil::tokens_of(
                line,
            )[k].len() ==> !is_sep(#[trigger] crate::strutil::tokens_of(line)[k][j]),
    ensures
        expand_line_spec(ps, compress_line_spec(ps, line)) == Ok::<Seq<char>, Seq<char>>(
            space_join(crate::strutil::tokens_of(line), 0),
        ),
{
    let ts = crate::strutil::tokens_of(line);
    crate::strutil::lemma_tokens_nonempty(line);
    let cs = compressed_words(ps, line);
    assert(cs.len() == ts.len());
    // each compressed word keeps a zero space count and a nonempty,
    // separator-free body, and expands back to its token
    assert forall|k: int| 0 <= k < cs.len() implies (#[trigger] cs[k]).0 == 0 && cs[k].1.len() > 0
        && expand_word_spec(ps, cs[k].0, cs[k].1) == Ok::<Seq<char>, Seq<char>>(ts[k]) by {
        let t = ts[k];
        assert(cs[k] == compress_word_spec(ps, t));
        lemma_compress_expand_word(ps, t);
        lemma_split_props(t);
        lemma_prefix_suffix(t);
        match compress_rule(ps, t) {
            CompactionRule::LeadingEscape => {},
            CompactionRule::Conflict => {},
            CompactionRule::NotInDictWithVowels => {},
            CompactionRule::NoFingerprintInDict => {},
            CompactionRule::InDict => {},
        }
    }
    assert forall|k: int, j: int| 0 <= k < cs.len() && 0 <= j < cs[k].1.len() implies !is_sep(
        #[trigger] cs[k].1[j],
    ) by {
        let t = ts[k];
        assert(cs[k] == compress_word_spec(ps, t));
        lemma_prefix_suffix(t);
        match compress_rule(ps, t) {
            CompactionRule::LeadingEscape => {
                assert(cs[k].1 =~= seq!['\\'] + t);
                if j > 0 {
                    assert(cs[k].1[j] == t[j - 1]);
                }
            },
            CompactionRule::Conflict => {
                assert(cs[k].1 =~= seq!['\\'] + t);
                if j > 0 {
                    assert(cs[k].1[j] == t[j - 1]);
                }
            },
            CompactionRule::NotInDictWithVowels => {
                assert(cs[k].1 =~= t);
            },
            CompactionRule::NoFingerprintInDict => {
                assert(cs[k].1 =~= t);
            },
            CompactionRule::InDict => {},
        }
    }
    if ts.len() == 0 {
        assert(cs.len() == 0);
        assert(compress_line_spec(ps, line) == render_encoded(cs, 0));
        assert(render_encoded(cs, 0) =~= Seq::<char>::empty());
        assert(parse_line_spec(Seq::<char>::empty()) =~= Seq::<(nat, Seq<char>)>::empty());
        assert(expand_words_spec(ps, parse_line_spec(Seq::<char>::empty()), 0) == Ok::<
            Seq<char>,
            Seq<char>,
        >(Seq::empty()));
        assert(space_join(ts, 0) =~= Seq::<char>::empty());
    } else {
        lemma_parse_render(cs, 0);
        assert(spaces_seq(cs[0].0) =~= Seq::<char>::empty());
        assert(render_encoded(cs, 0) =~= cs[0].1 + render_encoded(cs, 1));
        assert(parse_line_spec(compress_line_spec(ps, line)) == cs.skip(0));
        assert(cs.skip(0) =~= cs);
        lemma_expand_words_join(ps, cs, ts, 0);
    }
}

/// The shared argument for the two escaping rules: expanding the body
/// `'\' + w` strips exactly the added marker and returns `w`.
proof fn lemma_escaped_round_trip(ps: Seq<(Seq<char>, Seq<Seq<char>>)>, w: Seq<char>)
    requires
        w.len() > 0,
        prefix_of(w).len() > 0,
        compress_word_spec(ps, w).1 == seq!['\\'] + prefix_of(w) + suffix_of(w),
        compress_word_spec(ps, w).0 == 0,
    ensures
        expand_word_spec(ps, compress_word_spec(ps, w).0, compress_word_spec(ps, w).1)
            == Ok::<Seq<char>, Seq<char>>(w),
{
    let p = prefix_of(w);
    let suf = suffix_of(w);
    lemma_split_props(w);
    lemma_prefix_suffix(w);
    let body = compress_word_spec(ps, w).1;
    assert(body =~= seq!['\\'] + w);
    assert(body.len() == w.len() + 1);
    assert(body[0] == '\\');
    let sp = split_point(w);
    assert(p.len() == sp);
    if w[0] == '\\' {
        // the prefix began with the marker: the doubled marker splits after
        // one character
        assert(!split_allowed(body, 1)) by {
            assert(body[1] == w[0]);
        }
        lemma_split_point_is(body, 1);
        assert(prefix_of(body) =~= seq!['\\']);
        assert(suffix_of(body) =~= w);
        assert(prefix_of(body).skip(1) =~= Seq::<char>::empty());
        assert(prefix_of(body).skip(1) + suffix_of(body) =~= w);
    } else {
        // an alphabetic prefix: the added marker plus the whole prefix
        // splits off together
        assert(split_allowed(w, 0));
        assert(char_is_alpha(w[0]));
        assert forall|j: int| 0 <= j < sp + 1 implies split_allowed(body, j) by {
            if j == 1 {
                assert(body[1] == w[0]);
            } else if j > 1 {
                assert(body[j] == w[j - 1]);
                assert(split_allowed(w, j - 1));
            }
        }
        if sp + 1 < body.len() {
            assert(!split_allowed(body, sp + 1)) by {
                assert(body[sp + 1] == w[sp]);
                assert(!split_allowed(w, sp));
            }
        }
        lemma_split_point_is(body, sp + 1);
        assert(prefix_of(body) =~= seq!['\\'] + p);
        assert(suffix_of(body) =~= suf);
        assert(prefix_of(body)[0] == '\\');
        assert(prefix_of(body).skip(1) =~= p);
        assert(prefix_of(body).skip(1) + suffix_of(body) =~= w);
    }
}

} // verus!
