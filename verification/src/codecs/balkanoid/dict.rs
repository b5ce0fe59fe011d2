//! The Balkanoid dictionary, as well as methods for populating it from text
//! and for writing and reading a binary image.

use vstd::prelude::*;
use std::borrow::Cow;
use crate::succinct::{CowStr, Errorlike};
use crate::strutil::{
    word_lt, word_less, str_eq, lemma_word_trichotomy, lemma_word_trans, lemma_skip_skip,
    dec_str, u8_to_string, tokens_of, split_whitespace_tokens,
};
use crate::codecs::balkanoid::{fingerprint_spec, indexable_spec, Reduction};

verus! {

/// Emitted when a word vector is about to overflow its byte-sized position
/// index.
pub type OverflowError = Errorlike<CowStr>;

/// Emitted when no word could be resolved at the specified position.
pub type WordResolveError = Errorlike<CowStr>;

/// A sequence of words in strictly increasing dictionary order: no
/// duplicates, shorter words first, ties broken lexicographically.
pub open spec fn sorted_strict(s: Seq<Seq<char>>) -> bool {
    forall|i: int, j: int| 0 <= i < j < s.len() ==> word_lt(s[i], s[j])
}

/// The result of inserting `w` into the ordered, duplicate-free word list
/// `s`: unchanged if `w` is already present, otherwise `w` goes to its
/// sorted position.
pub open spec fn insert_word(s: Seq<Seq<char>>, w: Seq<char>) -> Seq<Seq<char>>
    decreases s.len(),
{
    if s.len() == 0 {
        seq![w]
    } else if word_lt(s[0], w) {
        seq![s[0]] + insert_word(s.skip(1), w)
    } else if s[0] == w {
        s
    } else {
        seq![w] + s
    }
}

/// What `insert_word` does to an ordered list: it keeps the order, adds `w`
/// exactly once, and leaves a list containing `w` unchanged.
pub proof fn lemma_insert_word(s: Seq<Seq<char>>, w: Seq<char>)
    requires
        sorted_strict(s),
    ensures
        sorted_strict(insert_word(s, w)),
        insert_word(s, w).contains(w),
        s.contains(w) ==> insert_word(s, w) == s,
        !s.contains(w) ==> insert_word(s, w).len() == s.len() + 1,
        forall|x: Seq<char>|
            #[trigger] insert_word(s, w).contains(x) <==> (s.contains(x) || x == w),
    decreases s.len(),
{
    let r = insert_word(s, w);
    if s.len() == 0 {
        assert(r =~= seq![w]);
        assert(r[0] == w);
        assert(r.contains(w));
        assert(forall|x: Seq<char>| #[trigger] r.contains(x) ==> x == r[0]);
    } else if word_lt(s[0], w) {
        let sk = s.skip(1);
        assert(sorted_strict(sk)) by {
            assert forall|i: int, j: int| 0 <= i < j < sk.len() implies word_lt(sk[i], sk[j]) by {
                assert(sk[i] == s[i + 1]);
                assert(sk[j] == s[j + 1]);
            }
        }
        lemma_insert_word(sk, w);
        let ri = insert_word(sk, w);
        assert(r == seq![s[0]] + ri);
        // membership in s decomposes through the head and the tail
        assert forall|x: Seq<char>| #[trigger] s.contains(x) implies (x == s[0] || sk.contains(
            x,
        )) by {
            let j = choose|j: int| 0 <= j < s.len() && s[j] == x;
            if j > 0 {
                assert(sk[j - 1] == x);
            }
        }
        assert forall|x: Seq<char>| #[trigger] sk.contains(x) implies s.contains(x) by {
            let j = choose|j: int| 0 <= j < sk.len() && sk[j] == x;
            assert(s[j + 1] == x);
        }
        // everything in ri lies strictly above s[0]
        assert forall|k: int| 0 <= k < ri.len() implies word_lt(s[0], ri[k]) by {
            assert(ri.contains(ri[k]));
            if sk.contains(ri[k]) {
                let j = choose|j: int| 0 <= j < sk.len() && sk[j] == ri[k];
                assert(word_lt(s[0], s[j + 1]));
            } else {
                assert(ri[k] == w);
            }
        }
        assert(sorted_strict(r)) by {
            assert forall|i: int, j: int| 0 <= i < j < r.len() implies word_lt(r[i], r[j]) by {
                if i == 0 {
                    assert(r[j] == ri[j - 1]);
                } else {
                    assert(r[i] == ri[i - 1]);
                    assert(r[j] == ri[j - 1]);
                }
            }
        }
        assert(r.contains(w)) by {
            let k = choose|k: int| 0 <= k < ri.len() && ri[k] == w;
            assert(r[k + 1] == w);
        }
        if s.contains(w) {
            assert(sk.contains(w)) by {
                let j = choose|j: int| 0 <= j < s.len() && s[j] == w;
                lemma_word_trichotomy(s[0], w);
                assert(j != 0);
                assert(sk[j - 1] == w);
            }
            assert(r =~= s) by {
                assert(ri == sk);
            }
        } else {
            assert(!sk.contains(w));
        }
        assert forall|x: Seq<char>| #[trigger] r.contains(x) implies (s.contains(x) || x == w) by {
            let k = choose|k: int| 0 <= k < r.len() && r[k] == x;
            if k == 0 {
                assert(s[0] == x);
            } else {
                assert(ri[k - 1] == x);
                assert(ri.contains(x));
            }
        }
        assert forall|x: Seq<char>| s.contains(x) || x == w implies #[trigger] r.contains(x) by {
            if s.contains(x) {
                let j = choose|j: int| 0 <= j < s.len() && s[j] == x;
                if j == 0 {
                    assert(r[0] == x);
                } else {
                    assert(sk[j - 1] == x);
                    assert(sk.contains(x));
                    assert(ri.contains(x));
                    let k = choose|k: int| 0 <= k < ri.len() && ri[k] == x;
                    assert(r[k + 1] == x);
                }
            } else {
                assert(r.contains(w));
            }
        }
    } else if s[0] == w {
        assert(r == s);
        assert(r[0] == w);
        assert(r.contains(w));
    } else {
        lemma_word_trichotomy(s[0], w);
        assert(word_lt(w, s[0]));
        assert(r == seq![w] + s);
        assert(r.contains(w)) by {
            assert(r[0] == w);
        }
        assert(!s.contains(w)) by {
            assert forall|j: int| 0 <= j < s.len() implies s[j] != w by {
                if j > 0 {
                    lemma_word_trans(w, s[0], s[j]);
                    lemma_word_trichotomy(w, s[j]);
                } else {
                    lemma_word_trichotomy(w, s[0]);
                }
            }
        }
        assert(sorted_strict(r)) by {
            assert forall|i: int, j: int| 0 <= i < j < r.len() implies word_lt(r[i], r[j]) by {
                if i == 0 {
                    assert(r[j] == s[j - 1]);
                    if j > 1 {
                        lemma_word_trans(w, s[0], s[j - 1]);
                    }
                } else {
                    assert(r[i] == s[i - 1]);
                    assert(r[j] == s[j - 1]);
                }
            }
        }
        assert forall|x: Seq<char>| #[trigger] r.contains(x) implies (s.contains(x) || x == w) by {
            let k = choose|k: int| 0 <= k < r.len() && r[k] == x;
            if k > 0 {
                assert(s[k - 1] == x);
            }
        }
        assert forall|x: Seq<char>| s.contains(x) || x == w implies #[trigger] r.contains(x) by {
            if s.contains(x) {
                let j = choose|j: int| 0 <= j < s.len() && s[j] == x;
                assert(r[j + 1] == x);
            }
        }
    }
}

/// Inserting into a sorted list at the position found by a linear scan gives
/// exactly `insert_word`.
proof fn lemma_insert_word_at(s: Seq<Seq<char>>, w: Seq<char>, k: int)
    requires
        sorted_strict(s),
        0 <= k <= s.len(),
        forall|i: int| 0 <= i < k ==> word_lt(#[trigger] s[i], w),
        k < s.len() ==> word_lt(w, s[k]),
    ensures
        insert_word(s, w) == s.insert(k, w),
    decreases s.len(),
{
    if k == 0 {
        if s.len() == 0 {
            assert(insert_word(s, w) =~= s.insert(0, w));
        } else {
            lemma_word_trichotomy(s[0], w);
            assert(insert_word(s, w) == seq![w] + s);
            assert(insert_word(s, w) =~= s.insert(0, w));
        }
    } else {
        let sk = s.skip(1);
        assert(sorted_strict(sk)) by {
            assert forall|i: int, j: int| 0 <= i < j < sk.len() implies word_lt(sk[i], sk[j]) by {
                assert(sk[i] == s[i + 1]);
                assert(sk[j] == s[j + 1]);
            }
        }
        assert(word_lt(s[0], w));
        assert forall|i: int| 0 <= i < k - 1 implies word_lt(#[trigger] sk[i], w) by {
            assert(sk[i] == s[i + 1]);
        }
        if k - 1 < sk.len() {
            assert(sk[k - 1] == s[k]);
        }
        lemma_insert_word_at(sk, w, k - 1);
        assert(insert_word(s, w) == seq![s[0]] + sk.insert(k - 1, w));
        assert(insert_word(s, w) =~= s.insert(k, w));
    }
}

/// A vector of words that is capped in size so that every position fits in a
/// byte, is always sorted, and contains no duplicate entries.
#[derive(Debug, PartialEq, Eq)]
pub struct WordVec(pub(crate) Vec<String>);

impl View for WordVec {
    type V = Seq<Seq<char>>;

    closed spec fn view(&self) -> Seq<Seq<char>> {
        self.0.deep_view()
    }
}

impl WordVec {
    /// The structural invariant: strictly sorted (hence duplicate-free) and
    /// at most 255 entries.
    pub open spec fn wf(&self) -> bool {
        &&& self@.len() <= 255
        &&& sorted_strict(self@)
    }

    /// Appends a word, keeping the vector sorted and duplicate-free.
    ///
    /// Fails when the vector already holds 255 entries; pushing a word that
    /// is already present succeeds and changes nothing.
    pub fn push(&mut self, word: String) -> (r: Result<(), OverflowError>)
        requires
            old(self).wf(),
        ensures
            final(self).wf(),
            match r {
                Ok(()) => old(self)@.len() < 255 && final(self)@ == insert_word(
                    old(self)@,
                    word@,
                ),
                Err(e) => old(self)@.len() == 255 && final(self)@ == old(self)@ && e.0@
                    == "too many words in vector"@,
            },
    {
        if self.0.len() == 255 {
            return Err(Errorlike::borrowed("too many words in vector"));
        }
        let ghost orig = self@;
        let mut idx: usize = 0;
        while idx < self.0.len() && word_less(self.0[idx].as_str(), word.as_str())
            invariant
                idx <= orig.len(),
                self@ == orig,
                self.0@.len() == orig.len(),
                forall|i: int| 0 <= i < idx ==> word_lt(#[trigger] orig[i], word@),
            decreases orig.len() - idx,
        {
            proof {
                assert(self.0@[idx as int]@ == orig[idx as int]);
            }
            idx = idx + 1;
        }
        proof {
            if idx < orig.len() {
                assert(self.0@[idx as int]@ == orig[idx as int]);
            }
        }
        if idx < self.0.len() && str_eq(self.0[idx].as_str(), word.as_str()) {
            proof {
                assert(orig.contains(word@)) by {
                    assert(orig[idx as int] == word@);
                }
                lemma_insert_word(orig, word@);
            }
            return Ok(());
        }
        proof {
            if idx < orig.len() {
                lemma_word_trichotomy(orig[idx as int], word@);
            }
            lemma_insert_word(orig, word@);
            lemma_insert_word_at(orig, word@, idx as int);
        }
        self.0.insert(idx, word);
        proof {
            assert(self@ =~~= insert_word(orig, word@));
        }
        Ok(())
    }

    /// The words, in their sorted order.
    pub fn as_ref(&self) -> (r: &Vec<String>)
        ensures
            r.deep_view() == self@,
    {
        &self.0
    }

    /// Surrenders the words, in their sorted order.
    pub fn into_vec(self) -> (r: Vec<String>)
        ensures
            r.deep_view() == self@,
    {
        self.0
    }
}

/// The result of pushing each of `ws` in turn into a word vector that starts
/// as `s`: the final contents on success, or the contents at the moment an
/// overflow struck.
pub open spec fn insert_all(s: Seq<Seq<char>>, ws: Seq<Seq<char>>) -> Result<
    Seq<Seq<char>>,
    Seq<Seq<char>>,
>
    decreases ws.len(),
{
    if ws.len() == 0 {
        Ok(s)
    } else if s.len() >= 255 {
        Err(s)
    } else {
        insert_all(insert_word(s, ws[0]), ws.skip(1))
    }
}

impl Default for WordVec {
    /// An empty word vector.
    fn default() -> (r: Self)
        ensures
            r@ == Seq::<Seq<char>>::empty(),
            r.wf(),
    {
        let r = WordVec(Vec::new());
        proof {
            assert(r@ =~~= Seq::<Seq<char>>::empty());
        }
        r
    }
}

impl WordVec {
    /// Creates a new vector by pushing the given words in order.
    ///
    /// Fails with an overflow error as soon as a push would exceed 255
    /// entries.
    pub fn new(words: Vec<String>) -> (r: Result<WordVec, OverflowError>)
        ensures
            match r {
                Ok(v) => v.wf() && insert_all(Seq::empty(), words.deep_view()) == Ok::<_, Seq<
                    Seq<char>,
                >>(v@),
                Err(e) => insert_all(Seq::empty(), words.deep_view()) is Err && e.0@
                    == "too many words in vector"@,
            },
    {
        let ghost ws = words.deep_view();
        let mut vec = WordVec::default();
        let mut i: usize = 0;
        proof {
            assert(ws.skip(0) == ws);
        }
        while i < words.len()
            invariant
                i <= ws.len(),
                words.deep_view() == ws,
                words@.len() == ws.len(),
                vec.wf(),
                insert_all(Seq::empty(), ws) == insert_all(vec@, ws.skip(i as int)),
            decreases ws.len() - i,
        {
            proof {
                lemma_skip_skip(ws, i as int);
                assert(ws.skip(i as int)[0] == ws[i as int]);
                assert(words@[i as int]@ == ws[i as int]);
            }
            let word = words[i].clone();
            match vec.push(word) {
                Ok(()) => {},
                Err(e) => {
                    return Err(e);
                },
            }
            i = i + 1;
        }
        proof {
            assert(ws.skip(ws.len() as int) =~= Seq::<Seq<char>>::empty());
        }
        Ok(vec)
    }
}

/// True iff some entry of `ps` carries the fingerprint `fp`.
pub open spec fn has_fp(ps: Seq<(Seq<char>, Seq<Seq<char>>)>, fp: Seq<char>) -> bool {
    exists|i: int| 0 <= i < ps.len() && ps[i].0 == fp
}

/// The index of the entry carrying `fp` (unique when keys are distinct).
pub open spec fn fp_idx(ps: Seq<(Seq<char>, Seq<Seq<char>>)>, fp: Seq<char>) -> int {
    choose|i: int| 0 <= i < ps.len() && ps[i].0 == fp
}

/// The word group collated under `fp`.
pub open spec fn group_of(ps: Seq<(Seq<char>, Seq<Seq<char>>)>, fp: Seq<char>) -> Seq<Seq<char>> {
    ps[fp_idx(ps, fp)].1
}

/// No two entries carry the same fingerprint.
pub open spec fn distinct_keys(ps: Seq<(Seq<char>, Seq<Seq<char>>)>) -> bool {
    forall|i: int, j: int| 0 <= i < j < ps.len() ==> ps[i].0 != ps[j].0
}

/// `ps` with the group under `fp` replaced by `g`.
pub open spec fn set_group(
    ps: Seq<(Seq<char>, Seq<Seq<char>>)>,
    fp: Seq<char>,
    g: Seq<Seq<char>>,
) -> Seq<(Seq<char>, Seq<Seq<char>>)> {
    ps.map(
        |i: int, p: (Seq<char>, Seq<Seq<char>>)|
            if p.0 == fp {
                (p.0, g)
            } else {
                p
            },
    )
}

/// With distinct keys, the entry found at index `i` is the entry that the
/// lookup functions speak of.
pub proof fn lemma_group_at(ps: Seq<(Seq<char>, Seq<Seq<char>>)>, fp: Seq<char>, i: int)
    requires
        distinct_keys(ps),
        0 <= i < ps.len(),
        ps[i].0 == fp,
    ensures
        has_fp(ps, fp),
        fp_idx(ps, fp) == i,
        group_of(ps, fp) == ps[i].1,
{
    assert(has_fp(ps, fp));
    let j = fp_idx(ps, fp);
    if j != i {
        if j < i {
            assert(ps[j].0 != ps[i].0);
        } else {
            assert(ps[i].0 != ps[j].0);
        }
    }
}

/// The index of `w` within the group `g` (unique when the group is
/// sorted).
pub open spec fn word_index(g: Seq<Seq<char>>, w: Seq<char>) -> int {
    choose|k: int| 0 <= k < g.len() && g[k] == w
}

/// The position that the dictionary assigns to `w` under `fp`: its index in
/// the group, if the fingerprint exists and the word is collated there.
pub open spec fn lookup_position(
    ps: Seq<(Seq<char>, Seq<Seq<char>>)>,
    fp: Seq<char>,
    w: Seq<char>,
) -> Option<int> {
    if has_fp(ps, fp) && group_of(ps, fp).contains(w) {
        Some(word_index(group_of(ps, fp), w))
    } else {
        None
    }
}

/// In a sorted group, each word sits at exactly one index.
pub proof fn lemma_word_index(g: Seq<Seq<char>>, k: int)
    requires
        sorted_strict(g),
        0 <= k < g.len(),
    ensures
        g.contains(g[k]),
        word_index(g, g[k]) == k,
{
    assert(g.contains(g[k]));
    let j = word_index(g, g[k]);
    assert(0 <= j < g.len() && g[j] == g[k]);
    if j < k {
        lemma_word_trichotomy(g[j], g[k]);
    } else if j > k {
        lemma_word_trichotomy(g[k], g[j]);
    }
}

/// The structural invariant of a dictionary, over its entry sequence:
/// distinct nonempty fingerprints, each group sorted, duplicate-free, at
/// most 255 strong and holding only nonempty words.
pub open spec fn dict_pairs_wf(ps: Seq<(Seq<char>, Seq<Seq<char>>)>) -> bool {
    &&& distinct_keys(ps)
    &&& forall|i: int| 0 <= i < ps.len() ==> (#[trigger] ps[i].0).len() > 0
    &&& forall|i: int|
        0 <= i < ps.len() ==> sorted_strict(#[trigger] ps[i].1) && ps[i].1.len() <= 255
    &&& forall|i: int, k: int|
        0 <= i < ps.len() && 0 <= k < ps[i].1.len() ==> (#[trigger] ps[i].1[k]).len() > 0
}

/// What populating a dictionary with the given words, in order, does to its
/// entry sequence.  Each indexable word — one whose reduction is pure
/// lowercase with a nonempty fingerprint — joins the group keyed by its
/// fingerprint, new groups being appended in encounter order; the rest are
/// skipped.  An overflow stops everything, leaving the entries as they stood
/// when the full group was met.
pub open spec fn spec_populate(ps: Seq<(Seq<char>, Seq<Seq<char>>)>, ws: Seq<Seq<char>>) -> Result<
    Seq<(Seq<char>, Seq<Seq<char>>)>,
    Seq<(Seq<char>, Seq<Seq<char>>)>,
>
    decreases ws.len(),
{
    if ws.len() == 0 {
        Ok(ps)
    } else {
        let w = ws[0];
        if indexable_spec(w) {
            let fp = fingerprint_spec(w);
            if has_fp(ps, fp) {
                if group_of(ps, fp).len() >= 255 {
                    Err(ps)
                } else {
                    spec_populate(set_group(ps, fp, insert_word(group_of(ps, fp), w)), ws.skip(1))
                }
            } else {
                spec_populate(ps.push((fp, seq![w])), ws.skip(1))
            }
        } else {
            spec_populate(ps, ws.skip(1))
        }
    }
}

/// The message carried by a [`WordResolveError`].
pub open spec fn resolve_msg(pos: int, fp: Seq<char>) -> Seq<char> {
    "no dictionary word at position "@ + dec_str(pos) + " for fingerprint '"@ + fp + "'"@
}

/// The dictionary used by the Balkanoid codec: a collection of word groups,
/// each keyed by the shared fingerprint of its words.
#[derive(Debug, PartialEq, Eq)]
pub struct Dict {
    entries: Vec<(String, WordVec)>,
}

impl Dict {
    /// The entry sequence: each fingerprint with its word group, in the
    /// order the groups were created.
    pub closed spec fn pairs(&self) -> Seq<(Seq<char>, Seq<Seq<char>>)> {
        Seq::new(self.entries@.len(), |i: int| (self.entries@[i].0@, self.entries@[i].1@))
    }

    /// The structural invariant.
    pub open spec fn wf(&self) -> bool {
        dict_pairs_wf(self.pairs())
    }

    spec fn groups_wf(&self) -> bool {
        forall|i: int| 0 <= i < self.entries@.len() ==> (#[trigger] self.entries@[i].1).wf()
    }

    proof fn lemma_wf_groups(&self)
        requires
            self.wf(),
        ensures
            self.groups_wf(),
    {
        assert forall|i: int| 0 <= i < self.entries@.len() implies (
        #[trigger] self.entries@[i].1).wf() by {
            assert(self.pairs()[i].1 == self.entries@[i].1@);
        }
    }

    /// Locates the entry carrying the given fingerprint, if any.
    fn find_entry(&self, fingerprint: &str) -> (r: Option<usize>)
        ensures
            match r {
                Some(i) => i < self.pairs().len() && self.pairs()[i as int].0 == fingerprint@,
                None => !has_fp(self.pairs(), fingerprint@),
            },
    {
        let mut i: usize = 0;
        while i < self.entries.len()
            invariant
                i <= self.entries@.len(),
                self.pairs().len() == self.entries@.len(),
                forall|j: int| 0 <= j < i ==> self.pairs()[j].0 != fingerprint@,
            decreases self.entries@.len() - i,
        {
            if str_eq(self.entries[i].0.as_str(), fingerprint) {
                proof {
                    assert(self.pairs()[i as int].0 == self.entries@[i as int].0@);
                }
                return Some(i);
            }
            proof {
                assert(self.pairs()[i as int].0 == self.entries@[i as int].0@);
            }
            i = i + 1;
        }
        None
    }

    /// Checks whether the given fingerprint exists in the dictionary.
    pub fn contains_fingerprint(&self, fingerprint: &str) -> (r: bool)
        ensures
            r == has_fp(self.pairs(), fingerprint@),
    {
        match self.find_entry(fingerprint) {
            Some(i) => {
                proof {
                    assert(has_fp(self.pairs(), fingerprint@));
                }
                true
            },
            None => false,
        }
    }

    /// Obtains the position of a word within the group of the given
    /// fingerprint: `Some` iff the fingerprint exists and the word is
    /// collated there.
    pub fn position(&self, fingerprint: &str, word: &str) -> (r: Option<u8>)
        requires
            self.wf(),
        ensures
            match r {
                Some(p) => has_fp(self.pairs(), fingerprint@) && (p as int) < group_of(
                    self.pairs(),
                    fingerprint@,
                ).len() && group_of(self.pairs(), fingerprint@)[p as int] == word@,
                None => !has_fp(self.pairs(), fingerprint@) || !group_of(
                    self.pairs(),
                    fingerprint@,
                ).contains(word@),
            },
    {
        let ei = match self.find_entry(fingerprint) {
            None => {
                return None;
            },
            Some(ei) => ei,
        };
        proof {
            lemma_group_at(self.pairs(), fingerprint@, ei as int);
            self.lemma_wf_groups();
        }
        let ghost g = group_of(self.pairs(), fingerprint@);
        let group: &WordVec = &self.entries[ei].1;
        proof {
            assert(group@ == g);
        }
        let n = group.0.len();
        let mut k: usize = 0;
        while k < n
            invariant
                k <= n,
                n == g.len(),
                group@ == g,
                n == group.0@.len(),
                g.len() <= 255,
                has_fp(self.pairs(), fingerprint@),
                g == group_of(self.pairs(), fingerprint@),
                forall|j: int| 0 <= j < k ==> g[j] != word@,
            decreases n - k,
        {
            proof {
                assert(group.0@[k as int]@ == g[k as int]);
            }
            if str_eq(group.0[k].as_str(), word) {
                return Some(k as u8);
            }
            k = k + 1;
        }
        proof {
            if g.contains(word@) {
                let j = choose|j: int| 0 <= j < g.len() && g[j] == word@;
                assert(g[j] != word@);
            }
        }
        None
    }

    /// Resolves a collated word, given its fingerprint and position.
    ///
    /// `Ok(None)` when the fingerprint is absent; `Ok(Some(word))` when a
    /// word sits at the given position; an error when the fingerprint exists
    /// but the position lies past its group.
    pub fn resolve<'a>(&'a self, fingerprint: &str, position: u8) -> (r: Result<
        Option<&'a String>,
        WordResolveError,
    >)
        requires
            self.wf(),
        ensures
            match r {
                Ok(opt) => match opt {
                    None => !has_fp(self.pairs(), fingerprint@),
                    Some(w) => has_fp(self.pairs(), fingerprint@) && (position as int) < group_of(
                        self.pairs(),
                        fingerprint@,
                    ).len() && w@ == group_of(self.pairs(), fingerprint@)[position as int],
                },
                Err(e) => has_fp(self.pairs(), fingerprint@) && (position as int) >= group_of(
                    self.pairs(),
                    fingerprint@,
                ).len() && e.0@ == resolve_msg(position as int, fingerprint@),
            },
    {
        let ei = match self.find_entry(fingerprint) {
            None => {
                return Ok(None);
            },
            Some(ei) => ei,
        };
        proof {
            lemma_group_at(self.pairs(), fingerprint@, ei as int);
        }
        let group: &WordVec = &self.entries[ei].1;
        proof {
            assert(group@ == group_of(self.pairs(), fingerprint@));
        }
        if (position as usize) < group.0.len() {
            proof {
                assert(group.0@[position as int]@ == group@[position as int]);
            }
            Ok(Some(&group.0[position as usize]))
        } else {
            let mut m = String::from_str("no dictionary word at position ");
            let num = u8_to_string(position);
            m.append(num.as_str());
            m.append(" for fingerprint '");
            m.append(fingerprint);
            m.append("'");
            proof {
                assert(m@ =~= resolve_msg(position as int, fingerprint@));
            }
            Err(Errorlike::owned(m))
        }
    }

    /// The total number of words, summed over all groups.
    pub closed spec fn count_of(ps: Seq<(Seq<char>, Seq<Seq<char>>)>) -> int
        decreases ps.len(),
    {
        if ps.len() == 0 {
            0int
        } else {
            Self::count_of(ps.drop_last()) + ps.last().1.len()
        }
    }

    proof fn lemma_count_nonneg(ps: Seq<(Seq<char>, Seq<Seq<char>>)>)
        ensures
            Self::count_of(ps) >= 0,
        decreases ps.len(),
    {
        if ps.len() > 0 {
            Self::lemma_count_nonneg(ps.drop_last());
        }
    }

    proof fn lemma_count_take_le(ps: Seq<(Seq<char>, Seq<Seq<char>>)>, i: int)
        requires
            0 <= i <= ps.len(),
        ensures
            Self::count_of(ps.take(i)) <= Self::count_of(ps),
        decreases ps.len() - i,
    {
        if i == ps.len() {
            assert(ps.take(i) =~= ps);
        } else {
            Self::lemma_count_take_le(ps, i + 1);
            assert(ps.take(i + 1).drop_last() =~= ps.take(i));
            assert(ps.take(i + 1).last() == ps[i]);
            assert(Self::count_of(ps.take(i)) <= Self::count_of(ps.take(i + 1)));
        }
    }

    /// Obtains the aggregate count of words collated in this dictionary.
    pub fn count(&self) -> (r: usize)
        requires
            self.wf(),
            Self::count_of(self.pairs()) <= usize::MAX,
        ensures
            r == Self::count_of(self.pairs()),
    {
        let ghost ps = self.pairs();
        let mut acc: usize = 0;
        let mut i: usize = 0;
        proof {
            assert(ps.take(0) =~= Seq::<(Seq<char>, Seq<Seq<char>>)>::empty());
        }
        while i < self.entries.len()
            invariant
                i <= self.entries@.len(),
                ps == self.pairs(),
                Self::count_of(ps) <= usize::MAX,
                ps.len() == self.entries@.len(),
                acc == Self::count_of(ps.take(i as int)),
            decreases self.entries@.len() - i,
        {
            proof {
                assert(ps.take(i + 1).drop_last() =~= ps.take(i as int));
                assert(ps.take(i + 1).last() == ps[i as int]);
                assert(ps[i as int].1 == self.entries@[i as int].1@);
                Self::lemma_count_take_le(ps, i + 1);
            }
            acc = acc + self.entries[i].1 .0.len();
            i = i + 1;
        }
        proof {
            assert(ps.take(ps.len() as int) =~= ps);
        }
        acc
    }

    /// Populates the dictionary from a collection of words.
    ///
    /// Words whose reduction is not pure lowercase, or whose fingerprint is
    /// empty, are skipped; the rest join the group keyed by their
    /// fingerprint.  Fails as soon as a group would exceed 255 words; the
    /// groups filled before the failing word keep what they received.
    pub fn populate(&mut self, words: Vec<String>) -> (r: Result<(), OverflowError>)
        requires
            old(self).wf(),
        ensures
            final(self).wf(),
            match r {
                Ok(()) => spec_populate(old(self).pairs(), words.deep_view()) == Ok::<_, Seq<
                    (Seq<char>, Seq<Seq<char>>),
                >>(final(self).pairs()),
                Err(e) => spec_populate(old(self).pairs(), words.deep_view()) == Err::<Seq<
                    (Seq<char>, Seq<Seq<char>>),
                >, _>(final(self).pairs()) && e.0@ == "too many words in vector"@,
            },
    {
        let ghost ws = words.deep_view();
        let ghost orig = self.pairs();
        let mut i: usize = 0;
        proof {
            assert(ws.skip(0) == ws);
        }
        while i < words.len()
            invariant
                i <= ws.len(),
                words.deep_view() == ws,
                words@.len() == ws.len(),
                self.wf(),
                orig == old(self).pairs(),
                spec_populate(orig, ws) == spec_populate(self.pairs(), ws.skip(i as int)),
            decreases ws.len() - i,
        {
            proof {
                lemma_skip_skip(ws, i as int);
                assert(ws.skip(i as int)[0] == ws[i as int]);
                assert(words@[i as int]@ == ws[i as int]);
            }
            let ghost w = ws[i as int];
            let ghost cur = self.pairs();
            let word = &words[i];
            let reduction = Reduction::from(word.as_str());
            if reduction.is_lowercase() && !reduction.fingerprint.as_str().is_empty() {
                proof {
                    assert(indexable_spec(w));
                }
                let fp = reduction.fingerprint;
                match self.find_entry(fp.as_str()) {
                    Some(idx) => {
                        proof {
                            lemma_group_at(cur, fp@, idx as int);
                            self.lemma_wf_groups();
                            assert(self.entries@[idx as int].1.wf());
                        }
                        let ghost g = group_of(cur, fp@);
                        let res = self.entries[idx].1.push(word.clone());
                        match res {
                            Ok(()) => {
                                proof {
                                    assert(self.entries@[idx as int].0@ == fp@);
                                    assert(self.pairs() =~~= set_group(
                                        cur,
                                        fp@,
                                        insert_word(g, w),
                                    ));
                                    lemma_insert_word(g, w);
                                    assert(fingerprint_spec(w).len() > 0);
                                    assert(w.len() > 0) by {
                                        if w.len() == 0 {
                                            assert(fingerprint_spec(w).len() == 0);
                                        }
                                    }
                                    assert(self.wf()) by {
                                        assert(distinct_keys(self.pairs()));
                                        assert forall|a: int, k: int|
                                            0 <= a < self.pairs().len() && 0 <= k
                                                < self.pairs()[a].1.len() implies (
                                        #[trigger] self.pairs()[a].1[k]).len() > 0 by {
                                            if a == idx {
                                                let ng = self.pairs()[a].1;
                                                assert(ng.contains(ng[k]));
                                                if g.contains(ng[k]) {
                                                    let j = choose|j: int|
                                                        0 <= j < g.len() && g[j] == ng[k];
                                                    assert(cur[a].1[j].len() > 0);
                                                }
                                            }
                                        }
                                    }
                                }
                            },
                            Err(e) => {
                                proof {
                                    assert(g.len() >= 255);
                                    assert(self.pairs() =~~= cur);
                                    assert(fingerprint_spec(w) == fp@);
                                    assert(has_fp(cur, fingerprint_spec(w)));
                                    assert(group_of(cur, fingerprint_spec(w)) == g);
                                    assert(spec_populate(cur, ws.skip(i as int)) == Err::<Seq<
                                        (Seq<char>, Seq<Seq<char>>),
                                    >, _>(cur));
                                    assert(spec_populate(orig, ws) == Err::<Seq<
                                        (Seq<char>, Seq<Seq<char>>),
                                    >, _>(self.pairs()));
                                }
                                return Err(e);
                            },
                        }
                    },
                    None => {
                        let mut wv = WordVec::default();
                        let res = wv.push(word.clone());
                        proof {
                            assert(res is Ok);
                            assert(wv@ =~~= seq![w]);
                        }
                        self.entries.push((fp, wv));
                        proof {
                            assert(self.pairs() =~~= cur.push((fingerprint_spec(w), seq![w])));
                            assert(w.len() > 0) by {
                                if w.len() == 0 {
                                    assert(fingerprint_spec(w).len() == 0);
                                }
                            }
                            assert(self.wf()) by {
                                assert forall|a: int, b: int|
                                    0 <= a < b < self.pairs().len() implies self.pairs()[a].0
                                    != self.pairs()[b].0 by {
                                    if b == self.pairs().len() - 1 {
                                        assert(!has_fp(cur, fingerprint_spec(w)));
                                        assert(cur[a].0 != fingerprint_spec(w));
                                    }
                                }
                            }
                        }
                    },
                }
            } else {
                proof {
                    assert(!indexable_spec(w));
                    assert(self.pairs() == cur);
                }
            }
            i = i + 1;
        }
        proof {
            assert(ws.skip(ws.len() as int) =~= Seq::<Seq<char>>::empty());
        }
        Ok(())
    }
}

impl Default for Dict {
    /// An empty dictionary.
    fn default() -> (r: Self)
        ensures
            r.pairs() == Seq::<(Seq<char>, Seq<Seq<char>>)>::empty(),
            r.wf(),
    {
        let d = Dict { entries: Vec::new() };
        proof {
            assert(d.pairs() =~~= Seq::<(Seq<char>, Seq<Seq<char>>)>::empty());
        }
        d
    }
}

impl Dict {
    /// Builds a dictionary by populating an empty one with the given words.
    pub fn new(words: Vec<String>) -> (r: Result<Dict, OverflowError>)
        ensures
            match r {
                Ok(d) => d.wf() && spec_populate(
                    Seq::<(Seq<char>, Seq<Seq<char>>)>::empty(),
                    words.deep_view(),
                ) == Ok::<_, Seq<(Seq<char>, Seq<Seq<char>>)>>(d.pairs()),
                Err(e) => spec_populate(
                    Seq::<(Seq<char>, Seq<Seq<char>>)>::empty(),
                    words.deep_view(),
                ) is Err && e.0@ == "too many words in vector"@,
            },
    {
        let mut d = Dict::default();
        match d.populate(words) {
            Ok(()) => Ok(d),
            Err(e) => Err(e),
        }
    }

    /// The number of fingerprint groups.
    pub fn group_count(&self) -> (r: usize)
        ensures
            r == self.pairs().len(),
    {
        self.entries.len()
    }

    /// The word group collated under the given fingerprint, if any.
    pub fn group(&self, fingerprint: &str) -> (r: Option<&WordVec>)
        ensures
            match r {
                Some(v) => has_fp(self.pairs(), fingerprint@) && (distinct_keys(self.pairs())
                    ==> v@ == group_of(self.pairs(), fingerprint@)),
                None => !has_fp(self.pairs(), fingerprint@),
            },
    {
        match self.find_entry(fingerprint) {
            Some(i) => {
                proof {
                    if distinct_keys(self.pairs()) {
                        lemma_group_at(self.pairs(), fingerprint@, i as int);
                    }
                    assert(self.entries@[i as int].1@ == self.pairs()[i as int].1);
                }
                Some(&self.entries[i].1)
            },
            None => None,
        }
    }
}

/// The entry sequence a population result leaves behind: the new entries on
/// success, the entries as they stood at the overflow on failure.
pub open spec fn populate_state(
    r: Result<Seq<(Seq<char>, Seq<Seq<char>>)>, Seq<(Seq<char>, Seq<Seq<char>>)>>,
) -> Seq<(Seq<char>, Seq<Seq<char>>)> {
    match r {
        Ok(s) => s,
        Err(s) => s,
    }
}

proof fn lemma_populate_nil(ps: Seq<(Seq<char>, Seq<Seq<char>>)>, ws: Seq<Seq<char>>)
    requires
        ws.len() == 0,
    ensures
        spec_populate(ps, ws) == Ok::<_, Seq<(Seq<char>, Seq<Seq<char>>)>>(ps),
{
}

/// Replacing a group by itself changes nothing.
proof fn lemma_set_group_same(ps: Seq<(Seq<char>, Seq<Seq<char>>)>, fp: Seq<char>, i: int)
    requires
        distinct_keys(ps),
        0 <= i < ps.len(),
        ps[i].0 == fp,
    ensures
        set_group(ps, fp, ps[i].1) == ps,
{
    let r = set_group(ps, fp, ps[i].1);
    assert forall|j: int| 0 <= j < ps.len() implies r[j] == ps[j] by {
        if ps[j].0 == fp {
            if j < i {
                assert(ps[j].0 != ps[i].0);
            } else if j > i {
                assert(ps[i].0 != ps[j].0);
            }
        }
    }
    assert(r =~= ps);
}

/// Idempotence of population: populating with a word and then populating
/// with the same word again leaves the dictionary exactly as the first
/// population left it — duplicates are not re-inserted.
pub proof fn lemma_populate_idempotent(ps: Seq<(Seq<char>, Seq<Seq<char>>)>, w: Seq<char>)
    requires
        dict_pairs_wf(ps),
    ensures
        populate_state(
            spec_populate(populate_state(spec_populate(ps, seq![w])), seq![w]),
        ) == populate_state(spec_populate(ps, seq![w])),
{
    let ws = seq![w];
    assert(ws.skip(1) =~= Seq::<Seq<char>>::empty());
    lemma_populate_nil(ps, ws.skip(1));
    assert(ws[0] == w);
    if !indexable_spec(w) {
        assert(spec_populate(ps, ws) == Ok::<_, Seq<(Seq<char>, Seq<Seq<char>>)>>(ps));
    } else {
        let fp = fingerprint_spec(w);
        if has_fp(ps, fp) {
            let gi = fp_idx(ps, fp);
            assert(0 <= gi < ps.len() && ps[gi].0 == fp);
            let g = group_of(ps, fp);
            assert(sorted_strict(g));
            if g.len() >= 255 {
                assert(spec_populate(ps, ws) == Err::<Seq<(Seq<char>, Seq<Seq<char>>)>, _>(ps));
            } else {
                lemma_insert_word(g, w);
                let g1 = insert_word(g, w);
                let ps1 = set_group(ps, fp, g1);
                lemma_populate_nil(ps1, ws.skip(1));
                assert(spec_populate(ps, ws) == Ok::<_, Seq<(Seq<char>, Seq<Seq<char>>)>>(ps1));
                assert(distinct_keys(ps1)) by {
                    assert forall|a: int, b: int| 0 <= a < b < ps1.len() implies ps1[a].0
                        != ps1[b].0 by {
                        assert(ps1[a].0 == ps[a].0);
                        assert(ps1[b].0 == ps[b].0);
                    }
                }
                assert(ps1[gi] == (fp, g1));
                lemma_group_at(ps1, fp, gi);
                if g1.len() >= 255 {
                    assert(spec_populate(ps1, ws) == Err::<Seq<(Seq<char>, Seq<Seq<char>>)>, _>(
                        ps1,
                    ));
                } else {
                    lemma_insert_word(g1, w);
                    assert(insert_word(g1, w) == g1);
                    lemma_set_group_same(ps1, fp, gi);
                    lemma_populate_nil(set_group(ps1, fp, insert_word(g1, w)), ws.skip(1));
                    assert(spec_populate(ps1, ws) == Ok::<_, Seq<(Seq<char>, Seq<Seq<char>>)>>(
                        ps1,
                    ));
                }
            }
        } else {
            let ps1 = ps.push((fp, seq![w]));
            lemma_populate_nil(ps1, ws.skip(1));
            assert(spec_populate(ps, ws) == Ok::<_, Seq<(Seq<char>, Seq<Seq<char>>)>>(ps1));
            let gi = ps.len() as int;
            assert(ps1[gi] == (fp, seq![w]));
            assert(distinct_keys(ps1)) by {
                assert forall|a: int, b: int| 0 <= a < b < ps1.len() implies ps1[a].0
                    != ps1[b].0 by {
                    if b == gi {
                        assert(ps1[a].0 == ps[a].0);
                        assert(!has_fp(ps, fp));
                        assert(ps[a].0 != fp);
                    } else {
                        assert(ps1[a].0 == ps[a].0);
                        assert(ps1[b].0 == ps[b].0);
                    }
                }
            }
            lemma_group_at(ps1, fp, gi);
            assert(group_of(ps1, fp) == seq![w]);
            assert(insert_word(seq![w], w) == seq![w]) by {
                assert(seq![w][0] == w);
                lemma_word_trichotomy(w, w);
            }
            lemma_set_group_same(ps1, fp, gi);
            lemma_populate_nil(set_group(ps1, fp, insert_word(seq![w], w)), ws.skip(1));
            assert(spec_populate(ps1, ws) == Ok::<_, Seq<(Seq<char>, Seq<Seq<char>>)>>(ps1));
        }
    }
}

/// Pouring distinct words that all share one fingerprint into a dictionary
/// that already carries that fingerprint: they fit while the group stays
/// within its 255-entry cap, and overflow as soon as it would not.
proof fn lemma_fill_group(
    ps: Seq<(Seq<char>, Seq<Seq<char>>)>,
    f: Seq<char>,
    ws: Seq<Seq<char>>,
)
    requires
        dict_pairs_wf(ps),
        has_fp(ps, f),
        forall|i: int|
            0 <= i < ws.len() ==> indexable_spec(#[trigger] ws[i]) && fingerprint_spec(ws[i])
                == f,
        forall|i: int| 0 <= i < ws.len() ==> !group_of(ps, f).contains(#[trigger] ws[i]),
        forall|i: int, j: int| 0 <= i < j < ws.len() ==> ws[i] != ws[j],
    ensures
        group_of(ps, f).len() + ws.len() <= 255 ==> (spec_populate(ps, ws) is Ok && group_of(
            spec_populate(ps, ws)->Ok_0,
            f,
        ).len() == group_of(ps, f).len() + ws.len()),
        group_of(ps, f).len() + ws.len() > 255 ==> spec_populate(ps, ws) is Err,
    decreases ws.len(),
{
    let gi = fp_idx(ps, f);
    assert(0 <= gi < ps.len() && ps[gi].0 == f);
    let g = group_of(ps, f);
    assert(sorted_strict(g) && g.len() <= 255);
    if ws.len() == 0 {
    } else {
        let w = ws[0];
        assert(indexable_spec(w) && fingerprint_spec(w) == f);
        if g.len() >= 255 {
            assert(spec_populate(ps, ws) == Err::<Seq<(Seq<char>, Seq<Seq<char>>)>, _>(ps));
        } else {
            lemma_insert_word(g, w);
            assert(!g.contains(w));
            let g1 = insert_word(g, w);
            assert(g1.len() == g.len() + 1);
            let ps1 = set_group(ps, f, g1);
            assert(ps1[gi] == (f, g1));
            assert(w.len() > 0) by {
                if w.len() == 0 {
                    assert(fingerprint_spec(w).len() == 0);
                }
            }
            assert(dict_pairs_wf(ps1)) by {
                assert forall|a: int, b: int| 0 <= a < b < ps1.len() implies ps1[a].0
                    != ps1[b].0 by {
                    assert(ps1[a].0 == ps[a].0);
                    assert(ps1[b].0 == ps[b].0);
                }
                assert forall|a: int| 0 <= a < ps1.len() implies (#[trigger] ps1[a].0).len()
                    > 0 by {
                    assert(ps1[a].0 == ps[a].0);
                }
                assert forall|a: int| 0 <= a < ps1.len() implies sorted_strict(
                    #[trigger] ps1[a].1,
                ) && ps1[a].1.len() <= 255 by {
                    if ps[a].0 == f {
                        if a != gi {
                            if a < gi {
                                assert(ps[a].0 != ps[gi].0);
                            } else {
                                assert(ps[gi].0 != ps[a].0);
                            }
                        }
                    } else {
                        assert(ps1[a].1 == ps[a].1);
                    }
                }
                assert forall|a: int, k: int|
                    0 <= a < ps1.len() && 0 <= k < ps1[a].1.len() implies (
                #[trigger] ps1[a].1[k]).len() > 0 by {
                    if ps[a].0 == f {
                        if a != gi {
                            if a < gi {
                                assert(ps[a].0 != ps[gi].0);
                            } else {
                                assert(ps[gi].0 != ps[a].0);
                            }
                        }
                        assert(g1.contains(g1[k]));
                        if g.contains(g1[k]) {
                            let x = choose|x: int| 0 <= x < g.len() && g[x] == g1[k];
                            assert(ps[gi].1[x].len() > 0);
                        }
                    } else {
                        assert(ps1[a].1 == ps[a].1);
                    }
                }
            }
            assert(distinct_keys(ps1));
            lemma_group_at(ps1, f, gi);
            assert(group_of(ps1, f) == g1);
            assert forall|i: int| 0 <= i < ws.skip(1).len() implies indexable_spec(
                #[trigger] ws.skip(1)[i],
            ) && fingerprint_spec(ws.skip(1)[i]) == f by {
                assert(ws.skip(1)[i] == ws[i + 1]);
            }
            assert forall|i: int| 0 <= i < ws.skip(1).len() implies !group_of(ps1, f).contains(
                #[trigger] ws.skip(1)[i],
            ) by {
                assert(ws.skip(1)[i] == ws[i + 1]);
                assert(ws[0] != ws[i + 1]);
                if g1.contains(ws[i + 1]) {
                    assert(g.contains(ws[i + 1]) || ws[i + 1] == w);
                }
            }
            assert forall|i: int, j: int| 0 <= i < j < ws.skip(1).len() implies ws.skip(1)[i]
                != ws.skip(1)[j] by {
                assert(ws.skip(1)[i] == ws[i + 1]);
                assert(ws.skip(1)[j] == ws[j + 1]);
            }
            lemma_fill_group(ps1, f, ws.skip(1));
            assert(spec_populate(ps, ws) == spec_populate(ps1, ws.skip(1)));
        }
    }
}

/// Capacity: populating a fresh fingerprint group with distinct indexable
/// words that share one fingerprint succeeds exactly while their number
/// stays within the 255-entry cap, filling the group to that number, and
/// fails with an overflow as soon as it exceeds the cap.
pub proof fn lemma_group_capacity(
    ps: Seq<(Seq<char>, Seq<Seq<char>>)>,
    f: Seq<char>,
    ws: Seq<Seq<char>>,
)
    requires
        dict_pairs_wf(ps),
        !has_fp(ps, f),
        ws.len() > 0,
        forall|i: int|
            0 <= i < ws.len() ==> indexable_spec(#[trigger] ws[i]) && fingerprint_spec(ws[i])
                == f,
        forall|i: int, j: int| 0 <= i < j < ws.len() ==> ws[i] != ws[j],
    ensures
        ws.len() <= 255 ==> (spec_populate(ps, ws) is Ok && group_of(
            spec_populate(ps, ws)->Ok_0,
            f,
        ).len() == ws.len()),
        ws.len() > 255 ==> spec_populate(ps, ws) is Err,
{
    let w = ws[0];
    assert(indexable_spec(w) && fingerprint_spec(w) == f);
    assert(f.len() > 0);
    assert(w.len() > 0) by {
        if w.len() == 0 {
            assert(fingerprint_spec(w).len() == 0);
        }
    }
    let ps1 = ps.push((f, seq![w]));
    let gi = ps.len() as int;
    assert(ps1[gi] == (f, seq![w]));
    assert(spec_populate(ps, ws) == spec_populate(ps1, ws.skip(1)));
    assert(dict_pairs_wf(ps1)) by {
        assert forall|a: int, b: int| 0 <= a < b < ps1.len() implies ps1[a].0 != ps1[b].0 by {
            if b == gi {
                assert(ps1[a].0 == ps[a].0);
                assert(ps[a].0 != f);
            } else {
                assert(ps1[a].0 == ps[a].0);
                assert(ps1[b].0 == ps[b].0);
            }
        }
        assert forall|a: int| 0 <= a < ps1.len() implies (#[trigger] ps1[a].0).len() > 0 by {
            if a < gi {
                assert(ps1[a].0 == ps[a].0);
            }
        }
        assert forall|a: int| 0 <= a < ps1.len() implies sorted_strict(#[trigger] ps1[a].1)
            && ps1[a].1.len() <= 255 by {
            if a < gi {
                assert(ps1[a].1 == ps[a].1);
            }
        }
        assert forall|a: int, k: int| 0 <= a < ps1.len() && 0 <= k < ps1[a].1.len() implies (
        #[trigger] ps1[a].1[k]).len() > 0 by {
            if a < gi {
                assert(ps1[a].1 == ps[a].1);
            } else {
                assert(ps1[a].1[k] == w);
            }
        }
    }
    lemma_group_at(ps1, f, gi);
    assert(group_of(ps1, f) == seq![w]);
    assert forall|i: int| 0 <= i < ws.skip(1).len() implies indexable_spec(
        #[trigger] ws.skip(1)[i],
    ) && fingerprint_spec(ws.skip(1)[i]) == f by {
        assert(ws.skip(1)[i] == ws[i + 1]);
    }
    assert forall|i: int| 0 <= i < ws.skip(1).len() implies !group_of(ps1, f).contains(
        #[trigger] ws.skip(1)[i],
    ) by {
        assert(ws.skip(1)[i] == ws[i + 1]);
        assert(ws[0] != ws[i + 1]);
        if group_of(ps1, f).contains(ws[i + 1]) {
            assert(seq![w][choose|x: int| 0 <= x < 1 && seq![w][x] == ws[i + 1]] == ws[i + 1]);
        }
    }
    assert forall|i: int, j: int| 0 <= i < j < ws.skip(1).len() implies ws.skip(1)[i] != ws.skip(
        1,
    )[j] by {
        assert(ws.skip(1)[i] == ws[i + 1]);
        assert(ws.skip(1)[j] == ws[j + 1]);
    }
    lemma_fill_group(ps1, f, ws.skip(1));
}

/// The error type of [`Dict::write_to_binary_image`].  Producing an
/// in-memory image in fact always succeeds — the contract promises `Ok` —
/// and the error path stands only for callers that forward the image to a
/// fallible sink.
pub type EncodeImageError = Errorlike<CowStr>;

/// Emitted when a binary image cannot be decoded back into a dictionary.
pub type DecodeImageError = Errorlike<CowStr>;

/// The entry sequence described by a vector of plain fingerprint/word-list
/// pairs.
pub open spec fn plain_pairs(v: Seq<(String, Vec<String>)>) -> Seq<(Seq<char>, Seq<Seq<char>>)> {
    Seq::new(v.len(), |i: int| (v[i].0@, v[i].1.deep_view()))
}

/// The entry sequence described by a vector of fingerprint/word-vector
/// pairs.
pub open spec fn entry_pairs(v: Seq<(String, WordVec)>) -> Seq<(Seq<char>, Seq<Seq<char>>)> {
    Seq::new(v.len(), |i: int| (v[i].0@, v[i].1@))
}

/// The bytes that the binary encoding assigns to an entry sequence.
pub uninterp spec fn dict_image(ps: Seq<(Seq<char>, Seq<Seq<char>>)>) -> Seq<u8>;

/// Relies on bincode::encode_to_vec with the standard configuration: the
/// bytes produced for a value depend on that value alone, and encoding a
/// vector of string pairs into memory always succeeds — its source writes
/// through vector and size writers whose `write` cannot fail, and no other
/// error path exists for these value types.
#[verifier::external_body]
fn encode_pairs(pairs: &Vec<(String, Vec<String>)>) -> (r: Result<Vec<u8>, EncodeImageError>)
    ensures
        r is Ok,
        r->Ok_0@ == dict_image(plain_pairs(pairs@)),
{
    match bincode::encode_to_vec(pairs, bincode::config::standard()) {
        Ok(bytes) => Ok(bytes),
        Err(e) => Err(Errorlike(Cow::Owned(format!("{e}")))),
    }
}

/// Relies on bincode::decode_from_slice with the standard configuration,
/// which is documented to reverse bincode::encode_to_vec: decoding the bytes
/// that encode a value succeeds and yields that value back.
#[verifier::external_body]
fn decode_pairs(bytes: &[u8]) -> (r: Result<Vec<(String, Vec<String>)>, DecodeImageError>)
    ensures
        match r {
            Ok(pairs) => forall|q: Seq<(Seq<char>, Seq<Seq<char>>)>|
                bytes@ == dict_image(q) ==> plain_pairs(pairs@) == q,
            Err(_) => forall|q: Seq<(Seq<char>, Seq<Seq<char>>)>| bytes@ != dict_image(q),
        },
{
    match bincode::decode_from_slice::<Vec<(String, Vec<String>)>, _>(
        bytes,
        bincode::config::standard(),
    ) {
        Ok((pairs, _)) => Ok(pairs),
        Err(e) => Err(Errorlike(Cow::Owned(format!("{e}")))),
    }
}

/// An element-for-element copy of a vector of strings.
fn clone_string_vec(v: &Vec<String>) -> (r: Vec<String>)
    ensures
        r@ == v@,
{
    let mut r: Vec<String> = Vec::new();
    let mut i: usize = 0;
    while i < v.len()
        invariant
            i <= v@.len(),
            r@ == v@.take(i as int),
        decreases v@.len() - i,
    {
        r.push(v[i].clone());
        proof {
            assert(r@ =~= v@.take(i + 1));
        }
        i = i + 1;
    }
    proof {
        assert(v@.take(v@.len() as int) =~= v@);
    }
    r
}

/// A list ordered at every adjacent pair is ordered everywhere.
proof fn lemma_sorted_from_adjacent(s: Seq<Seq<char>>, i: int, j: int)
    requires
        forall|k: int| 0 <= k < s.len() - 1 ==> word_lt(#[trigger] s[k], s[k + 1]),
        0 <= i < j < s.len(),
    ensures
        word_lt(s[i], s[j]),
    decreases j - i,
{
    if j == i + 1 {
    } else {
        lemma_sorted_from_adjacent(s, i, j - 1);
        lemma_word_trans(s[i], s[j - 1], s[j]);
    }
}

/// Checks that a word list can stand as a dictionary group: at most 255
/// words, all nonempty, in strictly increasing order.
fn check_group(v: &Vec<String>) -> (r: bool)
    ensures
        r == (sorted_strict(v.deep_view()) && v.deep_view().len() <= 255 && (forall|k: int|
            0 <= k < v.deep_view().len() ==> (#[trigger] v.deep_view()[k]).len() > 0)),
{
    let ghost g = v.deep_view();
    if v.len() > 255 {
        return false;
    }
    let mut k: usize = 0;
    while k < v.len()
        invariant
            k <= g.len(),
            g == v.deep_view(),
            g.len() == v@.len(),
            forall|j: int| 0 <= j < k ==> (#[trigger] g[j]).len() > 0,
        decreases g.len() - k,
    {
        proof {
            assert(g[k as int] == v@[k as int]@);
        }
        if v[k].as_str().is_empty() {
            return false;
        }
        k = k + 1;
    }
    let mut k: usize = 1;
    while k < v.len()
        invariant
            v@.len() > 0 ==> 1 <= k,
            k <= g.len() || g.len() == 0,
            g == v.deep_view(),
            g.len() == v@.len(),
            forall|j: int| 0 <= j < k - 1 ==> word_lt(#[trigger] g[j], g[j + 1]),
        decreases g.len() - k,
    {
        proof {
            assert(g[k - 1] == v@[k - 1]@);
            assert(g[k as int] == v@[k as int]@);
        }
        if !word_less(v[k - 1].as_str(), v[k].as_str()) {
            proof {
                assert(!word_lt(g[k - 1], g[k as int]));
            }
            return false;
        }
        k = k + 1;
    }
    proof {
        assert(sorted_strict(g)) by {
            assert forall|i: int, j: int| 0 <= i < j < g.len() implies word_lt(g[i], g[j]) by {
                lemma_sorted_from_adjacent(g, i, j);
            }
        }
    }
    true
}

impl Dict {
    /// Builds a dictionary from plain fingerprint/word-list pairs, checking
    /// that they satisfy the dictionary's invariant; the groups keep exactly
    /// the given order.
    pub fn build_checked(pairs: Vec<(String, Vec<String>)>) -> (r: Option<Dict>)
        ensures
            match r {
                Some(d) => d.wf() && d.pairs() == plain_pairs(pairs@),
                None => !dict_pairs_wf(plain_pairs(pairs@)),
            },
    {
        let ghost ps = plain_pairs(pairs@);
        let n = pairs.len();
        let mut i: usize = 0;
        while i < n
            invariant
                i <= n,
                ps == plain_pairs(pairs@),
                n == pairs@.len(),
                n == ps.len(),
                forall|a: int| 0 <= a < i ==> (#[trigger] ps[a].0).len() > 0,
                forall|a: int|
                    0 <= a < i ==> sorted_strict(#[trigger] ps[a].1) && ps[a].1.len() <= 255,
                forall|a: int, k: int|
                    0 <= a < i && 0 <= k < ps[a].1.len() ==> (#[trigger] ps[a].1[k]).len() > 0,
                forall|a: int, b: int| 0 <= a < b < i ==> ps[a].0 != ps[b].0,
            decreases n - i,
        {
            proof {
                assert(ps[i as int].0 == pairs@[i as int].0@);
                assert(ps[i as int].1 == pairs@[i as int].1.deep_view());
            }
            if pairs[i].0.as_str().is_empty() {
                return None;
            }
            if !check_group(&pairs[i].1) {
                return None;
            }
            let mut j: usize = 0;
            while j < i
                invariant
                    j <= i,
                    i < n,
                    ps == plain_pairs(pairs@),
                    n == pairs@.len(),
                    n == ps.len(),
                    forall|b: int| 0 <= b < j ==> ps[b].0 != ps[i as int].0,
                decreases i - j,
            {
                proof {
                    assert(ps[j as int].0 == pairs@[j as int].0@);
                    assert(ps[i as int].0 == pairs@[i as int].0@);
                }
                if str_eq(pairs[j].0.as_str(), pairs[i].0.as_str()) {
                    return None;
                }
                j = j + 1;
            }
            i = i + 1;
        }
        proof {
            assert(dict_pairs_wf(ps));
        }
        let mut entries: Vec<(String, WordVec)> = Vec::new();
        let mut i: usize = 0;
        while i < n
            invariant
                i <= n,
                ps == plain_pairs(pairs@),
                n == pairs@.len(),
                n == ps.len(),
                dict_pairs_wf(ps),
                entry_pairs(entries@) == ps.take(i as int),
            decreases n - i,
        {
            let key = pairs[i].0.clone();
            let words = clone_string_vec(&pairs[i].1);
            proof {
                assert(words.deep_view() =~~= pairs@[i as int].1.deep_view());
            }
            let ghost prev = entries@;
            entries.push((key, WordVec(words)));
            proof {
                let es = entry_pairs(entries@);
                let tk = ps.take(i + 1);
                assert(entry_pairs(prev) == ps.take(i as int));
                assert(entry_pairs(prev).len() == prev.len());
                assert(ps.take(i as int).len() == i as int);
                assert(prev.len() == i as int);
                assert(entries@.len() == i + 1);
                assert forall|j: int| 0 <= j < es.len() implies es[j] == tk[j] by {
                    if j < i {
                        assert(entries@[j] == prev[j]);
                        assert(entry_pairs(prev)[j] == ps.take(i as int)[j]);
                    } else {
                        assert(entries@[j].1@ == pairs@[j].1.deep_view());
                    }
                }
                assert(es =~= tk);
            }
            i = i + 1;
        }
        let d = Dict { entries };
        proof {
            assert(ps.take(n as int) =~= ps);
            assert(d.pairs() =~~= ps);
        }
        Some(d)
    }

    /// Builds a dictionary from fingerprint/word-vector pairs, checking that
    /// they satisfy the dictionary's invariant.
    pub fn from_entries(entries: Vec<(String, WordVec)>) -> (r: Option<Dict>)
        ensures
            match r {
                Some(d) => d.wf() && d.pairs() == entry_pairs(entries@),
                None => !dict_pairs_wf(entry_pairs(entries@)),
            },
    {
        let mut plain: Vec<(String, Vec<String>)> = Vec::new();
        let mut i: usize = 0;
        while i < entries.len()
            invariant
                i <= entries@.len(),
                plain_pairs(plain@) == entry_pairs(entries@).take(i as int),
            decreases entries@.len() - i,
        {
            let key = entries[i].0.clone();
            let words = clone_string_vec(&entries[i].1 .0);
            proof {
                assert(words.deep_view() =~~= entries@[i as int].1@);
            }
            let ghost prev = plain@;
            plain.push((key, words));
            proof {
                let es = plain_pairs(plain@);
                let tk = entry_pairs(entries@).take(i + 1);
                assert(plain_pairs(prev) == entry_pairs(entries@).take(i as int));
                assert(plain_pairs(prev).len() == prev.len());
                assert(entry_pairs(entries@).take(i as int).len() == i as int);
                assert(prev.len() == i as int);
                assert(plain@.len() == i + 1);
                assert forall|j: int| 0 <= j < es.len() implies es[j] == tk[j] by {
                    if j < i {
                        assert(plain@[j] == prev[j]);
                        assert(plain_pairs(prev)[j] == entry_pairs(entries@).take(i as int)[j]);
                    } else {
                        assert(plain@[j].1.deep_view() == entries@[j].1@);
                    }
                }
                assert(es =~= tk);
            }
            i = i + 1;
        }
        proof {
            assert(entry_pairs(entries@).take(entries@.len() as int) =~= entry_pairs(entries@));
        }
        Self::build_checked(plain)
    }

    fn to_plain(&self) -> (r: Vec<(String, Vec<String>)>)
        ensures
            plain_pairs(r@) == self.pairs(),
    {
        let mut plain: Vec<(String, Vec<String>)> = Vec::new();
        let mut i: usize = 0;
        while i < self.entries.len()
            invariant
                i <= self.entries@.len(),
                self.pairs().len() == self.entries@.len(),
                plain_pairs(plain@) == self.pairs().take(i as int),
            decreases self.entries@.len() - i,
        {
            let key = self.entries[i].0.clone();
            let words = clone_string_vec(&self.entries[i].1 .0);
            proof {
                assert(words.deep_view() =~~= self.entries@[i as int].1@);
                assert(self.pairs()[i as int].1 == self.entries@[i as int].1@);
            }
            let ghost prev = plain@;
            plain.push((key, words));
            proof {
                let es = plain_pairs(plain@);
                let tk = self.pairs().take(i + 1);
                assert(plain_pairs(prev) == self.pairs().take(i as int));
                assert(plain_pairs(prev).len() == prev.len());
                assert(self.pairs().take(i as int).len() == i as int);
                assert(prev.len() == i as int);
                assert(plain@.len() == i + 1);
                assert forall|j: int| 0 <= j < es.len() implies es[j] == tk[j] by {
                    if j < i {
                        assert(plain@[j] == prev[j]);
                        assert(plain_pairs(prev)[j] == self.pairs().take(i as int)[j]);
                    } else {
                        assert(plain@[j].1.deep_view() == self.entries@[j].1@);
                    }
                }
                assert(es =~= tk);
            }
            i = i + 1;
        }
        proof {
            assert(self.pairs().take(self.pairs().len() as int) =~= self.pairs());
        }
        plain
    }

    /// Serializes the dictionary to its binary image: a self-describing,
    /// length-prefixed encoding of the fingerprint/word-list pairs that
    /// preserves their exact order.  Serializing into memory always
    /// succeeds; the `Result` stands only so that callers writing the image
    /// onward keep one error path.
    pub fn write_to_binary_image(&self) -> (r: Result<Vec<u8>, EncodeImageError>)
        ensures
            r is Ok,
            r->Ok_0@ == dict_image(self.pairs()),
    {
        let plain = self.to_plain();
        encode_pairs(&plain)
    }

    /// Loads a dictionary back from a binary image.
    ///
    /// Reading the image written for a well-formed dictionary always
    /// succeeds and restores its groups, contents and order exactly; bytes
    /// that are no such image are rejected.
    pub fn read_from_binary_image(bytes: &[u8]) -> (r: Result<Dict, DecodeImageError>)
        ensures
            match r {
                Ok(d) => d.wf() && forall|q: Seq<(Seq<char>, Seq<Seq<char>>)>|
                    bytes@ == dict_image(q) ==> q == d.pairs(),
                Err(_) => forall|q: Seq<(Seq<char>, Seq<Seq<char>>)>|
                    dict_pairs_wf(q) ==> bytes@ != dict_image(q),
            },
    {
        match decode_pairs(bytes) {
            Err(e) => Err(e),
            Ok(pairs) => {
                let ghost decoded = plain_pairs(pairs@);
                match Self::build_checked(pairs) {
                    Some(d) => Ok(d),
                    None => {
                        proof {
                            assert forall|q: Seq<(Seq<char>, Seq<Seq<char>>)>|
                                dict_pairs_wf(q) implies bytes@ != dict_image(q) by {
                                if bytes@ == dict_image(q) {
                                    assert(decoded == q);
                                }
                            }
                        }
                        Err(Errorlike::borrowed("binary image is not a valid dictionary"))
                    },
                }
            },
        }
    }
}

/// Emitted when reading a dictionary from a wordlist text goes wrong.
#[derive(Debug)]
pub enum ReadFromTextFileError {
    /// An I/O failure reported by the caller that read the text.
    Io(std::io::Error),
    /// A fingerprint group overflowed while the words were collated.
    DictOverflow(OverflowError),
}

#[verifier::external_type_specification]
#[verifier::external_body]
pub struct ExIoError(std::io::Error);

impl vstd::std_specs::convert::FromSpecImpl<std::io::Error> for ReadFromTextFileError {
    open spec fn obeys_from_spec() -> bool {
        true
    }

    open spec fn from_spec(t: std::io::Error) -> Self {
        ReadFromTextFileError::Io(t)
    }
}

impl From<std::io::Error> for ReadFromTextFileError {
    fn from(error: std::io::Error) -> (r: Self) {
        ReadFromTextFileError::Io(error)
    }
}

impl vstd::std_specs::convert::FromSpecImpl<OverflowError> for ReadFromTextFileError {
    open spec fn obeys_from_spec() -> bool {
        true
    }

    open spec fn from_spec(t: OverflowError) -> Self {
        ReadFromTextFileError::DictOverflow(t)
    }
}

impl From<OverflowError> for ReadFromTextFileError {
    fn from(error: OverflowError) -> (r: Self) {
        ReadFromTextFileError::DictOverflow(error)
    }
}

impl Dict {
    /// Builds a dictionary from the text of a wordlist: the text is split
    /// into whitespace-delimited tokens, and every token is collated.
    pub fn read_from_text_file(text: &str) -> (r: Result<Dict, ReadFromTextFileError>)
        ensures
            match r {
                Ok(d) => d.wf() && spec_populate(
                    Seq::<(Seq<char>, Seq<Seq<char>>)>::empty(),
                    tokens_of(text@),
                ) == Ok::<_, Seq<(Seq<char>, Seq<Seq<char>>)>>(d.pairs()),
                Err(e) => match e {
                    ReadFromTextFileError::DictOverflow(oe) => spec_populate(
                        Seq::<(Seq<char>, Seq<Seq<char>>)>::empty(),
                        tokens_of(text@),
                    ) is Err && oe.0@ == "too many words in vector"@,
                    ReadFromTextFileError::Io(_) => false,
                },
            },
    {
        let tokens = split_whitespace_tokens(text);
        match Dict::new(tokens) {
            Ok(d) => Ok(d),
            Err(e) => Err(ReadFromTextFileError::DictOverflow(e)),
        }
    }
}

} // verus!
