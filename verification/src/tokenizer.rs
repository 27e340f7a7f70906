//! A text tokenizer: an insertion-ordered vocabulary of unique normalized
//! words, each mapped to a dense integer id assigned on first sight.
//!
//! The vocabulary is kept in an `indexmap::IndexSet`, whose contents are
//! modelled for the proofs as the ordered sequence of its distinct words.

use vstd::prelude::*;
use vstd::string::StrSliceExecFns;
use crate::text::{collapse_ws, normalize_spec, pad_chars, split_words, trim_ws, words_of};

verus! {

#[verifier::external_type_specification]
#[verifier::external_body]
#[verifier::reject_recursive_types(T)]
#[verifier::reject_recursive_types(S)]
pub struct ExIndexSet<T, S>(indexmap::IndexSet<T, S>);

/// The words held by a vocabulary set, in insertion order.
pub uninterp spec fn vocab_words(d: indexmap::IndexSet<Vec<char>, std::hash::RandomState>) -> Seq<
    Seq<char>,
>;

/// Relies on indexmap's IndexSet::new: creates an empty set.
#[verifier::external_body]
fn vocab_new() -> (d: indexmap::IndexSet<Vec<char>, std::hash::RandomState>)
    ensures
        vocab_words(d) == Seq::<Seq<char>>::empty(),
{
    indexmap::IndexSet::new()
}

/// Relies on indexmap's IndexSet::insert_full: when an equal value is
/// already present it returns that value's index and leaves the set
/// unchanged; otherwise it appends the new value at the end and returns
/// its index.
#[verifier::external_body]
fn vocab_insert_full(
    d: &mut indexmap::IndexSet<Vec<char>, std::hash::RandomState>,
    w: &Vec<char>,
) -> (r: usize)
    ensures
        vocab_words(*old(d)).contains(w@) ==> {
            &&& vocab_words(*final(d)) == vocab_words(*old(d))
            &&& r < vocab_words(*old(d)).len()
            &&& vocab_words(*old(d))[r as int] == w@
        },
        !vocab_words(*old(d)).contains(w@) ==> {
            &&& vocab_words(*final(d)) == vocab_words(*old(d)).push(w@)
            &&& r == vocab_words(*old(d)).len()
        },
{
    d.insert_full(w.clone()).0
}

/// Relies on indexmap's IndexSet::get_index_of: the index of an equal
/// value, or `None` when no equal value is present.
#[verifier::external_body]
fn vocab_index_of(
    d: &indexmap::IndexSet<Vec<char>, std::hash::RandomState>,
    w: &Vec<char>,
) -> (r: Option<usize>)
    ensures
        vocab_words(*d).contains(w@) ==> match r {
            Some(i) => i < vocab_words(*d).len() && vocab_words(*d)[i as int] == w@,
            None => false,
        },
        !vocab_words(*d).contains(w@) ==> r is None,
{
    d.get_index_of(w)
}

/// Relies on indexmap's IndexSet::len: the number of values held.
#[verifier::external_body]
fn vocab_len(d: &indexmap::IndexSet<Vec<char>, std::hash::RandomState>) -> (n: usize)
    ensures
        n == vocab_words(*d).len(),
{
    d.len()
}

/// Relies on indexmap's IndexSet::get_index: the value at an index, in
/// insertion order, or `None` past the end.
#[verifier::external_body]
fn vocab_get_index(
    d: &indexmap::IndexSet<Vec<char>, std::hash::RandomState>,
    i: usize,
) -> (r: Option<&Vec<char>>)
    ensures
        i < vocab_words(*d).len() ==> match r {
            Some(w) => w@ == vocab_words(*d)[i as int],
            None => false,
        },
        i >= vocab_words(*d).len() ==> r is None,
{
    d.get_index(i)
}

/// Relies on std's FromIterator for String: collects the characters in
/// order.
#[verifier::external_body]
fn chars_to_string(v: &Vec<char>) -> (s: String)
    ensures
        s@ == v@,
{
    v.iter().collect()
}

/// The characters of a string slice, in order.
fn str_to_chars(s: &str) -> (v: Vec<char>)
    ensures
        v@ == s@,
{
    let n = s.unicode_len();
    let mut v: Vec<char> = Vec::new();
    let mut i: usize = 0;
    while i < n
        invariant
            0 <= i <= n,
            n == s@.len(),
            v@ == s@.take(i as int),
        decreases n - i,
    {
        let c = s.get_char(i);
        v.push(c);
        proof {
            assert(s@.take(i + 1) =~= s@.take(i as int).push(s@[i as int]));
        }
        i = i + 1;
    }
    proof {
        assert(s@.take(n as int) =~= s@);
    }
    v
}

/// The vocabulary after looking one word up or inserting it.
pub open spec fn dict_after(d: Seq<Seq<char>>, w: Seq<char>) -> Seq<Seq<char>> {
    if d.contains(w) {
        d
    } else {
        d.push(w)
    }
}

/// The id a word receives against a vocabulary: its index when present,
/// the next fresh id otherwise.
pub open spec fn id_of(d: Seq<Seq<char>>, w: Seq<char>) -> int {
    if d.contains(w) {
        d.index_of(w)
    } else {
        d.len() as int
    }
}

/// The vocabulary after fitting a sequence of words in order.
pub open spec fn fit_dict(d: Seq<Seq<char>>, ws: Seq<Seq<char>>) -> Seq<Seq<char>>
    decreases ws.len(),
{
    if ws.len() == 0 {
        d
    } else {
        fit_dict(dict_after(d, ws[0]), ws.drop_first())
    }
}

/// The ids assigned while fitting a sequence of words in order.
pub open spec fn fit_ids(d: Seq<Seq<char>>, ws: Seq<Seq<char>>) -> Seq<int>
    decreases ws.len(),
{
    if ws.len() == 0 {
        Seq::empty()
    } else {
        seq![id_of(d, ws[0])] + fit_ids(dict_after(d, ws[0]), ws.drop_first())
    }
}

/// The ids of the words found in a frozen vocabulary; absent words are
/// dropped.
pub open spec fn lookup_ids(d: Seq<Seq<char>>, ws: Seq<Seq<char>>) -> Seq<int>
    decreases ws.len(),
{
    if ws.len() == 0 {
        Seq::empty()
    } else if d.contains(ws[0]) {
        seq![id_of(d, ws[0])] + lookup_ids(d, ws.drop_first())
    } else {
        lookup_ids(d, ws.drop_first())
    }
}

/// No word occurs twice in the vocabulary.
pub open spec fn distinct_words(d: Seq<Seq<char>>) -> bool {
    forall|i: int, j: int| 0 <= i < j < d.len() ==> d[i] != d[j]
}

/// For a vocabulary without duplicates, a word found at an index has that
/// index as its id.
proof fn lemma_id_at_index(d: Seq<Seq<char>>, w: Seq<char>, i: int)
    requires
        distinct_words(d),
        0 <= i < d.len(),
        d[i] == w,
    ensures
        d.contains(w),
        id_of(d, w) == i,
{
    assert(d.contains(w));
    let c = d.index_of(w);
    assert(d[c] == w);
}

/// Fitting only appends: the fitted vocabulary keeps every existing word
/// at its index, and stays free of duplicates.
proof fn lemma_fit_dict_extends(d: Seq<Seq<char>>, ws: Seq<Seq<char>>)
    requires
        distinct_words(d),
    ensures
        d.len() <= fit_dict(d, ws).len(),
        forall|i: int| 0 <= i < d.len() ==> fit_dict(d, ws)[i] == d[i],
        distinct_words(fit_dict(d, ws)),
    decreases ws.len(),
{
    if ws.len() > 0 {
        let d1 = dict_after(d, ws[0]);
        assert(distinct_words(d1) && d.len() <= d1.len() && forall|i: int|
            0 <= i < d.len() ==> d1[i] == d[i]) by {
            if !d.contains(ws[0]) {
                assert forall|a: int, b: int| 0 <= a < b < d1.len() implies d1[a] != d1[b] by {
                    if b == d.len() as int {
                        if d[a] == ws[0] {
                            assert(d.contains(ws[0]));
                        }
                    }
                }
            }
        }
        lemma_fit_dict_extends(d1, ws.drop_first());
    }
}

/// Tokenize agrees with fit: after fitting a word sequence, looking the
/// same words up drops nothing and returns exactly the ids fit assigned,
/// in the same order.
pub proof fn lemma_tokenize_after_fit(d: Seq<Seq<char>>, ws: Seq<Seq<char>>)
    requires
        distinct_words(d),
    ensures
        lookup_ids(fit_dict(d, ws), ws) == fit_ids(d, ws),
    decreases ws.len(),
{
    if ws.len() > 0 {
        let w = ws[0];
        let d1 = dict_after(d, w);
        let fd = fit_dict(d, ws);
        assert(fd == fit_dict(d1, ws.drop_first()));
        assert(distinct_words(d1)) by {
            lemma_fit_dict_extends(d, seq![w]);
            assert(fit_dict(d, seq![w]) == fit_dict(d1, seq![w].drop_first()));
            assert(seq![w].drop_first() =~= Seq::<Seq<char>>::empty());
        }
        lemma_fit_dict_extends(d1, ws.drop_first());
        let at: int = if d.contains(w) {
            d.index_of(w)
        } else {
            d.len() as int
        };
        assert(d1[at] == w);
        assert(fd[at] == w);
        lemma_id_at_index(fd, w, at);
        lemma_id_at_index(d1, w, at);
        assert(id_of(d, w) == at);
        lemma_tokenize_after_fit(d1, ws.drop_first());
        assert(lookup_ids(fd, ws) == seq![id_of(fd, w)] + lookup_ids(fd, ws.drop_first()));
        assert(fit_ids(d, ws) == seq![id_of(d, w)] + fit_ids(d1, ws.drop_first()));
    }
}

/// The same consistency stated over a document: after fitting a text, a
/// lookup of that same text against the grown vocabulary drops no word
/// and returns exactly the ids fit assigned, in the same order.
pub proof fn lemma_tokenize_matches_fit(d0: Seq<Seq<char>>, punct: Seq<char>, text: Seq<char>)
    requires
        distinct_words(d0),
    ensures
        lookup_ids(
            fit_dict(d0, words_of(normalize_spec(punct, text))),
            words_of(normalize_spec(punct, text)),
        ) == fit_ids(d0, words_of(normalize_spec(punct, text))),
{
    lemma_tokenize_after_fit(d0, words_of(normalize_spec(punct, text)));
}

/// Vocabulary determinism: the words and ids produced by fitting are a
/// function of the starting vocabulary and the word sequence alone, so
/// two runs over the same ordered documents from equal vocabularies
/// assign identical ids.
pub proof fn lemma_vocabulary_deterministic(
    d1: Seq<Seq<char>>,
    d2: Seq<Seq<char>>,
    ws: Seq<Seq<char>>,
)
    requires
        d1 == d2,
    ensures
        fit_dict(d1, ws) == fit_dict(d2, ws),
        fit_ids(d1, ws) == fit_ids(d2, ws),
{
}

/// A text tokenizer: a vocabulary of unique words and the punctuation
/// characters its normalization separates out.
pub struct Tokenizer {
    /// The vocabulary, in insertion order.
    dict: indexmap::IndexSet<Vec<char>, std::hash::RandomState>,
    /// The set of punctuation characters to normalize.
    punct: Vec<char>,
}

impl Tokenizer {
    /// The vocabulary words, in id order.
    pub closed spec fn words(&self) -> Seq<Seq<char>> {
        vocab_words(self.dict)
    }

    /// The configured punctuation characters.
    pub closed spec fn punct_chars(&self) -> Seq<char> {
        self.punct@
    }

    /// Ids are a bijection: every word is held once.
    pub open spec fn wf(&self) -> bool {
        distinct_words(self.words())
    }

    /// A fresh tokenizer with an empty vocabulary; `punct` gives the
    /// punctuation characters to separate out.
    pub fn new(punct: &str) -> (t: Self)
        ensures
            t.wf(),
            t.words() == Seq::<Seq<char>>::empty(),
            t.punct_chars() == punct@,
    {
        Tokenizer { dict: vocab_new(), punct: str_to_chars(punct) }
    }

    /// Normalizes punctuation and whitespace in the passed-in text.
    pub fn normalize(&self, text: &str) -> (r: String)
        ensures
            r@ == normalize_spec(self.punct_chars(), text@),
    {
        let chars = str_to_chars(text);
        let padded = pad_chars(&self.punct, &chars);
        let collapsed = collapse_ws(&padded);
        let trimmed = trim_ws(&collapsed);
        chars_to_string(&trimmed)
    }

    /// Fits the tokenizer on the text: every word of the normalized text
    /// is looked up or appended to the vocabulary, and its id is returned,
    /// in text order.
    pub fn fit(&mut self, text: &str) -> (r: Vec<usize>)
        requires
            old(self).wf(),
        ensures
            final(self).wf(),
            final(self).punct_chars() == old(self).punct_chars(),
            final(self).words() == fit_dict(
                old(self).words(),
                words_of(normalize_spec(old(self).punct_chars(), text@)),
            ),
            r@.map_values(|u: usize| u as int) == fit_ids(
                old(self).words(),
                words_of(normalize_spec(old(self).punct_chars(), text@)),
            ),
    {
        let chars = str_to_chars(text);
        let padded = pad_chars(&self.punct, &chars);
        let collapsed = collapse_ws(&padded);
        let trimmed = trim_ws(&collapsed);
        let ws = split_words(&trimmed);
        let ghost wseq = ws.deep_view();
        let ghost d0 = self.words();
        let mut r: Vec<usize> = Vec::new();
        let mut j: usize = 0;
        proof {
            assert(wseq.skip(0) =~= wseq);
            assert(r@.map_values(|u: usize| u as int) =~= Seq::<int>::empty());
            assert(r@.map_values(|u: usize| u as int) + fit_ids(d0, wseq) =~= fit_ids(d0, wseq));
        }
        while j < ws.len()
            invariant
                0 <= j <= wseq.len(),
                wseq.len() == ws@.len(),
                wseq == ws.deep_view(),
                self.punct == old(self).punct,
                distinct_words(self.words()),
                fit_dict(self.words(), wseq.skip(j as int)) == fit_dict(d0, wseq),
                r@.map_values(|u: usize| u as int) + fit_ids(self.words(), wseq.skip(j as int))
                    == fit_ids(d0, wseq),
            decreases wseq.len() - j,
        {
            let ghost cur = self.words();
            let ghost rest = wseq.skip(j as int);
            proof {
                assert(rest[0] == wseq[j as int]);
                assert(ws@[j as int].deep_view() == wseq[j as int]);
                assert(ws@[j as int]@ =~= wseq[j as int]);
            }
            let id = vocab_insert_full(&mut self.dict, &ws[j]);
            proof {
                let w = wseq[j as int];
                if cur.contains(w) {
                    let found = id as int;
                    assert(cur[found] == w);
                    let chosen = cur.index_of(w);
                    assert(cur[chosen] == w);
                    assert(found == chosen);
                    assert(self.words() == dict_after(cur, w));
                } else {
                    assert(self.words() == dict_after(cur, w));
                    assert forall|a: int, b: int|
                        0 <= a < b < self.words().len() implies self.words()[a]
                        != self.words()[b] by {
                        if b == cur.len() as int {
                            assert(self.words()[a] == cur[a]);
                            if cur[a] == w {
                                assert(cur.contains(w));
                            }
                        }
                    }
                }
                assert(id as int == id_of(cur, w));
                assert(rest.drop_first() =~= wseq.skip(j + 1));
                assert(fit_ids(cur, rest) == seq![id_of(cur, w)] + fit_ids(
                    dict_after(cur, w),
                    rest.drop_first(),
                ));
            }
            let ghost prev_ids = r@.map_values(|u: usize| u as int);
            r.push(id);
            proof {
                assert(r@.map_values(|u: usize| u as int) =~= prev_ids + seq![id as int]);
                assert((prev_ids + seq![id as int]) + fit_ids(self.words(), wseq.skip(j + 1)) =~= prev_ids
                    + (seq![id as int] + fit_ids(self.words(), wseq.skip(j + 1))));
            }
            j = j + 1;
        }
        proof {
            assert(wseq.skip(wseq.len() as int) =~= Seq::<Seq<char>>::empty());
        }
        r
    }

    /// Tokenizes the text against the frozen vocabulary: words not in the
    /// vocabulary are dropped, order is preserved.
    pub fn tokenize(&self, text: &str) -> (r: Vec<usize>)
        requires
            self.wf(),
        ensures
            r@.map_values(|u: usize| u as int) == lookup_ids(
                self.words(),
                words_of(normalize_spec(self.punct_chars(), text@)),
            ),
    {
        let chars = str_to_chars(text);
        let padded = pad_chars(&self.punct, &chars);
        let collapsed = collapse_ws(&padded);
        let trimmed = trim_ws(&collapsed);
        let ws = split_words(&trimmed);
        let ghost wseq = ws.deep_view();
        let ghost d = self.words();
        let mut r: Vec<usize> = Vec::new();
        let mut j: usize = 0;
        proof {
            assert(wseq.skip(0) =~= wseq);
            assert(r@.map_values(|u: usize| u as int) =~= Seq::<int>::empty());
            assert(r@.map_values(|u: usize| u as int) + lookup_ids(d, wseq) =~= lookup_ids(
                d,
                wseq,
            ));
        }
        while j < ws.len()
            invariant
                0 <= j <= wseq.len(),
                wseq.len() == ws@.len(),
                wseq == ws.deep_view(),
                d == self.words(),
                distinct_words(d),
                r@.map_values(|u: usize| u as int) + lookup_ids(d, wseq.skip(j as int))
                    == lookup_ids(d, wseq),
            decreases wseq.len() - j,
        {
            let ghost rest = wseq.skip(j as int);
            proof {
                assert(rest[0] == wseq[j as int]);
                assert(ws@[j as int]@ =~= wseq[j as int]);
                assert(rest.drop_first() =~= wseq.skip(j + 1));
            }
            let found = vocab_index_of(&self.dict, &ws[j]);
            match found {
                Some(id) => {
                    proof {
                        let w = wseq[j as int];
                        assert(d[id as int] == w);
                        assert(d.contains(w)) by {
                            assert(d[id as int] == w);
                        }
                        let chosen = d.index_of(w);
                        assert(d[chosen] == w);
                        assert(id as int == id_of(d, w));
                    }
                    let ghost prev_ids = r@.map_values(|u: usize| u as int);
                    r.push(id);
                    proof {
                        assert(r@.map_values(|u: usize| u as int) =~= prev_ids + seq![id as int]);
                        assert((prev_ids + seq![id as int]) + lookup_ids(d, wseq.skip(j + 1)) =~= prev_ids
                            + (seq![id as int] + lookup_ids(d, wseq.skip(j + 1))));
                    }
                },
                None => {
                    proof {
                        let w = wseq[j as int];
                        assert(!d.contains(w));
                    }
                },
            }
            j = j + 1;
        }
        proof {
            assert(wseq.skip(wseq.len() as int) =~= Seq::<Seq<char>>::empty());
        }
        r
    }

    /// Tokenizes the text and returns the distinct ids, sorted ascending:
    /// the presence-style feature vector.
    pub fn tokenize_sparse(&self, text: &str) -> (r: Vec<usize>)
        requires
            self.wf(),
        ensures
            forall|i: int, j: int| 0 <= i < j < r@.len() ==> r@[i] < r@[j],
            r@.map_values(|u: usize| u as int).to_set() == lookup_ids(
                self.words(),
                words_of(normalize_spec(self.punct_chars(), text@)),
            ).to_set(),
    {
        let base = self.tokenize(text);
        let ghost ids = lookup_ids(
            self.words(),
            words_of(normalize_spec(self.punct_chars(), text@)),
        );
        let mut r: Vec<usize> = Vec::new();
        let mut k: usize = 0;
        proof {
            assert(base@.take(0) =~= Seq::<usize>::empty());
        }
        while k < base.len()
            invariant
                0 <= k <= base@.len(),
                base@.map_values(|u: usize| u as int) == ids,
                forall|i: int, j: int| 0 <= i < j < r@.len() ==> r@[i] < r@[j],
                forall|x: usize| r@.contains(x) <==> base@.take(k as int).contains(x),
            decreases base@.len() - k,
        {
            let ghost old_r = r@;
            let v = base[k];
            let mut p: usize = 0;
            let mut skip: bool = false;
            while p < r.len() && !skip && r[p] < v
                invariant
                    0 <= p <= r@.len(),
                    forall|i: int, j: int| 0 <= i < j < r@.len() ==> r@[i] < r@[j],
                    forall|j: int| 0 <= j < p ==> r@[j] < v,
                    !skip,
                decreases r@.len() - p,
            {
                p = p + 1;
            }
            if p < r.len() && r[p] == v {
                skip = true;
            }
            if !skip {
                r.insert(p, v);
                proof {
                    assert forall|i: int, j: int|
                        0 <= i < j < r@.len() implies r@[i] < r@[j] by {
                        if j < p {
                        } else if i < p && j == p {
                            assert(r@[j] == v);
                            assert(r@[i] == old_r[i]);
                        } else if i == p {
                            assert(r@[i] == v);
                            assert(r@[j] == old_r[j - 1]);
                            assert(old_r[p as int] != v);
                            if p < old_r.len() {
                                assert(v <= old_r[p as int]);
                            }
                        } else if i > p {
                            assert(r@[i] == old_r[i - 1]);
                            assert(r@[j] == old_r[j - 1]);
                        } else {
                            assert(i < p && j > p);
                            assert(r@[i] == old_r[i]);
                            assert(r@[j] == old_r[j - 1]);
                            if p < old_r.len() {
                                assert(v <= old_r[p as int]);
                            }
                        }
                    }
                }
            }
            proof {
                assert(base@.take(k + 1) =~= base@.take(k as int).push(base@[k as int]));
                let ghost pre = base@.take(k as int);
                let ghost ext = base@.take(k + 1);
                assert forall|x: usize| r@.contains(x) <==> ext.contains(x) by {
                    if r@.contains(x) {
                        let w = choose|w: int| 0 <= w < r@.len() && r@[w] == x;
                        if !skip && w == p {
                            assert(ext[k as int] == x);
                        } else {
                            let w0: int = if !skip && w > p {
                                w - 1
                            } else {
                                w
                            };
                            assert(old_r[w0] == x);
                            assert(old_r.contains(x));
                            let u = choose|u: int| 0 <= u < pre.len() && pre[u] == x;
                            assert(ext[u] == x);
                        }
                    }
                    if ext.contains(x) {
                        let u = choose|u: int| 0 <= u < ext.len() && ext[u] == x;
                        if u < k {
                            assert(pre[u] == x);
                            assert(pre.contains(x));
                            assert(old_r.contains(x));
                            let w = choose|w: int| 0 <= w < old_r.len() && old_r[w] == x;
                            if !skip && w >= p {
                                assert(r@[w + 1] == x);
                            } else {
                                assert(r@[w] == x);
                            }
                        } else {
                            assert(x == v);
                            if skip {
                                assert(old_r[p as int] == v);
                                assert(r@[p as int] == v);
                            } else {
                                assert(r@[p as int] == v);
                            }
                        }
                    }
                }
            }
            k = k + 1;
        }
        proof {
            assert(base@.take(base@.len() as int) =~= base@);
            let rm = r@.map_values(|u: usize| u as int);
            let bm = base@.map_values(|u: usize| u as int);
            assert forall|y: int| rm.to_set().contains(y) implies ids.to_set().contains(y) by {
                let w = choose|w: int| 0 <= w < rm.len() && rm[w] == y;
                assert(r@[w] as int == y);
                assert(r@.contains(r@[w]));
                let u = choose|u: int| 0 <= u < base@.len() && base@[u] == r@[w];
                assert(bm[u] == y);
                assert(ids.contains(y));
            }
            assert forall|y: int| ids.to_set().contains(y) implies rm.to_set().contains(y) by {
                let u = choose|u: int| 0 <= u < bm.len() && bm[u] == y;
                assert(base@[u] as int == y);
                assert(base@.contains(base@[u]));
                assert(base@.take(k as int).contains(base@[u]));
                assert(r@.contains(base@[u]));
                let w = choose|w: int| 0 <= w < r@.len() && r@[w] == base@[u];
                assert(rm[w] == y);
            }
            assert(rm.to_set() =~= ids.to_set());
        }
        r
    }

    /// The word behind an id, while it exists.
    pub fn word_at(&self, id: usize) -> (r: Option<String>)
        ensures
            id < self.words().len() ==> match r {
                Some(w) => w@ == self.words()[id as int],
                None => false,
            },
            id >= self.words().len() ==> r is None,
    {
        match vocab_get_index(&self.dict, id) {
            Some(w) => Some(chars_to_string(w)),
            None => None,
        }
    }

    /// Appends a word to the vocabulary as it stands, without any
    /// normalization: the building block for restoring a saved vocabulary.
    pub fn insert_word(&mut self, word: &str) -> (r: usize)
        requires
            old(self).wf(),
        ensures
            final(self).wf(),
            final(self).punct_chars() == old(self).punct_chars(),
            final(self).words() == dict_after(old(self).words(), word@),
            r == id_of(old(self).words(), word@),
    {
        let ghost cur = self.words();
        let w = str_to_chars(word);
        let id = vocab_insert_full(&mut self.dict, &w);
        proof {
            if cur.contains(word@) {
                let found = id as int;
                assert(cur[found] == word@);
                let chosen = cur.index_of(word@);
                assert(cur[chosen] == word@);
            } else {
                assert forall|a: int, b: int|
                    0 <= a < b < self.words().len() implies self.words()[a] != self.words()[b] by {
                    if b == cur.len() as int {
                        assert(self.words()[a] == cur[a]);
                        if cur[a] == word@ {
                            assert(cur.contains(word@));
                        }
                    }
                }
            }
        }
        id
    }

    /// The punctuation configuration, as a string.
    pub fn punct_config(&self) -> (r: String)
        ensures
            r@ == self.punct_chars(),
    {
        chars_to_string(&self.punct)
    }

    /// The total count of tokens in the vocabulary.
    pub fn token_count(&self) -> (n: usize)
        ensures
            n == self.words().len(),
    {
        vocab_len(&self.dict)
    }
}

} // verus!
