//! Text normalization and word splitting.
//!
//! Normalization pads every configured punctuation character with spaces
//! (so punctuation becomes its own separable word), collapses every run of
//! two or more whitespace characters into a single space, and trims
//! leading and trailing whitespace.  Splitting then cuts the text at
//! whitespace characters.

use vstd::prelude::*;

verus! {

/// The whitespace characters recognized by normalization and splitting.
pub open spec fn is_space(c: char) -> bool {
    c == ' ' || c == '\t' || c == '\n' || c == '\r' || c == '\u{b}' || c == '\u{c}'
}

/// Executable form of `is_space`.
pub fn is_space_char(c: char) -> (b: bool)
    ensures
        b == is_space(c),
{
    c == ' ' || c == '\t' || c == '\n' || c == '\r' || c == '\u{b}' || c == '\u{c}'
}

/// One padded character: punctuation becomes a space-padded copy of
/// itself, any other character stays alone.
pub open spec fn pad_char(punct: Seq<char>, c: char) -> Seq<char> {
    if punct.contains(c) {
        seq![' ', c, ' ']
    } else {
        seq![c]
    }
}

/// The text with every punctuation character space-padded.
pub open spec fn pad_text(punct: Seq<char>, text: Seq<char>) -> Seq<char>
    decreases text.len(),
{
    if text.len() == 0 {
        Seq::empty()
    } else {
        pad_char(punct, text[0]) + pad_text(punct, text.drop_first())
    }
}

/// Every run of two or more whitespace characters replaced by one space;
/// single whitespace characters stay as they are.
pub open spec fn collapse_spaces(s: Seq<char>) -> Seq<char>
    decreases s.len(),
{
    if s.len() == 0 {
        Seq::empty()
    } else if s.len() >= 2 && is_space(s[0]) && is_space(s[1]) {
        collapse_spaces(seq![' '] + s.skip(2))
    } else {
        seq![s[0]] + collapse_spaces(s.drop_first())
    }
}

/// The sequence with its leading whitespace removed.
pub open spec fn skip_spaces(s: Seq<char>) -> Seq<char>
    decreases s.len(),
{
    if s.len() > 0 && is_space(s[0]) {
        skip_spaces(s.drop_first())
    } else {
        s
    }
}

/// The sequence with its trailing whitespace removed.
pub open spec fn trim_end(s: Seq<char>) -> Seq<char>
    decreases s.len(),
{
    if s.len() > 0 && is_space(s.last()) {
        trim_end(s.drop_last())
    } else {
        s
    }
}

/// The sequence with leading and trailing whitespace removed.
pub open spec fn trim_spaces(s: Seq<char>) -> Seq<char> {
    trim_end(skip_spaces(s))
}

/// The normalized form of a text for a punctuation set: punctuation
/// padded, whitespace runs collapsed, ends trimmed.
pub open spec fn normalize_spec(punct: Seq<char>, text: Seq<char>) -> Seq<char> {
    trim_spaces(collapse_spaces(pad_text(punct, text)))
}

/// Length of the leading run of non-whitespace characters.
pub open spec fn word_prefix_len(s: Seq<char>) -> int
    decreases s.len(),
{
    if s.len() > 0 && !is_space(s[0]) {
        1 + word_prefix_len(s.drop_first())
    } else {
        0
    }
}

pub proof fn lemma_word_prefix_len_bounds(s: Seq<char>)
    ensures
        0 <= word_prefix_len(s) <= s.len(),
        s.len() > 0 && !is_space(s[0]) ==> word_prefix_len(s) >= 1,
    decreases s.len(),
{
    if s.len() > 0 && !is_space(s[0]) {
        lemma_word_prefix_len_bounds(s.drop_first());
    }
}

/// The whitespace-separated words of a text, in order.
pub open spec fn words_of(s: Seq<char>) -> Seq<Seq<char>>
    decreases s.len(),
    via words_of_dec
{
    if s.len() == 0 {
        Seq::empty()
    } else if is_space(s[0]) {
        words_of(s.drop_first())
    } else {
        seq![s.take(word_prefix_len(s))] + words_of(s.skip(word_prefix_len(s)))
    }
}

#[via_fn]
proof fn words_of_dec(s: Seq<char>) {
    if s.len() > 0 && !is_space(s[0]) {
        lemma_word_prefix_len_bounds(s);
    }
}

/// Whether a character occurs in a configured character set.
pub fn contains_char(set: &Vec<char>, c: char) -> (b: bool)
    ensures
        b == set@.contains(c),
{
    let mut i: usize = 0;
    while i < set.len()
        invariant
            0 <= i <= set@.len(),
            forall|j: int| 0 <= j < i ==> set@[j] != c,
        decreases set@.len() - i,
    {
        if set[i] == c {
            proof {
                assert(set@[i as int] == c);
            }
            return true;
        }
        i = i + 1;
    }
    false
}

/// Pads every punctuation character of the text with spaces.
pub fn pad_chars(punct: &Vec<char>, text: &Vec<char>) -> (r: Vec<char>)
    ensures
        r@ == pad_text(punct@, text@),
{
    let mut r: Vec<char> = Vec::new();
    let mut i: usize = 0;
    proof {
        lemma_pad_text_take_step(punct@, text@, 0);
    }
    while i < text.len()
        invariant
            0 <= i <= text@.len(),
            r@ == pad_text(punct@, text@.take(i as int)),
        decreases text@.len() - i,
    {
        let c = text[i];
        if contains_char(punct, c) {
            r.push(' ');
            r.push(c);
            r.push(' ');
        } else {
            r.push(c);
        }
        proof {
            lemma_pad_text_take_step(punct@, text@, i as int);
            assert(r@ =~= pad_text(punct@, text@.take(i as int)) + pad_char(
                punct@,
                text@[i as int],
            ));
        }
        i = i + 1;
    }
    proof {
        assert(text@.take(text@.len() as int) =~= text@);
    }
    r
}

/// Padding distributes over extending the text by one character.
proof fn lemma_pad_text_take_step(punct: Seq<char>, text: Seq<char>, i: int)
    requires
        0 <= i <= text.len(),
    ensures
        i < text.len() ==> pad_text(punct, text.take(i + 1)) == pad_text(punct, text.take(i))
            + pad_char(punct, text[i]),
{
    if i < text.len() {
        lemma_pad_text_snoc(punct, text.take(i + 1));
        assert(text.take(i + 1).drop_last() =~= text.take(i));
    }
}

/// Padding of a non-empty text splits off its last character.
proof fn lemma_pad_text_snoc(punct: Seq<char>, text: Seq<char>)
    requires
        text.len() > 0,
    ensures
        pad_text(punct, text) == pad_text(punct, text.drop_last()) + pad_char(
            punct,
            text.last(),
        ),
    decreases text.len(),
{
    if text.len() == 1 {
        assert(pad_text(punct, text.drop_first()) =~= Seq::<char>::empty());
        assert(text.drop_last() =~= Seq::<char>::empty());
        assert(pad_text(punct, text) =~= pad_char(punct, text[0]));
        assert(pad_text(punct, text.drop_last()) + pad_char(punct, text.last()) =~= pad_char(
            punct,
            text[0],
        ));
    } else {
        lemma_pad_text_snoc(punct, text.drop_first());
        assert(text.drop_first().drop_last() =~= text.drop_last().drop_first());
        assert(text.drop_first().last() == text.last());
        assert(text.drop_last()[0] == text[0]);
        assert(pad_text(punct, text) == pad_char(punct, text[0]) + pad_text(
            punct,
            text.drop_first(),
        ));
        assert(pad_text(punct, text.drop_last()) == pad_char(punct, text.drop_last()[0])
            + pad_text(punct, text.drop_last().drop_first()));
        assert(pad_char(punct, text[0]) + (pad_text(punct, text.drop_first().drop_last())
            + pad_char(punct, text.last())) =~= (pad_char(punct, text[0]) + pad_text(
            punct,
            text.drop_first().drop_last(),
        )) + pad_char(punct, text.last()));
    }
}

/// Collapses whitespace runs, as `collapse_spaces` describes.
pub fn collapse_ws(s: &Vec<char>) -> (r: Vec<char>)
    ensures
        r@ == collapse_spaces(s@),
{
    let mut r: Vec<char> = Vec::new();
    let mut i: usize = 0;
    proof {
        assert(s@.skip(0) =~= s@);
        assert(r@ + collapse_spaces(s@) =~= collapse_spaces(s@));
    }
    while i < s.len()
        invariant
            0 <= i <= s@.len(),
            r@ + collapse_spaces(s@.skip(i as int)) == collapse_spaces(s@),
        decreases s@.len() - i,
    {
        let ghost whole = collapse_spaces(s@);
        let c = s[i];
        proof {
            assert(s@.skip(i as int)[0] == s@[i as int]);
        }
        if is_space_char(c) && i + 1 < s.len() && is_space_char(s[i + 1]) {
            let ghost i0 = i as int;
            proof {
                assert(s@.skip(i0)[1] == s@[i0 + 1]);
                assert((seq![' '] + s@.skip(i0).skip(2)) =~= (seq![' '] + s@.skip(i0 + 2)));
                assert(collapse_spaces(s@.skip(i0)) == collapse_spaces(
                    seq![' '] + s@.skip(i0 + 2),
                ));
            }
            i = i + 2;
            while i < s.len() && is_space_char(s[i])
                invariant
                    i0 + 2 <= i <= s@.len(),
                    r@ + collapse_spaces(seq![' '] + s@.skip(i as int)) == collapse_spaces(s@),
                decreases s@.len() - i,
            {
                proof {
                    let t = seq![' '] + s@.skip(i as int);
                    assert(t[0] == ' ' && t[1] == s@[i as int]);
                    assert((seq![' '] + t.skip(2)) =~= (seq![' '] + s@.skip(i + 1)));
                }
                i = i + 1;
            }
            r.push(' ');
            proof {
                let t = seq![' '] + s@.skip(i as int);
                if i < s.len() {
                    assert(t[1] == s@[i as int]);
                    assert(!is_space(t[1]));
                } else {
                    assert(s@.skip(i as int) =~= Seq::<char>::empty());
                    assert(t.len() == 1);
                }
                assert(collapse_spaces(t) == seq![' '] + collapse_spaces(t.drop_first()));
                assert(t.drop_first() =~= s@.skip(i as int));
                assert(r@ =~= (r@.drop_last() + seq![' ']));
                assert(r@.drop_last() + (seq![' '] + collapse_spaces(s@.skip(i as int))) =~= r@
                    + collapse_spaces(s@.skip(i as int)));
            }
        } else {
            r.push(c);
            proof {
                let t = s@.skip(i as int);
                if is_space(c) {
                    assert(!(t.len() >= 2 && is_space(t[1]))) by {
                        if t.len() >= 2 {
                            assert(t[1] == s@[i + 1]);
                        }
                    }
                }
                assert(collapse_spaces(t) == seq![t[0]] + collapse_spaces(t.drop_first()));
                assert(t.drop_first() =~= s@.skip(i + 1));
                assert(r@ =~= (r@.drop_last() + seq![c]));
                assert(r@.drop_last() + (seq![c] + collapse_spaces(s@.skip(i + 1))) =~= r@
                    + collapse_spaces(s@.skip(i + 1)));
            }
            i = i + 1;
        }
    }
    proof {
        assert(s@.skip(s@.len() as int) =~= Seq::<char>::empty());
    }
    r
}

/// Removes leading and trailing whitespace, as `trim_spaces` describes.
pub fn trim_ws(s: &Vec<char>) -> (r: Vec<char>)
    ensures
        r@ == trim_spaces(s@),
{
    let mut a: usize = 0;
    proof {
        assert(s@.skip(0) =~= s@);
    }
    while a < s.len() && is_space_char(s[a])
        invariant
            0 <= a <= s@.len(),
            skip_spaces(s@.skip(a as int)) == skip_spaces(s@),
        decreases s@.len() - a,
    {
        proof {
            assert(s@.skip(a as int)[0] == s@[a as int]);
            assert(s@.skip(a as int).drop_first() =~= s@.skip(a + 1));
        }
        a = a + 1;
    }
    proof {
        if a < s.len() {
            assert(s@.skip(a as int)[0] == s@[a as int]);
        } else {
            assert(s@.skip(a as int) =~= Seq::<char>::empty());
        }
        assert(skip_spaces(s@) == s@.skip(a as int));
    }
    let mut b: usize = s.len();
    proof {
        assert(s@.subrange(a as int, s@.len() as int) =~= s@.skip(a as int));
    }
    while b > a && is_space_char(s[b - 1])
        invariant
            a <= b <= s@.len(),
            skip_spaces(s@) == s@.skip(a as int),
            trim_end(s@.subrange(a as int, b as int)) == trim_end(s@.skip(a as int)),
        decreases b,
    {
        proof {
            let t = s@.subrange(a as int, b as int);
            assert(t.last() == s@[b - 1]);
            assert(t.drop_last() =~= s@.subrange(a as int, b - 1));
        }
        b = b - 1;
    }
    proof {
        let t = s@.subrange(a as int, b as int);
        if b > a {
            assert(t.last() == s@[b - 1]);
        }
        assert(trim_end(t) == t);
        assert(trim_spaces(s@) == s@.subrange(a as int, b as int));
    }
    let mut r: Vec<char> = Vec::new();
    let mut i: usize = a;
    while i < b
        invariant
            a <= i <= b <= s@.len(),
            r@ == s@.subrange(a as int, i as int),
        decreases b - i,
    {
        r.push(s[i]);
        proof {
            assert(s@.subrange(a as int, i + 1) =~= s@.subrange(a as int, i as int) + seq![
                s@[i as int],
            ]);
        }
        i = i + 1;
    }
    r
}

/// Splits a text at whitespace characters into its words.
pub fn split_words(s: &Vec<char>) -> (r: Vec<Vec<char>>)
    ensures
        r.deep_view() == words_of(s@),
{
    let mut r: Vec<Vec<char>> = Vec::new();
    let mut i: usize = 0;
    proof {
        assert(s@.skip(0) =~= s@);
        assert(r.deep_view() =~= Seq::<Seq<char>>::empty());
        assert(r.deep_view() + words_of(s@) =~= words_of(s@));
    }
    while i < s.len()
        invariant
            0 <= i <= s@.len(),
            r.deep_view() + words_of(s@.skip(i as int)) == words_of(s@),
        decreases s@.len() - i,
    {
        let c = s[i];
        proof {
            assert(s@.skip(i as int)[0] == s@[i as int]);
        }
        if is_space_char(c) {
            proof {
                assert(s@.skip(i as int).drop_first() =~= s@.skip(i + 1));
            }
            i = i + 1;
        } else {
            let start = i;
            let mut w: Vec<char> = Vec::new();
            while i < s.len() && !is_space_char(s[i])
                invariant
                    start <= i <= s@.len(),
                    start < s@.len(),
                    !is_space(s@[start as int]),
                    forall|j: int| start <= j < i ==> !is_space(s@[j]),
                    w@ == s@.subrange(start as int, i as int),
                decreases s@.len() - i,
            {
                w.push(s[i]);
                proof {
                    assert(s@.subrange(start as int, i + 1) =~= s@.subrange(
                        start as int,
                        i as int,
                    ) + seq![s@[i as int]]);
                }
                i = i + 1;
            }
            proof {
                lemma_word_prefix_len_run(s@, start as int, i as int);
                let t = s@.skip(start as int);
                assert(t.take(i - start) =~= s@.subrange(start as int, i as int));
                assert(t.skip(i - start) =~= s@.skip(i as int));
                assert(words_of(t) == seq![t.take(word_prefix_len(t))] + words_of(
                    t.skip(word_prefix_len(t)),
                ));
            }
            let ghost prev_view = r.deep_view();
            r.push(w);
            proof {
                assert(r.deep_view() =~~= prev_view + seq![w@]);
                assert((prev_view + seq![w@]) + words_of(s@.skip(i as int)) =~~= prev_view + (
                seq![w@] + words_of(s@.skip(i as int))));
            }
        }
    }
    proof {
        assert(s@.skip(s@.len() as int) =~= Seq::<char>::empty());
    }
    r
}

/// No two adjacent whitespace characters.
pub open spec fn no_double_space(s: Seq<char>) -> bool {
    forall|i: int| 0 <= i < s.len() - 1 ==> !(is_space(#[trigger] s[i]) && is_space(s[i + 1]))
}

/// Every punctuation character has a plain space, or the text boundary,
/// on both sides.
pub open spec fn spaced_punct(punct: Seq<char>, s: Seq<char>) -> bool {
    forall|i: int|
        0 <= i < s.len() && punct.contains(#[trigger] s[i]) ==> (i == 0 || s[i - 1] == ' ') && (i
            == s.len() - 1 || s[i + 1] == ' ')
}

/// No whitespace at either end.
pub open spec fn trimmed(s: Seq<char>) -> bool {
    s.len() > 0 ==> !is_space(s[0]) && !is_space(s.last())
}

/// A punctuation set that holds no whitespace character.
pub open spec fn space_free(punct: Seq<char>) -> bool {
    forall|i: int| 0 <= i < punct.len() ==> !is_space(#[trigger] punct[i])
}

/// The shape every normalized text has.
pub open spec fn is_normalized(punct: Seq<char>, s: Seq<char>) -> bool {
    no_double_space(s) && spaced_punct(punct, s) && trimmed(s)
}

/// The space the padding leaves before the first character.
pub open spec fn lead_pad(punct: Seq<char>, s: Seq<char>) -> Seq<char> {
    if s.len() > 0 && punct.contains(s[0]) {
        seq![' ']
    } else {
        Seq::empty()
    }
}

/// The space the padding leaves after the last character.
pub open spec fn tail_pad(punct: Seq<char>, s: Seq<char>) -> Seq<char> {
    if s.len() > 0 && punct.contains(s.last()) {
        seq![' ']
    } else {
        Seq::empty()
    }
}

proof fn lemma_space_free_char(punct: Seq<char>, c: char)
    requires
        space_free(punct),
        punct.contains(c),
    ensures
        !is_space(c),
{
    let i = choose|i: int| 0 <= i < punct.len() && punct[i] == c;
}

/// Collapsing a sequence that starts with a single space keeps the space.
proof fn lemma_collapse_space_then(t: Seq<char>)
    requires
        t.len() == 0 || !is_space(t[0]),
    ensures
        collapse_spaces(seq![' '] + t) == seq![' '] + collapse_spaces(t),
{
    let s = seq![' '] + t;
    if t.len() == 0 {
        assert(s.len() == 1);
        assert(s.drop_first() =~= t);
        assert(collapse_spaces(s) == seq![s[0]] + collapse_spaces(s.drop_first()));
        assert(seq![s[0]] + collapse_spaces(t) =~= seq![' '] + collapse_spaces(t));
    } else {
        assert(s[1] == t[0]);
        assert(s.drop_first() =~= t);
        assert(collapse_spaces(s) == seq![s[0]] + collapse_spaces(s.drop_first()));
        assert(seq![s[0]] =~= seq![' ']);
    }
}

/// A space followed by more whitespace absorbs it.
proof fn lemma_collapse_absorb(t: Seq<char>)
    requires
        t.len() > 0,
        is_space(t[0]),
    ensures
        collapse_spaces(seq![' '] + t) == collapse_spaces(seq![' '] + t.drop_first()),
{
    let s = seq![' '] + t;
    assert(s[1] == t[0]);
    assert(collapse_spaces(s) == collapse_spaces(seq![' '] + s.skip(2)));
    assert(s.skip(2) =~= t.drop_first());
}

/// Collapsing past a non-whitespace character keeps it.
proof fn lemma_collapse_word_char(c: char, t: Seq<char>)
    requires
        !is_space(c),
    ensures
        collapse_spaces(seq![c] + t) == seq![c] + collapse_spaces(t),
{
    let s = seq![c] + t;
    assert(s[0] == c);
    assert(collapse_spaces(s) == seq![s[0]] + collapse_spaces(s.drop_first()));
    assert(s.drop_first() =~= t);
    assert(seq![s[0]] =~= seq![c]);
}

/// A lone single whitespace character before a non-whitespace character
/// is kept as it is.
proof fn lemma_collapse_single_space(c: char, t: Seq<char>)
    requires
        is_space(c),
        t.len() == 0 || !is_space(t[0]),
    ensures
        collapse_spaces(seq![c] + t) == seq![c] + collapse_spaces(t),
{
    let s = seq![c] + t;
    if t.len() > 0 {
        assert(s[1] == t[0]);
    }
    assert(collapse_spaces(s) == seq![s[0]] + collapse_spaces(s.drop_first()));
    assert(s.drop_first() =~= t);
    assert(seq![s[0]] =~= seq![c]);
}

/// Dropping a prefix keeps both normalization shape properties.
proof fn lemma_props_drop(punct: Seq<char>, s: Seq<char>, n: int)
    requires
        0 <= n <= s.len(),
        no_double_space(s),
        spaced_punct(punct, s),
    ensures
        no_double_space(s.skip(n)),
        spaced_punct(punct, s.skip(n)),
{
    let t = s.skip(n);
    assert forall|i: int|
        0 <= i < t.len() - 1 implies !(is_space(#[trigger] t[i]) && is_space(t[i + 1])) by {
        assert(t[i] == s[n + i]);
        assert(t[i + 1] == s[n + i + 1]);
    }
    assert forall|i: int|
        0 <= i < t.len() && punct.contains(#[trigger] t[i]) implies (i == 0 || t[i - 1] == ' ')
            && (i == t.len() - 1 || t[i + 1] == ' ') by {
        assert(t[i] == s[n + i]);
        if i > 0 {
            assert(t[i - 1] == s[n + i - 1]);
        }
        if i < t.len() - 1 {
            assert(t[i + 1] == s[n + i + 1]);
        }
    }
}

/// Collapsing the padding of a text in normalized shape reproduces the
/// text, with at most one extra space at either end where the text starts
/// or ends with punctuation.
proof fn lemma_collapse_pad(punct: Seq<char>, s: Seq<char>)
    requires
        space_free(punct),
        no_double_space(s),
        spaced_punct(punct, s),
    ensures
        collapse_spaces(pad_text(punct, s)) == lead_pad(punct, s) + s + tail_pad(punct, s),
    decreases s.len(),
{
    if s.len() == 0 {
        assert(pad_text(punct, s) =~= Seq::<char>::empty());
        assert(collapse_spaces(pad_text(punct, s)) =~= Seq::<char>::empty());
        assert(lead_pad(punct, s) + s + tail_pad(punct, s) =~= Seq::<char>::empty());
    } else {
        let c = s[0];
        let s1 = s.drop_first();
        lemma_props_drop(punct, s, 1);
        assert(s.skip(1) =~= s1);
        let p1 = pad_text(punct, s1);
        assert(pad_text(punct, s) == pad_char(punct, c) + p1);
        if punct.contains(c) {
            lemma_space_free_char(punct, c);
            let v = seq![' '] + p1;
            let u = seq![c] + v;
            assert(pad_text(punct, s) =~= seq![' '] + u);
            lemma_collapse_space_then(u);
            lemma_collapse_word_char(c, v);
            if s1.len() == 0 {
                assert(v =~= seq![' ']);
                lemma_collapse_space_then(Seq::<char>::empty());
                assert(seq![' '] + Seq::<char>::empty() =~= seq![' ']);
                assert(collapse_spaces(v) =~= seq![' ']);
                assert(s =~= seq![c]);
                assert(collapse_spaces(pad_text(punct, s)) =~= seq![' '] + (seq![c] + (seq![' ']
                    + collapse_spaces(Seq::<char>::empty()))));
                assert(collapse_spaces(pad_text(punct, s)) =~= lead_pad(punct, s) + s + tail_pad(
                    punct,
                    s,
                ));
            } else {
                assert(s[1] == ' ');
                assert(s1[0] == ' ');
                if punct.contains(' ') {
                    lemma_space_free_char(punct, ' ');
                }
                let s2 = s.skip(2);
                assert(s1.drop_first() =~= s2);
                let p2 = pad_text(punct, s2);
                assert(pad_char(punct, ' ') =~= seq![' ']);
                assert(p1 == pad_char(punct, ' ') + p2);
                assert(p1 =~= seq![' '] + p2);
                let w = seq![' '] + p2;
                assert(v =~= seq![' '] + w);
                lemma_collapse_absorb(w);
                assert(w.drop_first() =~= p2);
                lemma_props_drop(punct, s, 2);
                assert(s2.len() == 0 || !is_space(s2[0])) by {
                    if s2.len() > 0 {
                        assert(s2[0] == s[2]);
                        assert(!(is_space(s[1]) && is_space(s[2])));
                    }
                }
                lemma_collapse_pad_lead(punct, s2);
                assert(collapse_spaces(v) == collapse_spaces(seq![' '] + p2));
                assert(collapse_spaces(pad_text(punct, s)) =~= seq![' '] + (seq![c] + (seq![' ']
                    + s2 + tail_pad(punct, s2))));
                assert(s =~= seq![c] + (seq![' '] + s2));
                assert(tail_pad(punct, s) =~= tail_pad(punct, s2)) by {
                    if s2.len() > 0 {
                        assert(s.last() == s2.last());
                    } else {
                        assert(s.last() == ' ');
                        if punct.contains(' ') {
                            lemma_space_free_char(punct, ' ');
                        }
                    }
                }
                assert(collapse_spaces(pad_text(punct, s)) =~= lead_pad(punct, s) + s + tail_pad(
                    punct,
                    s,
                ));
            }
        } else {
            assert(pad_char(punct, c) =~= seq![c]);
            assert(pad_text(punct, s) =~= seq![c] + p1);
            if s1.len() == 0 {
                assert(p1 =~= Seq::<char>::empty());
                if is_space(c) {
                    lemma_collapse_single_space(c, Seq::<char>::empty());
                } else {
                    lemma_collapse_word_char(c, Seq::<char>::empty());
                }
                assert(collapse_spaces(pad_text(punct, s)) =~= seq![c]);
                assert(s =~= seq![c]);
                assert(lead_pad(punct, s) + s + tail_pad(punct, s) =~= seq![c]);
            } else if is_space(c) {
                assert(!is_space(s1[0])) by {
                    assert(!(is_space(s[0]) && is_space(s[1])));
                    assert(s1[0] == s[1]);
                }
                if punct.contains(s1[0]) {
                    assert(s[0] == ' ') by {
                        assert(s1[0] == s[1]);
                        assert(punct.contains(s[1]));
                    }
                    lemma_collapse_pad_lead(punct, s1);
                    assert(collapse_spaces(pad_text(punct, s)) == collapse_spaces(seq![' ']
                        + p1));
                    assert(collapse_spaces(pad_text(punct, s)) =~= seq![' '] + s1 + tail_pad(
                        punct,
                        s1,
                    ));
                    assert(s =~= seq![' '] + s1);
                    assert(tail_pad(punct, s) =~= tail_pad(punct, s1));
                    assert(collapse_spaces(pad_text(punct, s)) =~= lead_pad(punct, s) + s
                        + tail_pad(punct, s));
                } else {
                    assert(p1 == pad_char(punct, s1[0]) + pad_text(punct, s1.drop_first()));
                    assert(pad_char(punct, s1[0]) =~= seq![s1[0]]);
                    assert(p1[0] == s1[0]);
                    assert(p1.len() > 0);
                    lemma_collapse_single_space(c, p1);
                    lemma_collapse_pad(punct, s1);
                    assert(lead_pad(punct, s1) =~= Seq::<char>::empty());
                    assert(collapse_spaces(pad_text(punct, s)) =~= seq![c] + (s1 + tail_pad(
                        punct,
                        s1,
                    )));
                    assert(s =~= seq![c] + s1);
                    assert(tail_pad(punct, s) =~= tail_pad(punct, s1));
                    assert(lead_pad(punct, s) =~= Seq::<char>::empty());
                    assert(collapse_spaces(pad_text(punct, s)) =~= lead_pad(punct, s) + s
                        + tail_pad(punct, s));
                }
            } else {
                lemma_collapse_word_char(c, p1);
                lemma_collapse_pad(punct, s1);
                assert(lead_pad(punct, s1) =~= Seq::<char>::empty()) by {
                    if s1.len() > 0 && punct.contains(s1[0]) {
                        assert(s1[0] == s[1]);
                        assert(punct.contains(s[1]));
                        assert(s[0] == ' ');
                    }
                }
                assert(collapse_spaces(pad_text(punct, s)) =~= seq![c] + (s1 + tail_pad(
                    punct,
                    s1,
                )));
                assert(s =~= seq![c] + s1);
                assert(tail_pad(punct, s) =~= tail_pad(punct, s1));
                assert(lead_pad(punct, s) =~= Seq::<char>::empty());
                assert(collapse_spaces(pad_text(punct, s)) =~= lead_pad(punct, s) + s + tail_pad(
                    punct,
                    s,
                ));
            }
        }
    }
}

/// The same statement with one space already emitted in front: collapsing
/// a space followed by the padding of a text that does not start with
/// whitespace yields the space, the text, and its possible tail space.
proof fn lemma_collapse_pad_lead(punct: Seq<char>, t: Seq<char>)
    requires
        space_free(punct),
        no_double_space(t),
        spaced_punct(punct, t),
        t.len() == 0 || !is_space(t[0]),
    ensures
        collapse_spaces(seq![' '] + pad_text(punct, t)) == seq![' '] + t + tail_pad(punct, t),
    decreases t.len(),
{
    if t.len() == 0 {
        assert(pad_text(punct, t) =~= Seq::<char>::empty());
        lemma_collapse_space_then(Seq::<char>::empty());
        assert(seq![' '] + Seq::<char>::empty() =~= seq![' ']);
        assert(seq![' '] + t + tail_pad(punct, t) =~= seq![' ']);
        assert(collapse_spaces(seq![' '] + pad_text(punct, t)) =~= seq![' ']);
    } else {
        let c = t[0];
        let t1 = t.drop_first();
        lemma_props_drop(punct, t, 1);
        assert(t.skip(1) =~= t1);
        let p1 = pad_text(punct, t1);
        assert(pad_text(punct, t) == pad_char(punct, c) + p1);
        if punct.contains(c) {
            lemma_space_free_char(punct, c);
            let v = seq![' '] + p1;
            let u = seq![' '] + (seq![c] + v);
            assert(seq![' '] + pad_text(punct, t) =~= seq![' '] + u);
            lemma_collapse_absorb(u);
            assert(u.drop_first() =~= seq![c] + v);
            lemma_collapse_space_then(seq![c] + v);
            lemma_collapse_word_char(c, v);
            if t1.len() == 0 {
                assert(v =~= seq![' ']);
                lemma_collapse_space_then(Seq::<char>::empty());
                assert(seq![' '] + Seq::<char>::empty() =~= seq![' ']);
                assert(collapse_spaces(v) =~= seq![' ']);
                assert(collapse_spaces(seq![' '] + pad_text(punct, t)) =~= seq![' '] + (seq![c]
                    + seq![' ']));
                assert(t =~= seq![c]);
                assert(seq![' '] + t + tail_pad(punct, t) =~= seq![' '] + (seq![c] + seq![' ']));
            } else {
                assert(t[1] == ' ');
                assert(t1[0] == ' ');
                if punct.contains(' ') {
                    lemma_space_free_char(punct, ' ');
                }
                let t2 = t.skip(2);
                assert(t1.drop_first() =~= t2);
                let p2 = pad_text(punct, t2);
                assert(pad_char(punct, ' ') =~= seq![' ']);
                assert(p1 == pad_char(punct, ' ') + pad_text(punct, t1.drop_first()));
                assert(p1 =~= seq![' '] + p2);
                let w = seq![' '] + p2;
                assert(v =~= seq![' '] + w);
                lemma_collapse_absorb(w);
                assert(w.drop_first() =~= p2);
                lemma_props_drop(punct, t, 2);
                assert(t2.len() == 0 || !is_space(t2[0])) by {
                    if t2.len() > 0 {
                        assert(t2[0] == t[2]);
                        assert(!(is_space(t[1]) && is_space(t[2])));
                    }
                }
                lemma_collapse_pad_lead(punct, t2);
                assert(collapse_spaces(v) == collapse_spaces(seq![' '] + p2));
                assert(collapse_spaces(seq![' '] + pad_text(punct, t)) =~= seq![' '] + (seq![c]
                    + (seq![' '] + t2 + tail_pad(punct, t2))));
                assert(t =~= seq![c] + (seq![' '] + t2));
                assert(tail_pad(punct, t) =~= tail_pad(punct, t2)) by {
                    if t2.len() > 0 {
                        assert(t.last() == t2.last());
                    } else {
                        assert(t.last() == ' ');
                        if punct.contains(' ') {
                            lemma_space_free_char(punct, ' ');
                        }
                    }
                }
                assert(collapse_spaces(seq![' '] + pad_text(punct, t)) =~= seq![' '] + t
                    + tail_pad(punct, t));
            }
        } else {
            assert(pad_char(punct, c) =~= seq![c]);
            assert(seq![' '] + pad_text(punct, t) =~= seq![' '] + (seq![c] + p1));
            lemma_collapse_space_then(seq![c] + p1);
            lemma_collapse_word_char(c, p1);
            lemma_collapse_pad(punct, t1);
            assert(lead_pad(punct, t1) =~= Seq::<char>::empty()) by {
                if t1.len() > 0 && punct.contains(t1[0]) {
                    assert(t1[0] == t[1]);
                    assert(punct.contains(t[1]));
                    assert(t[0] == ' ');
                }
            }
            assert(collapse_spaces(seq![' '] + pad_text(punct, t)) =~= seq![' '] + (seq![c] + (
            t1 + tail_pad(punct, t1))));
            assert(t =~= seq![c] + t1);
            assert(tail_pad(punct, t) =~= tail_pad(punct, t1)) by {
                if t1.len() > 0 {
                    assert(t.last() == t1.last());
                } else {
                    assert(t.last() == c);
                }
            }
            assert(collapse_spaces(seq![' '] + pad_text(punct, t)) =~= seq![' '] + t + tail_pad(
                punct,
                t,
            ));
        }
    }
}

/// What collapsing does to the front of a text, and that its output never
/// holds two adjacent whitespace characters.
proof fn lemma_collapse_shape(z: Seq<char>)
    ensures
        collapse_spaces(z).len() > 0 <==> z.len() > 0,
        z.len() > 0 ==> (is_space(collapse_spaces(z)[0]) <==> is_space(z[0])),
        z.len() > 0 && !is_space(z[0]) ==> collapse_spaces(z)[0] == z[0],
        z.len() > 0 && z[0] == ' ' ==> collapse_spaces(z)[0] == ' ',
        no_double_space(collapse_spaces(z)),
    decreases z.len(),
{
    if z.len() == 0 {
    } else if z.len() >= 2 && is_space(z[0]) && is_space(z[1]) {
        let t = seq![' '] + z.skip(2);
        lemma_collapse_shape(t);
        assert(t[0] == ' ');
    } else {
        let rest = z.drop_first();
        lemma_collapse_shape(rest);
        assert(collapse_spaces(z) == seq![z[0]] + collapse_spaces(rest));
        let r = collapse_spaces(z);
        let cr = collapse_spaces(rest);
        assert(r[0] == z[0]);
        assert forall|i: int|
            0 <= i < r.len() - 1 implies !(is_space(#[trigger] r[i]) && is_space(r[i + 1])) by {
            if i == 0 {
                if is_space(z[0]) {
                    assert(rest.len() > 0);
                    assert(rest[0] == z[1]);
                    assert(!is_space(rest[0]));
                    assert(r[1] == cr[0]);
                } else {
                }
            } else {
                assert(r[i] == cr[i - 1]);
                assert(r[i + 1] == cr[i]);
            }
        }
    }
}

/// Collapsing keeps every punctuation character spaced.
proof fn lemma_collapse_spaced(punct: Seq<char>, z: Seq<char>)
    requires
        space_free(punct),
        spaced_punct(punct, z),
    ensures
        spaced_punct(punct, collapse_spaces(z)),
    decreases z.len(),
{
    if z.len() == 0 {
    } else if z.len() >= 2 && is_space(z[0]) && is_space(z[1]) {
        let t = seq![' '] + z.skip(2);
        assert forall|i: int|
            0 <= i < t.len() && punct.contains(#[trigger] t[i]) implies (i == 0 || t[i - 1]
                == ' ') && (i == t.len() - 1 || t[i + 1] == ' ') by {
            if i == 0 {
                lemma_space_free_char(punct, t[0]);
            } else {
                assert(t[i] == z[i + 1]);
                if i >= 2 {
                    assert(t[i - 1] == z[i]);
                }
                if i < t.len() - 1 {
                    assert(t[i + 1] == z[i + 2]);
                }
            }
        }
        lemma_collapse_spaced(punct, t);
    } else {
        let rest = z.drop_first();
        assert forall|i: int|
            0 <= i < rest.len() && punct.contains(#[trigger] rest[i]) implies (i == 0 || rest[i
                - 1] == ' ') && (i == rest.len() - 1 || rest[i + 1] == ' ') by {
            assert(rest[i] == z[i + 1]);
            if i > 0 {
                assert(rest[i - 1] == z[i]);
            }
            if i < rest.len() - 1 {
                assert(rest[i + 1] == z[i + 2]);
            }
        }
        lemma_collapse_spaced(punct, rest);
        lemma_collapse_shape(rest);
        assert(collapse_spaces(z) == seq![z[0]] + collapse_spaces(rest));
        let r = collapse_spaces(z);
        let cr = collapse_spaces(rest);
        assert(r[0] == z[0]);
        assert forall|i: int|
            0 <= i < r.len() && punct.contains(#[trigger] r[i]) implies (i == 0 || r[i - 1]
                == ' ') && (i == r.len() - 1 || r[i + 1] == ' ') by {
            if i == 0 {
                if r.len() > 1 {
                    assert(punct.contains(z[0]));
                    assert(z.len() > 1);
                    assert(z[1] == ' ');
                    assert(rest[0] == ' ');
                    assert(r[1] == cr[0]);
                }
            } else {
                assert(r[i] == cr[i - 1]);
                lemma_space_free_char(punct, cr[i - 1]);
                if i == 1 {
                    assert(rest.len() > 0);
                    assert(!is_space(cr[0]));
                    assert(!is_space(rest[0])) by {
                        if is_space(rest[0]) {
                            lemma_collapse_shape(rest);
                        }
                    }
                    assert(cr[0] == rest[0]);
                    assert(rest[0] == z[1]);
                    assert(punct.contains(z[1]));
                    assert(z[0] == ' ');
                    assert(r[0] == ' ');
                } else {
                    assert(r[i - 1] == cr[i - 2]);
                    assert(cr[i - 2] == ' ');
                }
                if i < r.len() - 1 {
                    assert(r[i + 1] == cr[i]);
                    assert(cr[i] == ' ');
                }
            }
        }
    }
}

/// Padding leaves every punctuation character spaced.
proof fn lemma_pad_spaced(punct: Seq<char>, text: Seq<char>)
    requires
        space_free(punct),
    ensures
        spaced_punct(punct, pad_text(punct, text)),
        pad_text(punct, text).len() > 0 ==> !punct.contains(pad_text(punct, text)[0]),
    decreases text.len(),
{
    if text.len() == 0 {
    } else {
        let c = text[0];
        let rest = text.drop_first();
        lemma_pad_spaced(punct, rest);
        let block = pad_char(punct, c);
        let p1 = pad_text(punct, rest);
        let p = pad_text(punct, text);
        assert(p == block + p1);
        if punct.contains(c) {
            lemma_space_free_char(punct, c);
            if punct.contains(' ') {
                lemma_space_free_char(punct, ' ');
            }
        }
        assert forall|i: int|
            0 <= i < p.len() && punct.contains(#[trigger] p[i]) implies (i == 0 || p[i - 1]
                == ' ') && (i == p.len() - 1 || p[i + 1] == ' ') by {
            if i < block.len() {
                if punct.contains(c) {
                    assert(block =~= seq![' ', c, ' ']);
                    assert(p[0] == ' ' && p[2] == ' ');
                    if punct.contains(' ') {
                        lemma_space_free_char(punct, ' ');
                    }
                    assert(i == 1);
                    assert(p[i - 1] == ' ' && p[i + 1] == ' ');
                } else {
                    assert(block =~= seq![c]);
                    assert(p[0] == c);
                    assert(false);
                }
            } else {
                let j = i - block.len();
                assert(p[i] == p1[j]);
                assert(j > 0) by {
                    if j == 0 {
                        assert(!punct.contains(p1[0]));
                    }
                }
                assert(p[i - 1] == p1[j - 1]);
                assert(p1[j - 1] == ' ');
                if i < p.len() - 1 {
                    assert(p[i + 1] == p1[j + 1]);
                    assert(p1[j + 1] == ' ');
                }
            }
        }
        assert(p.len() > 0 && !punct.contains(p[0])) by {
            if punct.contains(c) {
                assert(block =~= seq![' ', c, ' ']);
                assert(p[0] == ' ');
                if punct.contains(' ') {
                    lemma_space_free_char(punct, ' ');
                }
            } else {
                assert(block =~= seq![c]);
                assert(p[0] == c);
            }
        }
    }
}

/// Skipping leading whitespace takes a suffix whose head, if any, is not
/// whitespace.
proof fn lemma_skip_spaces_is_suffix(s: Seq<char>)
    ensures
        skip_spaces(s).len() <= s.len(),
        skip_spaces(s) == s.skip(s.len() - skip_spaces(s).len()),
        skip_spaces(s).len() > 0 ==> !is_space(skip_spaces(s)[0]),
    decreases s.len(),
{
    if s.len() > 0 && is_space(s[0]) {
        let rest = s.drop_first();
        lemma_skip_spaces_is_suffix(rest);
        assert(rest =~= s.skip(1));
        assert(s.skip(1).skip(rest.len() - skip_spaces(rest).len()) =~= s.skip(
            1 + rest.len() - skip_spaces(rest).len(),
        ));
    } else {
        assert(s.skip(0) =~= s);
    }
}

/// Trimming trailing whitespace takes a prefix whose last character, if
/// any, is not whitespace.
proof fn lemma_trim_end_is_prefix(s: Seq<char>)
    ensures
        trim_end(s).len() <= s.len(),
        trim_end(s) == s.take(trim_end(s).len() as int),
        trim_end(s).len() > 0 ==> !is_space(trim_end(s).last()),
    decreases s.len(),
{
    if s.len() > 0 && is_space(s.last()) {
        let rest = s.drop_last();
        lemma_trim_end_is_prefix(rest);
        assert(rest =~= s.take(s.len() - 1));
        assert(s.take(s.len() - 1).take(trim_end(rest).len() as int) =~= s.take(
            trim_end(rest).len() as int,
        ));
    } else {
        assert(s.take(s.len() as int) =~= s);
    }
}

/// Taking a prefix keeps both normalization shape properties.
proof fn lemma_props_take(punct: Seq<char>, s: Seq<char>, m: int)
    requires
        0 <= m <= s.len(),
        no_double_space(s),
        spaced_punct(punct, s),
    ensures
        no_double_space(s.take(m)),
        spaced_punct(punct, s.take(m)),
{
    let t = s.take(m);
    assert forall|i: int|
        0 <= i < t.len() - 1 implies !(is_space(#[trigger] t[i]) && is_space(t[i + 1])) by {
        assert(t[i] == s[i]);
        assert(t[i + 1] == s[i + 1]);
    }
    assert forall|i: int|
        0 <= i < t.len() && punct.contains(#[trigger] t[i]) implies (i == 0 || t[i - 1] == ' ')
            && (i == t.len() - 1 || t[i + 1] == ' ') by {
        assert(t[i] == s[i]);
        if i > 0 {
            assert(t[i - 1] == s[i - 1]);
        }
        if i < t.len() - 1 {
            assert(t[i + 1] == s[i + 1]);
        }
    }
}

/// The output of normalization is in normalized shape: no doubled
/// whitespace, spaced punctuation, trimmed ends.
pub proof fn lemma_normalize_normalized(punct: Seq<char>, text: Seq<char>)
    requires
        space_free(punct),
    ensures
        is_normalized(punct, normalize_spec(punct, text)),
{
    let z = pad_text(punct, text);
    lemma_pad_spaced(punct, text);
    lemma_collapse_shape(z);
    lemma_collapse_spaced(punct, z);
    let y = collapse_spaces(z);
    lemma_skip_spaces_is_suffix(y);
    let y1 = skip_spaces(y);
    lemma_props_drop(punct, y, y.len() - y1.len());
    lemma_trim_end_is_prefix(y1);
    let r = trim_end(y1);
    lemma_props_take(punct, y1, r.len() as int);
    assert(r == normalize_spec(punct, text));
    if r.len() > 0 {
        assert(r[0] == y1[0]);
    }
}

/// Normalization is idempotent: normalizing a normalized text changes
/// nothing, so `normalize(normalize(x)) == normalize(x)` for every text
/// `x`, for any punctuation set free of whitespace characters.
pub proof fn lemma_normalize_idempotent(punct: Seq<char>, text: Seq<char>)
    requires
        space_free(punct),
    ensures
        normalize_spec(punct, normalize_spec(punct, text)) == normalize_spec(punct, text),
{
    let r = normalize_spec(punct, text);
    lemma_normalize_normalized(punct, text);
    lemma_collapse_pad(punct, r);
    let lead = lead_pad(punct, r);
    let tail = tail_pad(punct, r);
    let mid = lead + r + tail;
    if r.len() == 0 {
        assert(mid =~= Seq::<char>::empty());
        assert(skip_spaces(mid) == mid);
        assert(trim_end(mid) == mid);
    } else {
        let body = r + tail;
        assert(body[0] == r[0]);
        assert(!is_space(body[0]));
        assert(skip_spaces(mid) == body) by {
            if lead.len() > 0 {
                assert(mid[0] == ' ');
                assert(mid.drop_first() =~= body);
                assert(skip_spaces(mid) == skip_spaces(body));
            } else {
                assert(mid =~= body);
            }
            assert(skip_spaces(body) == body);
        }
        assert(trim_end(body) == r) by {
            if tail.len() > 0 {
                assert(body.last() == ' ');
                assert(body.drop_last() =~= r);
                assert(trim_end(body) == trim_end(r));
            } else {
                assert(body =~= r);
            }
            assert(!is_space(r.last()));
            assert(trim_end(r) == r);
        }
        assert(trim_spaces(mid) == r);
    }
    assert(normalize_spec(punct, r) == trim_spaces(collapse_spaces(pad_text(punct, r))));
}

/// A punctuation set given as characters is free of whitespace exactly
/// when each of its characters is.
pub fn check_space_free(punct: &Vec<char>) -> (b: bool)
    ensures
        b == space_free(punct@),
{
    let mut i: usize = 0;
    while i < punct.len()
        invariant
            0 <= i <= punct@.len(),
            forall|j: int| 0 <= j < i ==> !is_space(#[trigger] punct@[j]),
        decreases punct@.len() - i,
    {
        if is_space_char(punct[i]) {
            proof {
                assert(is_space(punct@[i as int]));
            }
            return false;
        }
        i = i + 1;
    }
    true
}

/// Over a run of non-whitespace characters ended by whitespace or the end
/// of the text, the leading-word length is the run length.
proof fn lemma_word_prefix_len_run(s: Seq<char>, start: int, end: int)
    requires
        0 <= start <= end <= s.len(),
        forall|j: int| start <= j < end ==> !is_space(s[j]),
        end == s.len() || is_space(s[end]),
    ensures
        word_prefix_len(s.skip(start)) == end - start,
    decreases end - start,
{
    let t = s.skip(start);
    if start == end {
        if t.len() > 0 {
            assert(t[0] == s[start]);
        }
    } else {
        assert(t[0] == s[start]);
        assert(t.drop_first() =~= s.skip(start + 1));
        lemma_word_prefix_len_run(s, start + 1, end);
    }
}

} // verus!
