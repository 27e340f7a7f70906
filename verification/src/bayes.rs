//! Naive Bayes classifiers over token ids: a Bernoulli (presence) variant
//! and a Multinomial (frequency) variant.  Both keep per-label feature
//! counts and per-label sample counts; the Laplace smoothing factor is a
//! rational `alpha_num / alpha_den` fixed at construction.
//!
//! Scoring a label combines ratios of smoothed counts.  The classifiers
//! expose each ratio as an exact integer fraction (numerator, denominator);
//! taking logarithms and summing them is left to the caller, since that
//! step is inherently approximate.

use vstd::prelude::*;
use crate::tally::{
    count_of, lemma_count_of_absent, lemma_count_of_bounds, lemma_count_of_take_step,
    lemma_seq_sum_le, lemma_seq_sum_take_le, lemma_seq_sum_update,
    lemma_seq_sum_zero, seq_sum,
};

verus! {

/// Index of the first maximum of a non-empty score vector; on ties the
/// lowest index wins.
pub fn argmax(scores: &Vec<u64>) -> (i: usize)
    requires
        scores@.len() > 0,
    ensures
        i < scores@.len(),
        forall|j: int| 0 <= j < scores@.len() ==> scores@[j] <= scores@[i as int],
        forall|j: int| 0 <= j < i ==> scores@[j] < scores@[i as int],
{
    let mut best: usize = 0;
    let mut k: usize = 1;
    while k < scores.len()
        invariant
            1 <= k <= scores@.len(),
            best < k,
            forall|j: int| 0 <= j < k ==> scores@[j] <= scores@[best as int],
            forall|j: int| 0 <= j < best ==> scores@[j] < scores@[best as int],
        decreases scores@.len() - k,
    {
        if scores[k] > scores[best] {
            best = k;
        }
        k = k + 1;
    }
    best
}

/// Collapses a token sequence into (token id, occurrence count) pairs:
/// one entry per distinct token, carrying how often it occurs.
pub fn token_counts(tokens: &[usize]) -> (r: Vec<(usize, usize)>)
    ensures
        forall|i: int|
            0 <= i < r@.len() ==> (#[trigger] r@[i]).1 == count_of(tokens@, r@[i].0)
                && tokens@.contains(r@[i].0),
        forall|i: int, j: int| 0 <= i < j < r@.len() ==> r@[i].0 != r@[j].0,
        forall|w: int|
            #![trigger tokens@[w]]
            0 <= w < tokens@.len() ==> exists|i: int|
                0 <= i < r@.len() && (#[trigger] r@[i]).0 == tokens@[w],
{
    let mut r: Vec<(usize, usize)> = Vec::new();
    let mut k: usize = 0;
    while k < tokens.len()
        invariant
            0 <= k <= tokens@.len(),
            forall|i: int|
                0 <= i < r@.len() ==> (#[trigger] r@[i]).1 == count_of(
                    tokens@.take(k as int),
                    r@[i].0,
                ) && tokens@.take(k as int).contains(r@[i].0),
            forall|i: int, j: int| 0 <= i < j < r@.len() ==> r@[i].0 != r@[j].0,
            forall|w: int|
                #![trigger tokens@[w]]
                0 <= w < k ==> exists|i: int|
                    0 <= i < r@.len() && (#[trigger] r@[i]).0 == tokens@[w],
        decreases tokens@.len() - k,
    {
        let ghost prefix = tokens@.take(k as int);
        let t = tokens[k];
        let mut i: usize = 0;
        let mut found: bool = false;
        while i < r.len() && !found
            invariant
                0 <= i <= r@.len(),
                !found ==> forall|j: int| 0 <= j < i ==> (#[trigger] r@[j]).0 != t,
                found ==> i < r@.len() && r@[i as int].0 == t,
            decreases r@.len() - i, (if found { 0int } else { 1int }),
        {
            if r[i].0 == t {
                found = true;
            } else {
                i = i + 1;
            }
        }
        proof {
            assert(tokens@.take(k + 1).drop_last() =~= prefix);
            assert(tokens@.take(k + 1).last() == tokens@[k as int]);
            assert forall|x: usize| #![auto] prefix.contains(x) implies tokens@.take(k + 1).contains(
                x,
            ) by {
                let w = choose|w: int| 0 <= w < prefix.len() && prefix[w] == x;
                assert(tokens@.take(k + 1)[w] == x);
            }
            assert(tokens@.take(k + 1)[k as int] == t);
            assert(tokens@.take(k + 1).contains(t));
        }
        let ghost old_r = r@;
        if found {
            let c = r[i].1;
            proof {
                lemma_count_of_bounds(prefix, t);
                lemma_count_of_take_step(tokens@, k as int, t);
            }
            r[i] = (t, c + 1);
            proof {
                assert(r@[i as int].0 == t && old_r[i as int].0 == t);
                assert forall|j: int| 0 <= j < r@.len() implies (#[trigger] r@[j]).0 == old_r[j].0
                    by {}
            }
        } else {
            proof {
                assert(forall|j: int| 0 <= j < r@.len() ==> (#[trigger] r@[j]).0 != t);
                assert(!prefix.contains(t)) by {
                    if prefix.contains(t) {
                        let w = choose|w: int| 0 <= w < r@.len() && (#[trigger] r@[w]).0 == t;
                        assert(false);
                    }
                }
                lemma_count_of_absent(prefix, t);
                lemma_count_of_take_step(tokens@, k as int, t);
            }
            r.push((t, 1));
            proof {
                assert(r@[old_r.len() as int].0 == t);
                assert(forall|j: int| 0 <= j < old_r.len() ==> (#[trigger] r@[j]) == old_r[j]);
            }
        }
        proof {
            assert forall|j: int| 0 <= j < r@.len() implies (#[trigger] r@[j]).1 == count_of(
                tokens@.take(k + 1),
                r@[j].0,
            ) && tokens@.take(k + 1).contains(r@[j].0) by {
                lemma_count_of_take_step(tokens@, k as int, r@[j].0);
            }
            assert forall|w: int|
                #![trigger tokens@[w]]
                0 <= w < k + 1 implies exists|j: int|
                    0 <= j < r@.len() && (#[trigger] r@[j]).0 == tokens@[w] by {
                if w == k {
                    if found {
                        assert(r@[i as int].0 == t);
                    } else {
                        assert(r@[old_r.len() as int].0 == t);
                    }
                } else {
                    let j = choose|j: int|
                        0 <= j < old_r.len() && (#[trigger] old_r[j]).0 == tokens@[w];
                    assert(r@[j].0 == tokens@[w]);
                }
            }
        }
        k = k + 1;
    }
    proof {
        assert(tokens@.take(tokens@.len() as int) =~= tokens@);
    }
    r
}

/// The products in the smoothed fractions stay far inside the wide
/// counter type.
proof fn lemma_parts_fit(c: int, d: int, l: int, e: int)
    by (nonlinear_arith)
    requires
        0 <= c <= u64::MAX,
        0 <= d <= u32::MAX,
        0 <= l <= u64::MAX,
        0 <= e <= u32::MAX,
    ensures
        0 <= c * d <= u128::MAX,
        0 <= l * e <= u128::MAX,
        0 <= c * d + l * e <= u128::MAX,
{
}

/// A Naive Bayes classifier using binary features (presence or absence of
/// a specific word).
pub struct BernouliNB {
    /// Feature counts for each label.
    feature_counts: Vec<Vec<u64>>,
    /// Total number of samples.
    total_samples: u64,
    /// Count of samples per target label.
    target_counts: Vec<u64>,
    /// The Laplace smoothing factor, as an exact rational.
    alpha_num: u32,
    alpha_den: u32,
    /// Width of the feature table.
    n_features: usize,
}

impl BernouliNB {
    /// The per-label feature count table.
    pub closed spec fn counts(&self) -> Seq<Seq<u64>> {
        Seq::new(self.feature_counts@.len(), |l: int| self.feature_counts@[l]@)
    }

    /// The per-label sample counts.
    pub closed spec fn targets(&self) -> Seq<u64> {
        self.target_counts@
    }

    pub closed spec fn total(&self) -> u64 {
        self.total_samples
    }

    pub open spec fn labels(&self) -> int {
        self.targets().len() as int
    }

    pub closed spec fn features(&self) -> int {
        self.n_features as int
    }

    /// Numerator of the Laplace smoothing factor.
    pub closed spec fn alpha_n(&self) -> int {
        self.alpha_num as int
    }

    /// Denominator of the Laplace smoothing factor.
    pub closed spec fn alpha_d(&self) -> int {
        self.alpha_den as int
    }

    /// Tables sized to the label and feature counts; the sample total is
    /// the sum of the per-label counts; a presence count never exceeds the
    /// samples seen for its label.
    pub open spec fn wf(&self) -> bool {
        &&& self.counts().len() == self.labels()
        &&& forall|l: int|
            0 <= l < self.labels() ==> (#[trigger] self.counts()[l]).len() == self.features()
        &&& seq_sum(self.targets()) == self.total() as int
        &&& forall|l: int, t: int|
            0 <= l < self.labels() && 0 <= t < self.features() ==> #[trigger] self.counts()[l][t]
                <= self.targets()[l]
        &&& self.alpha_d() >= 1
    }

    /// A fresh classifier: all counts zero.
    pub fn new(n_features: usize, n_labels: usize, alpha_num: u32, alpha_den: u32) -> (c: Self)
        requires
            alpha_den >= 1,
        ensures
            c.wf(),
            c.labels() == n_labels,
            c.features() == n_features,
            c.total() == 0,
            forall|l: int| 0 <= l < n_labels ==> c.targets()[l] == 0,
            forall|l: int, t: int|
                0 <= l < n_labels && 0 <= t < n_features ==> #[trigger] c.counts()[l][t] == 0,
            c.alpha_n() == alpha_num,
            c.alpha_d() == alpha_den,
    {
        let (feature_counts, target_counts) = zero_tables(n_features, n_labels);
        let c = BernouliNB {
            feature_counts,
            total_samples: 0,
            target_counts,
            alpha_num,
            alpha_den,
            n_features,
        };
        proof {
            lemma_seq_sum_zero(c.targets());
        }
        c
    }

    /// Fits one sample: every distinct token of the (deduplicated) input
    /// is counted once for `label`, and the label's sample count grows by
    /// one.
    pub fn fit(&mut self, tokens: &[usize], label: usize)
        requires
            old(self).wf(),
            label < old(self).labels(),
            forall|i: int| 0 <= i < tokens@.len() ==> tokens@[i] < old(self).features(),
            forall|i: int, j: int| 0 <= i < j < tokens@.len() ==> tokens@[i] != tokens@[j],
            old(self).total() < u64::MAX,
        ensures
            final(self).wf(),
            final(self).labels() == old(self).labels(),
            final(self).features() == old(self).features(),
            final(self).alpha_n() == old(self).alpha_n(),
            final(self).alpha_d() == old(self).alpha_d(),
            final(self).total() == old(self).total() + 1,
            final(self).targets() == old(self).targets().update(
                label as int,
                (old(self).targets()[label as int] + 1) as u64,
            ),
            forall|l: int, t: int|
                0 <= l < old(self).labels() && 0 <= t < old(self).features()
                    ==> #[trigger] final(self).counts()[l][t] == old(self).counts()[l][t] + (if l
                    == label
                    && tokens@.contains(t as usize) {
                    1int
                } else {
                    0int
                }),
    {
        let ghost orig = *self;
        let mut k: usize = 0;
        while k < tokens.len()
            invariant
                orig.wf(),
                label < orig.labels(),
                forall|i: int| 0 <= i < tokens@.len() ==> tokens@[i] < orig.features(),
                forall|i: int, j: int| 0 <= i < j < tokens@.len() ==> tokens@[i] != tokens@[j],
                orig.total() < u64::MAX,
                0 <= k <= tokens@.len(),
                self.target_counts == orig.target_counts,
                self.total_samples == orig.total_samples,
                self.alpha_num == orig.alpha_num,
                self.alpha_den == orig.alpha_den,
                self.n_features == orig.n_features,
                self.counts().len() == orig.counts().len(),
                forall|l: int|
                    0 <= l < orig.labels() ==> (#[trigger] self.counts()[l]).len()
                        == orig.features(),
                forall|l: int, t: int|
                    0 <= l < orig.labels() && 0 <= t < orig.features() ==> #[trigger] self.counts()[l][t]
                        == orig.counts()[l][t] + (if l == label && tokens@.take(k as int).contains(
                        t as usize,
                    ) {
                        1int
                    } else {
                        0int
                    }),
            decreases tokens@.len() - k,
        {
            let ghost prefix = tokens@.take(k as int);
            let t = tokens[k];
            proof {
                assert(!prefix.contains(t)) by {
                    if prefix.contains(t) {
                        let w = choose|w: int| 0 <= w < prefix.len() && prefix[w] == t;
                        assert(tokens@[w] == tokens@[k as int]);
                    }
                }
                lemma_seq_sum_le(orig.targets(), label as int);
                assert(self.counts()[label as int].len() == orig.features());
                assert(self.counts()[label as int][t as int] == orig.counts()[label as int][t as int]);
                assert(orig.counts()[label as int][t as int] <= orig.targets()[label as int]);
            }
            let ghost prev = *self;
            let c = self.feature_counts[label][t];
            self.feature_counts[label][t] = c + 1;
            proof {
                assert(tokens@.take(k + 1) =~= prefix.push(tokens@[k as int]));
                assert(self.feature_counts@[label as int]@ =~= prev.feature_counts@[label as int]@
                    .update(t as int, (c + 1) as u64));
                assert(forall|l: int|
                    0 <= l < self.feature_counts@.len() && l != label
                        ==> self.feature_counts@[l] == prev.feature_counts@[l]);
                assert forall|l: int|
                    0 <= l < orig.labels() implies (#[trigger] self.counts()[l]).len()
                    == orig.features() by {
                    assert(prev.counts()[l].len() == orig.features());
                }
                assert forall|l: int, x: int|
                    0 <= l < orig.labels() && 0 <= x < orig.features() implies #[trigger] self.counts()[l][x]
                    == orig.counts()[l][x] + (if l == label && tokens@.take(k + 1).contains(
                    x as usize,
                ) {
                    1int
                } else {
                    0int
                }) by {
                    let ext = tokens@.take(k + 1);
                    assert(ext[k as int] == t);
                    if l == label {
                        if x == t {
                            assert(self.counts()[l][x] == c + 1);
                            assert(c == prev.counts()[l][x]);
                            assert(prev.counts()[l][x] == orig.counts()[l][x] + (if prefix.contains(
                                x as usize,
                            ) {
                                1int
                            } else {
                                0int
                            }));
                            assert(ext.contains(x as usize));
                        } else {
                            assert(self.counts()[l][x] == prev.counts()[l][x]);
                            assert(prev.counts()[l][x] == orig.counts()[l][x] + (if prefix.contains(
                                x as usize,
                            ) {
                                1int
                            } else {
                                0int
                            }));
                            assert(ext.contains(x as usize) <==> prefix.contains(x as usize)) by {
                                if ext.contains(x as usize) {
                                    let w = choose|w: int|
                                        0 <= w < ext.len() && ext[w] == x as usize;
                                    assert(prefix[w] == x as usize);
                                }
                                if prefix.contains(x as usize) {
                                    let w = choose|w: int|
                                        0 <= w < prefix.len() && prefix[w] == x as usize;
                                    assert(ext[w] == x as usize);
                                }
                            }
                        }
                    } else {
                        assert(self.counts()[l] == prev.counts()[l]);
                        assert(prev.counts()[l][x] == orig.counts()[l][x]);
                    }
                }
            }
            k = k + 1;
        }
        proof {
            assert(tokens@.take(tokens@.len() as int) =~= tokens@);
            lemma_seq_sum_le(orig.targets(), label as int);
        }
        self.total_samples = self.total_samples + 1;
        let tc = self.target_counts[label];
        self.target_counts[label] = tc + 1;
        proof {
            lemma_seq_sum_update(orig.targets(), label as int, (tc + 1) as u64);
        }
    }

    /// The exact smoothed likelihood fraction contributed by one token for
    /// one label: `(count + alpha) / (label_samples + n_labels * alpha)`,
    /// scaled through by the smoothing denominator.
    pub fn token_likelihood_parts(&self, label: usize, token: usize) -> (r: (u128, u128))
        requires
            self.wf(),
            label < self.labels(),
            token < self.features(),
        ensures
            r.0 == self.counts()[label as int][token as int] * self.alpha_d() + self.alpha_n(),
            r.1 == self.targets()[label as int] * self.alpha_d() + self.labels() * self.alpha_n(),
    {
        proof {
            assert(self.counts()[label as int].len() == self.features());
        }
        let fc = self.feature_counts[label][token];
        let tc = self.target_counts[label];
        let nl = self.target_counts.len();
        proof {
            lemma_parts_fit(fc as int, self.alpha_den as int, 1, self.alpha_num as int);
            lemma_parts_fit(tc as int, self.alpha_den as int, nl as int, self.alpha_num as int);
        }
        let num = (fc as u128) * (self.alpha_den as u128) + (self.alpha_num as u128);
        let den = (tc as u128) * (self.alpha_den as u128) + (nl as u128) * (self.alpha_num
            as u128);
        (num, den)
    }

    /// The exact smoothed prior fraction of a label:
    /// `(label_samples + alpha) / (total_samples + 2 * alpha)`, scaled
    /// through by the smoothing denominator.
    pub fn prior_parts(&self, label: usize) -> (r: (u128, u128))
        requires
            self.wf(),
            label < self.labels(),
        ensures
            r.0 == self.targets()[label as int] * self.alpha_d() + self.alpha_n(),
            r.1 == self.total() * self.alpha_d() + 2 * self.alpha_n(),
    {
        let tc = self.target_counts[label];
        proof {
            lemma_parts_fit(tc as int, self.alpha_den as int, 1, self.alpha_num as int);
            lemma_parts_fit(self.total_samples as int, self.alpha_den as int, 2, self.alpha_num as int);
        }
        let num = (tc as u128) * (self.alpha_den as u128) + (self.alpha_num as u128);
        let den = (self.total_samples as u128) * (self.alpha_den as u128) + 2 * (self.alpha_num
            as u128);
        (num, den)
    }

    /// One entry of the presence-count table.
    pub fn feature_count(&self, label: usize, token: usize) -> (c: u64)
        requires
            self.wf(),
            label < self.labels(),
            token < self.features(),
        ensures
            c == self.counts()[label as int][token as int],
    {
        proof {
            assert(self.counts()[label as int].len() == self.features());
        }
        self.feature_counts[label][token]
    }

    /// How many samples carried the given label.
    pub fn target_count(&self, label: usize) -> (c: u64)
        requires
            label < self.labels(),
        ensures
            c == self.targets()[label as int],
    {
        self.target_counts[label]
    }

    /// How many samples were fitted in all.
    pub fn total_count(&self) -> (c: u64)
        ensures
            c == self.total(),
    {
        self.total_samples
    }

    /// The number of labels.
    pub fn label_count(&self) -> (n: usize)
        ensures
            n == self.labels(),
    {
        self.target_counts.len()
    }

    /// The width of the feature table.
    pub fn feature_dim(&self) -> (n: usize)
        ensures
            n == self.features(),
    {
        self.n_features
    }

    /// Rebuilds a classifier from previously exposed state, as a restore
    /// of a saved model: the tables are accepted exactly when they satisfy
    /// the data-model invariants.
    pub fn with_counts(
        feature_counts: Vec<Vec<u64>>,
        target_counts: Vec<u64>,
        total_samples: u64,
        n_features: usize,
        alpha_num: u32,
        alpha_den: u32,
    ) -> (r: Option<Self>)
        ensures
            match r {
                Some(c) => {
                    &&& c.wf()
                    &&& c.labels() == target_counts@.len()
                    &&& c.features() == n_features
                    &&& c.total() == total_samples
                    &&& c.targets() == target_counts@
                    &&& forall|l: int|
                        0 <= l < target_counts@.len() ==> #[trigger] c.counts()[l]
                            == feature_counts@[l]@
                    &&& c.alpha_n() == alpha_num
                    &&& c.alpha_d() == alpha_den
                },
                None => !bernoulli_counts_ok(
                    feature_counts@.map_values(|row: Vec<u64>| row@),
                    target_counts@,
                    total_samples,
                    n_features as int,
                    alpha_den as int,
                ),
            },
    {
        let ghost fcs = feature_counts@.map_values(|row: Vec<u64>| row@);
        let ghost tcs = target_counts@;
        if alpha_den < 1 {
            return None;
        }
        if feature_counts.len() != target_counts.len() {
            return None;
        }
        let n_labels = target_counts.len();
        let mut l: usize = 0;
        while l < n_labels
            invariant
                n_labels == tcs.len(),
                fcs.len() == tcs.len(),
                fcs == feature_counts@.map_values(|row: Vec<u64>| row@),
                tcs == target_counts@,
                0 <= l <= n_labels,
                forall|i: int| 0 <= i < l ==> (#[trigger] fcs[i]).len() == n_features,
                forall|i: int, t: int|
                    0 <= i < l && 0 <= t < n_features ==> #[trigger] fcs[i][t] <= tcs[i],
            decreases n_labels - l,
        {
            if feature_counts[l].len() != n_features {
                proof {
                    assert(fcs[l as int] == feature_counts@[l as int]@);
                }
                return None;
            }
            proof {
                assert(fcs[l as int] == feature_counts@[l as int]@);
            }
            let mut t: usize = 0;
            while t < n_features
                invariant
                    n_labels == tcs.len(),
                    fcs == feature_counts@.map_values(|row: Vec<u64>| row@),
                    tcs == target_counts@,
                    0 <= l < n_labels,
                    fcs.len() == tcs.len(),
                    fcs[l as int].len() == n_features,
                    0 <= t <= n_features,
                    forall|x: int| 0 <= x < t ==> #[trigger] fcs[l as int][x] <= tcs[l as int],
                decreases n_features - t,
            {
                if feature_counts[l][t] > target_counts[l] {
                    proof {
                        assert(fcs[l as int] == feature_counts@[l as int]@);
                        assert(fcs[l as int][t as int] > tcs[l as int]);
                    }
                    return None;
                }
                proof {
                    assert(fcs[l as int] == feature_counts@[l as int]@);
                }
                t = t + 1;
            }
            l = l + 1;
        }
        let mut s: u64 = 0;
        let mut i: usize = 0;
        proof {
            assert(tcs.take(0) =~= Seq::<u64>::empty());
        }
        while i < n_labels
            invariant
                n_labels == tcs.len(),
                tcs == target_counts@,
                0 <= i <= n_labels,
                s == seq_sum(tcs.take(i as int)),
            decreases n_labels - i,
        {
            proof {
                assert(tcs.take(i + 1).drop_last() =~= tcs.take(i as int));
                assert(tcs.take(i + 1).last() == tcs[i as int]);
            }
            if target_counts[i] > u64::MAX - s {
                proof {
                    lemma_seq_sum_take_le(tcs, i + 1);
                }
                return None;
            }
            s = s + target_counts[i];
            i = i + 1;
        }
        proof {
            assert(tcs.take(tcs.len() as int) =~= tcs);
        }
        if s != total_samples {
            return None;
        }
        let c = BernouliNB {
            feature_counts,
            total_samples,
            target_counts,
            alpha_num,
            alpha_den,
            n_features,
        };
        proof {
            assert(forall|l: int| 0 <= l < tcs.len() ==> #[trigger] c.counts()[l] == fcs[l]);
        }
        Some(c)
    }
}

/// The conditions under which saved Bernoulli tables are accepted: the
/// data-model invariants of the classifier.
pub open spec fn bernoulli_counts_ok(
    fcs: Seq<Seq<u64>>,
    tcs: Seq<u64>,
    total: u64,
    n_features: int,
    alpha_den: int,
) -> bool {
    &&& alpha_den >= 1
    &&& fcs.len() == tcs.len()
    &&& forall|l: int| 0 <= l < fcs.len() ==> (#[trigger] fcs[l]).len() == n_features
    &&& forall|l: int, t: int|
        0 <= l < fcs.len() && 0 <= t < n_features ==> #[trigger] fcs[l][t] <= tcs[l]
    &&& seq_sum(tcs) == total
}

/// A Naive Bayes classifier using multinomial features (word frequency).
pub struct MultinomialNB {
    /// Feature counts for each label.
    feature_counts: Vec<Vec<u64>>,
    /// Total feature counts per label.
    label_feature_totals: Vec<u64>,
    /// Count of samples per target label.
    target_counts: Vec<u64>,
    /// The Laplace smoothing factor, as an exact rational.
    alpha_num: u32,
    alpha_den: u32,
    /// Total number of samples.
    total_samples: u64,
    /// Width of the feature table.
    n_features: usize,
}

impl MultinomialNB {
    /// The per-label feature count table.
    pub closed spec fn counts(&self) -> Seq<Seq<u64>> {
        Seq::new(self.feature_counts@.len(), |l: int| self.feature_counts@[l]@)
    }

    /// The per-label total feature counts.
    pub closed spec fn feature_totals(&self) -> Seq<u64> {
        self.label_feature_totals@
    }

    /// The per-label sample counts.
    pub closed spec fn targets(&self) -> Seq<u64> {
        self.target_counts@
    }

    pub closed spec fn total(&self) -> u64 {
        self.total_samples
    }

    pub open spec fn labels(&self) -> int {
        self.targets().len() as int
    }

    pub closed spec fn features(&self) -> int {
        self.n_features as int
    }

    /// Numerator of the Laplace smoothing factor.
    pub closed spec fn alpha_n(&self) -> int {
        self.alpha_num as int
    }

    /// Denominator of the Laplace smoothing factor.
    pub closed spec fn alpha_d(&self) -> int {
        self.alpha_den as int
    }

    /// Tables sized to the label and feature counts; the sample total is
    /// the sum of the per-label counts; each label's feature total is the
    /// sum of its feature-count row.
    pub open spec fn wf(&self) -> bool {
        &&& self.counts().len() == self.labels()
        &&& self.feature_totals().len() == self.labels()
        &&& forall|l: int|
            0 <= l < self.labels() ==> (#[trigger] self.counts()[l]).len() == self.features()
        &&& seq_sum(self.targets()) == self.total() as int
        &&& forall|l: int|
            0 <= l < self.labels() ==> seq_sum(#[trigger] self.counts()[l])
                == self.feature_totals()[l]
        &&& self.alpha_d() >= 1
    }

    /// A fresh classifier: all counts zero.
    pub fn new(n_features: usize, n_labels: usize, alpha_num: u32, alpha_den: u32) -> (c: Self)
        requires
            alpha_den >= 1,
        ensures
            c.wf(),
            c.labels() == n_labels,
            c.features() == n_features,
            c.total() == 0,
            forall|l: int| 0 <= l < n_labels ==> c.targets()[l] == 0,
            forall|l: int| 0 <= l < n_labels ==> c.feature_totals()[l] == 0,
            forall|l: int, t: int|
                0 <= l < n_labels && 0 <= t < n_features ==> #[trigger] c.counts()[l][t] == 0,
            c.alpha_n() == alpha_num,
            c.alpha_d() == alpha_den,
    {
        let (feature_counts, target_counts) = zero_tables(n_features, n_labels);
        let label_feature_totals = zero_row(n_labels);
        let c = MultinomialNB {
            feature_counts,
            label_feature_totals,
            target_counts,
            alpha_num,
            alpha_den,
            total_samples: 0,
            n_features,
        };
        proof {
            lemma_seq_sum_zero(c.targets());
            assert forall|l: int| 0 <= l < n_labels implies seq_sum(#[trigger] c.counts()[l])
                == c.feature_totals()[l] by {
                lemma_seq_sum_zero(c.counts()[l]);
            }
        }
        c
    }

    /// Fits one sample: every token occurrence of the input is counted for
    /// `target`, the label's feature total grows by the number of tokens,
    /// and the label's sample count grows by one.
    pub fn fit(&mut self, tokens: &[usize], target: usize)
        requires
            old(self).wf(),
            target < old(self).labels(),
            forall|i: int| 0 <= i < tokens@.len() ==> tokens@[i] < old(self).features(),
            old(self).total() < u64::MAX,
            old(self).feature_totals()[target as int] + tokens@.len() <= u64::MAX,
        ensures
            final(self).wf(),
            final(self).labels() == old(self).labels(),
            final(self).features() == old(self).features(),
            final(self).alpha_n() == old(self).alpha_n(),
            final(self).alpha_d() == old(self).alpha_d(),
            final(self).total() == old(self).total() + 1,
            final(self).targets() == old(self).targets().update(
                target as int,
                (old(self).targets()[target as int] + 1) as u64,
            ),
            final(self).feature_totals() == old(self).feature_totals().update(
                target as int,
                (old(self).feature_totals()[target as int] + tokens@.len()) as u64,
            ),
            forall|l: int, t: int|
                0 <= l < old(self).labels() && 0 <= t < old(self).features()
                    ==> #[trigger] final(self).counts()[l][t] == old(self).counts()[l][t] + (if l
                    == target {
                    count_of(tokens@, t as usize)
                } else {
                    0int
                }),
    {
        let ghost orig = *self;
        proof {
            lemma_count_of_bounds(tokens@, 0);
        }
        let mut k: usize = 0;
        while k < tokens.len()
            invariant
                orig.wf(),
                target < orig.labels(),
                forall|i: int| 0 <= i < tokens@.len() ==> tokens@[i] < orig.features(),
                orig.total() < u64::MAX,
                orig.feature_totals()[target as int] + tokens@.len() <= u64::MAX,
                0 <= k <= tokens@.len(),
                self.target_counts == orig.target_counts,
                self.total_samples == orig.total_samples,
                self.alpha_num == orig.alpha_num,
                self.alpha_den == orig.alpha_den,
                self.n_features == orig.n_features,
                self.counts().len() == orig.counts().len(),
                forall|l: int|
                    0 <= l < orig.labels() ==> (#[trigger] self.counts()[l]).len()
                        == orig.features(),
                self.feature_totals() == orig.feature_totals().update(
                    target as int,
                    (orig.feature_totals()[target as int] + k) as u64,
                ),
                forall|l: int|
                    0 <= l < orig.labels() ==> seq_sum(#[trigger] self.counts()[l])
                        == self.feature_totals()[l],
                forall|l: int, t: int|
                    0 <= l < orig.labels() && 0 <= t < orig.features()
                        ==> #[trigger] self.counts()[l][t] == orig.counts()[l][t] + (if l == target {
                        count_of(tokens@.take(k as int), t as usize)
                    } else {
                        0int
                    }),
            decreases tokens@.len() - k,
        {
            let t = tokens[k];
            proof {
                lemma_seq_sum_le(self.counts()[target as int], t as int);
            }
            let ghost prev = *self;
            let c = self.feature_counts[target][t];
            let lf = self.label_feature_totals[target];
            self.feature_counts[target][t] = c + 1;
            self.label_feature_totals[target] = lf + 1;
            proof {
                assert(self.feature_counts@[target as int]@ =~= prev.feature_counts@[target as int]@
                    .update(t as int, (c + 1) as u64));
                assert(forall|l: int|
                    0 <= l < self.feature_counts@.len() && l != target
                        ==> self.feature_counts@[l] == prev.feature_counts@[l]);
                assert(self.feature_totals() =~= orig.feature_totals().update(
                    target as int,
                    (orig.feature_totals()[target as int] + k + 1) as u64,
                ));
                lemma_seq_sum_update(prev.counts()[target as int], t as int, (c + 1) as u64);
                assert forall|l: int|
                    0 <= l < orig.labels() implies (#[trigger] self.counts()[l]).len()
                    == orig.features() by {
                    assert(prev.counts()[l].len() == orig.features());
                }
                assert forall|l: int|
                    0 <= l < orig.labels() implies seq_sum(#[trigger] self.counts()[l])
                    == self.feature_totals()[l] by {
                    if l != target {
                        assert(self.counts()[l] == prev.counts()[l]);
                    }
                }
                assert forall|l: int, x: int|
                    0 <= l < orig.labels() && 0 <= x < orig.features()
                        implies #[trigger] self.counts()[l][x] == orig.counts()[l][x] + (if l
                    == target {
                    count_of(tokens@.take(k + 1), x as usize)
                } else {
                    0int
                }) by {
                    lemma_count_of_take_step(tokens@, k as int, x as usize);
                    if l == target {
                        if x != t {
                            assert(self.counts()[l][x] == prev.counts()[l][x]);
                        }
                    } else {
                        assert(self.counts()[l] == prev.counts()[l]);
                    }
                }
            }
            k = k + 1;
        }
        proof {
            assert(tokens@.take(tokens@.len() as int) =~= tokens@);
            lemma_seq_sum_le(orig.targets(), target as int);
        }
        self.total_samples = self.total_samples + 1;
        let tc = self.target_counts[target];
        self.target_counts[target] = tc + 1;
        proof {
            lemma_seq_sum_update(orig.targets(), target as int, (tc + 1) as u64);
        }
    }

    /// The exact smoothed likelihood fraction contributed by one token for
    /// one label: `(count + alpha) / (label_feature_total + n_features *
    /// alpha)`, scaled through by the smoothing denominator.
    pub fn token_likelihood_parts(&self, label: usize, token: usize) -> (r: (u128, u128))
        requires
            self.wf(),
            label < self.labels(),
            token < self.features(),
        ensures
            r.0 == self.counts()[label as int][token as int] * self.alpha_d() + self.alpha_n(),
            r.1 == self.feature_totals()[label as int] * self.alpha_d() + self.features()
                * self.alpha_n(),
    {
        proof {
            assert(self.counts()[label as int].len() == self.features());
        }
        let fc = self.feature_counts[label][token];
        let lf = self.label_feature_totals[label];
        let nf = self.n_features;
        proof {
            lemma_parts_fit(fc as int, self.alpha_den as int, 1, self.alpha_num as int);
            lemma_parts_fit(lf as int, self.alpha_den as int, nf as int, self.alpha_num as int);
        }
        let num = (fc as u128) * (self.alpha_den as u128) + (self.alpha_num as u128);
        let den = (lf as u128) * (self.alpha_den as u128) + (nf as u128) * (self.alpha_num
            as u128);
        (num, den)
    }

    /// The exact smoothed prior fraction of a label:
    /// `(label_samples + alpha) / (total_samples + n_labels * alpha)`,
    /// scaled through by the smoothing denominator.
    pub fn prior_parts(&self, label: usize) -> (r: (u128, u128))
        requires
            self.wf(),
            label < self.labels(),
        ensures
            r.0 == self.targets()[label as int] * self.alpha_d() + self.alpha_n(),
            r.1 == self.total() * self.alpha_d() + self.labels() * self.alpha_n(),
    {
        let tc = self.target_counts[label];
        let nl = self.target_counts.len();
        proof {
            lemma_parts_fit(tc as int, self.alpha_den as int, 1, self.alpha_num as int);
            lemma_parts_fit(self.total_samples as int, self.alpha_den as int, nl as int, self.alpha_num as int);
        }
        let num = (tc as u128) * (self.alpha_den as u128) + (self.alpha_num as u128);
        let den = (self.total_samples as u128) * (self.alpha_den as u128) + (nl as u128) * (
        self.alpha_num as u128);
        (num, den)
    }

    /// One entry of the frequency-count table.
    pub fn feature_count(&self, label: usize, token: usize) -> (c: u64)
        requires
            self.wf(),
            label < self.labels(),
            token < self.features(),
        ensures
            c == self.counts()[label as int][token as int],
    {
        proof {
            assert(self.counts()[label as int].len() == self.features());
        }
        self.feature_counts[label][token]
    }

    /// The total of all feature counts recorded for a label.
    pub fn feature_total(&self, label: usize) -> (c: u64)
        requires
            label < self.labels(),
            self.feature_totals().len() == self.labels(),
        ensures
            c == self.feature_totals()[label as int],
    {
        self.label_feature_totals[label]
    }

    /// How many samples carried the given label.
    pub fn target_count(&self, label: usize) -> (c: u64)
        requires
            label < self.labels(),
        ensures
            c == self.targets()[label as int],
    {
        self.target_counts[label]
    }

    /// How many samples were fitted in all.
    pub fn total_count(&self) -> (c: u64)
        ensures
            c == self.total(),
    {
        self.total_samples
    }

    /// The number of labels.
    pub fn label_count(&self) -> (n: usize)
        ensures
            n == self.labels(),
    {
        self.target_counts.len()
    }

    /// The width of the feature table.
    pub fn feature_dim(&self) -> (n: usize)
        ensures
            n == self.features(),
    {
        self.n_features
    }

    /// Rebuilds a classifier from previously exposed state, as a restore
    /// of a saved model: the tables are accepted exactly when they satisfy
    /// the data-model invariants.
    pub fn with_counts(
        feature_counts: Vec<Vec<u64>>,
        label_feature_totals: Vec<u64>,
        target_counts: Vec<u64>,
        total_samples: u64,
        n_features: usize,
        alpha_num: u32,
        alpha_den: u32,
    ) -> (r: Option<Self>)
        ensures
            match r {
                Some(c) => {
                    &&& c.wf()
                    &&& c.labels() == target_counts@.len()
                    &&& c.features() == n_features
                    &&& c.total() == total_samples
                    &&& c.targets() == target_counts@
                    &&& c.feature_totals() == label_feature_totals@
                    &&& forall|l: int|
                        0 <= l < target_counts@.len() ==> #[trigger] c.counts()[l]
                            == feature_counts@[l]@
                    &&& c.alpha_n() == alpha_num
                    &&& c.alpha_d() == alpha_den
                },
                None => !multinomial_counts_ok(
                    feature_counts@.map_values(|row: Vec<u64>| row@),
                    label_feature_totals@,
                    target_counts@,
                    total_samples,
                    n_features as int,
                    alpha_den as int,
                ),
            },
    {
        let ghost fcs = feature_counts@.map_values(|row: Vec<u64>| row@);
        let ghost lfs = label_feature_totals@;
        let ghost tcs = target_counts@;
        if alpha_den < 1 {
            return None;
        }
        if feature_counts.len() != target_counts.len() {
            return None;
        }
        if label_feature_totals.len() != target_counts.len() {
            return None;
        }
        let n_labels = target_counts.len();
        let mut l: usize = 0;
        while l < n_labels
            invariant
                n_labels == tcs.len(),
                fcs.len() == tcs.len(),
                lfs.len() == tcs.len(),
                fcs == feature_counts@.map_values(|row: Vec<u64>| row@),
                lfs == label_feature_totals@,
                tcs == target_counts@,
                0 <= l <= n_labels,
                forall|i: int| 0 <= i < l ==> (#[trigger] fcs[i]).len() == n_features,
                forall|i: int| 0 <= i < l ==> seq_sum(#[trigger] fcs[i]) == lfs[i],
            decreases n_labels - l,
        {
            if feature_counts[l].len() != n_features {
                proof {
                    assert(fcs[l as int] == feature_counts@[l as int]@);
                }
                return None;
            }
            proof {
                assert(fcs[l as int] == feature_counts@[l as int]@);
            }
            let ghost row = fcs[l as int];
            let mut s: u64 = 0;
            let mut t: usize = 0;
            proof {
                assert(row.take(0) =~= Seq::<u64>::empty());
            }
            while t < n_features
                invariant
                    fcs == feature_counts@.map_values(|row2: Vec<u64>| row2@),
                    0 <= l < fcs.len(),
                    row == fcs[l as int],
                    row.len() == n_features,
                    0 <= t <= n_features,
                    s == seq_sum(row.take(t as int)),
                decreases n_features - t,
            {
                proof {
                    assert(row.take(t + 1).drop_last() =~= row.take(t as int));
                    assert(row.take(t + 1).last() == row[t as int]);
                    assert(fcs[l as int] == feature_counts@[l as int]@);
                }
                if feature_counts[l][t] > u64::MAX - s {
                    proof {
                        lemma_seq_sum_take_le(row, t + 1);
                    }
                    return None;
                }
                s = s + feature_counts[l][t];
                t = t + 1;
            }
            proof {
                assert(row.take(row.len() as int) =~= row);
            }
            if s != label_feature_totals[l] {
                return None;
            }
            l = l + 1;
        }
        let mut s: u64 = 0;
        let mut i: usize = 0;
        proof {
            assert(tcs.take(0) =~= Seq::<u64>::empty());
        }
        while i < n_labels
            invariant
                n_labels == tcs.len(),
                tcs == target_counts@,
                0 <= i <= n_labels,
                s == seq_sum(tcs.take(i as int)),
            decreases n_labels - i,
        {
            proof {
                assert(tcs.take(i + 1).drop_last() =~= tcs.take(i as int));
                assert(tcs.take(i + 1).last() == tcs[i as int]);
            }
            if target_counts[i] > u64::MAX - s {
                proof {
                    lemma_seq_sum_take_le(tcs, i + 1);
                }
                return None;
            }
            s = s + target_counts[i];
            i = i + 1;
        }
        proof {
            assert(tcs.take(tcs.len() as int) =~= tcs);
        }
        if s != total_samples {
            return None;
        }
        let c = MultinomialNB {
            feature_counts,
            label_feature_totals,
            target_counts,
            alpha_num,
            alpha_den,
            total_samples,
            n_features,
        };
        proof {
            assert(forall|l: int| 0 <= l < tcs.len() ==> #[trigger] c.counts()[l] == fcs[l]);
        }
        Some(c)
    }
}

/// The conditions under which saved multinomial tables are accepted: the
/// data-model invariants of the classifier.
pub open spec fn multinomial_counts_ok(
    fcs: Seq<Seq<u64>>,
    lfs: Seq<u64>,
    tcs: Seq<u64>,
    total: u64,
    n_features: int,
    alpha_den: int,
) -> bool {
    &&& alpha_den >= 1
    &&& fcs.len() == tcs.len()
    &&& lfs.len() == tcs.len()
    &&& forall|l: int| 0 <= l < fcs.len() ==> (#[trigger] fcs[l]).len() == n_features
    &&& forall|l: int| 0 <= l < fcs.len() ==> seq_sum(#[trigger] fcs[l]) == lfs[l]
    &&& seq_sum(tcs) == total
}

/// Builds the zeroed feature table and target-count table.
fn zero_tables(n_features: usize, n_labels: usize) -> (r: (Vec<Vec<u64>>, Vec<u64>))
    ensures
        r.0@.len() == n_labels,
        forall|l: int| 0 <= l < n_labels ==> (#[trigger] r.0@[l])@.len() == n_features,
        forall|l: int, t: int| 0 <= l < n_labels && 0 <= t < n_features ==> r.0@[l]@[t] == 0,
        r.1@.len() == n_labels,
        forall|l: int| 0 <= l < n_labels ==> r.1@[l] == 0,
{
    let mut feature_counts: Vec<Vec<u64>> = Vec::new();
    let mut l: usize = 0;
    while l < n_labels
        invariant
            0 <= l <= n_labels,
            feature_counts@.len() == l,
            forall|i: int| 0 <= i < l ==> (#[trigger] feature_counts@[i])@.len() == n_features,
            forall|i: int, t: int|
                0 <= i < l && 0 <= t < n_features ==> feature_counts@[i]@[t] == 0,
        decreases n_labels - l,
    {
        feature_counts.push(zero_row(n_features));
        l = l + 1;
    }
    (feature_counts, zero_row(n_labels))
}

/// A zeroed count row.
fn zero_row(n: usize) -> (r: Vec<u64>)
    ensures
        r@.len() == n,
        forall|i: int| 0 <= i < n ==> r@[i] == 0,
{
    let mut row: Vec<u64> = Vec::new();
    let mut t: usize = 0;
    while t < n
        invariant
            0 <= t <= n,
            row@.len() == t,
            forall|j: int| 0 <= j < t ==> row@[j] == 0,
        decreases n - t,
    {
        row.push(0);
        t = t + 1;
    }
    row
}

} // verus!
