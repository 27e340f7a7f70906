use bayes_text::bayes::{argmax, token_counts, BernouliNB, MultinomialNB};

#[test]
fn argmax_prefers_lowest_index_on_ties() {
    assert_eq!(argmax(&vec![5, 7, 7]), 1);
    assert_eq!(argmax(&vec![3, 3]), 0);
    assert_eq!(argmax(&vec![9]), 0);
    assert_eq!(argmax(&vec![1, 2, 9, 4]), 2);
}

#[test]
fn token_counts_collapses_occurrences() {
    let r = token_counts(&[4, 2, 4, 4, 7, 2]);
    assert_eq!(r.len(), 3);
    for &(t, c) in &r {
        match t {
            4 => assert_eq!(c, 3),
            2 => assert_eq!(c, 2),
            7 => assert_eq!(c, 1),
            _ => panic!("unexpected token"),
        }
    }
    assert_eq!(token_counts(&[]), Vec::<(usize, usize)>::new());
}

#[test]
fn bernoulli_counts_presence_per_label() {
    let mut nb = BernouliNB::new(3, 2, 1, 10);
    nb.fit(&[0, 1], 1);
    nb.fit(&[2], 0);
    nb.fit(&[0, 2], 0);
    assert_eq!(nb.total_count(), 3);
    assert_eq!(nb.target_count(0), 2);
    assert_eq!(nb.target_count(1), 1);
    assert_eq!(nb.feature_count(1, 0), 1);
    assert_eq!(nb.feature_count(1, 1), 1);
    assert_eq!(nb.feature_count(1, 2), 0);
    assert_eq!(nb.feature_count(0, 2), 2);
    assert_eq!(nb.label_count(), 2);
    assert_eq!(nb.feature_dim(), 3);
}

#[test]
fn bernoulli_target_counts_sum_to_fit_calls() {
    let mut nb = BernouliNB::new(4, 3, 1, 10);
    let labels = [0usize, 2, 1, 2, 2, 0, 1];
    for &l in &labels {
        nb.fit(&[l % 4], l);
    }
    let sum: u64 = (0..3).map(|l| nb.target_count(l)).sum();
    assert_eq!(sum, labels.len() as u64);
    assert_eq!(nb.total_count(), labels.len() as u64);
}

#[test]
fn bernoulli_smoothed_fractions_match_the_formula() {
    // Vocabulary {"free": 0, "win": 1, "hello": 2}, alpha = 1, two labels.
    let mut nb = BernouliNB::new(3, 2, 1, 1);
    nb.fit(&[0, 1], 1);
    nb.fit(&[2], 0);
    assert_eq!(nb.target_count(0), 1);
    assert_eq!(nb.target_count(1), 1);
    assert_eq!(nb.total_count(), 2);
    // Token 0 under label 1: (1 + 1) / (1 + 2 * 1).
    assert_eq!(nb.token_likelihood_parts(1, 0), (2, 3));
    // Prior of label 1: (1 + 1) / (2 + 2 * 1).
    assert_eq!(nb.prior_parts(1), (2, 4));
    // The log-probability assembled from the exact fractions is
    // log(2/3) + log(2/4).
    let (ln, ld) = nb.token_likelihood_parts(1, 0);
    let (pn, pd) = nb.prior_parts(1);
    let score = (ln as f64 / ld as f64).ln() + (pn as f64 / pd as f64).ln();
    let expected = (2.0f64 / 3.0).ln() + (2.0f64 / 4.0).ln();
    assert!((score - expected).abs() < 1e-12);
}

#[test]
fn bernoulli_fractional_alpha_scales_through() {
    // alpha = 1/10: (fc + 1/10) / (tc + 2/10) == (10 fc + 1) / (10 tc + 2).
    let mut nb = BernouliNB::new(2, 2, 1, 10);
    nb.fit(&[0], 0);
    assert_eq!(nb.token_likelihood_parts(0, 0), (11, 12));
    assert_eq!(nb.token_likelihood_parts(0, 1), (1, 12));
    assert_eq!(nb.prior_parts(0), (11, 12));
}

#[test]
fn multinomial_counts_frequencies_per_label() {
    let mut nb = MultinomialNB::new(3, 2, 1, 10);
    nb.fit(&[0, 0, 1], 1);
    nb.fit(&[2, 2, 2, 1], 0);
    assert_eq!(nb.feature_count(1, 0), 2);
    assert_eq!(nb.feature_count(1, 1), 1);
    assert_eq!(nb.feature_count(0, 2), 3);
    assert_eq!(nb.feature_total(1), 3);
    assert_eq!(nb.feature_total(0), 4);
    assert_eq!(nb.total_count(), 2);
    assert_eq!(nb.target_count(0), 1);
    assert_eq!(nb.target_count(1), 1);
}

#[test]
fn multinomial_feature_totals_equal_row_sums() {
    let mut nb = MultinomialNB::new(4, 2, 1, 10);
    nb.fit(&[0, 1, 1, 3], 0);
    nb.fit(&[3, 3], 0);
    nb.fit(&[2], 1);
    for l in 0..2 {
        let row_sum: u64 = (0..4).map(|t| nb.feature_count(l, t)).sum();
        assert_eq!(row_sum, nb.feature_total(l));
    }
}

#[test]
fn bernoulli_state_round_trips_through_with_counts() {
    let mut nb = BernouliNB::new(3, 2, 1, 10);
    nb.fit(&[0, 1], 1);
    nb.fit(&[2], 0);
    let fc: Vec<Vec<u64>> = (0..2).map(|l| (0..3).map(|t| nb.feature_count(l, t)).collect()).collect();
    let tc: Vec<u64> = (0..2).map(|l| nb.target_count(l)).collect();
    let restored = BernouliNB::with_counts(fc, tc, nb.total_count(), nb.feature_dim(), 1, 10)
        .unwrap();
    for l in 0..2 {
        assert_eq!(restored.target_count(l), nb.target_count(l));
        for t in 0..3 {
            assert_eq!(restored.feature_count(l, t), nb.feature_count(l, t));
        }
        assert_eq!(restored.prior_parts(l), nb.prior_parts(l));
    }
    assert_eq!(restored.total_count(), nb.total_count());
}

#[test]
fn with_counts_rejects_inconsistent_tables() {
    // A presence count larger than the label's sample count.
    assert!(BernouliNB::with_counts(vec![vec![5]], vec![1], 1, 1, 1, 1).is_none());
    // A sample total that is not the sum of the per-label counts.
    assert!(BernouliNB::with_counts(vec![vec![0], vec![0]], vec![1, 1], 3, 1, 1, 1).is_none());
    // A zero smoothing denominator.
    assert!(BernouliNB::with_counts(vec![vec![0]], vec![0], 0, 1, 1, 0).is_none());
    // A feature total that is not the sum of its row.
    assert!(
        MultinomialNB::with_counts(vec![vec![1, 2]], vec![4], vec![1], 1, 2, 1, 1).is_none()
    );
    // A consistent multinomial state is accepted.
    assert!(
        MultinomialNB::with_counts(vec![vec![1, 2]], vec![3], vec![1], 1, 2, 1, 1).is_some()
    );
}

#[test]
fn multinomial_smoothed_fractions_match_the_formula() {
    let mut nb = MultinomialNB::new(3, 2, 1, 1);
    nb.fit(&[0, 0, 1], 1);
    nb.fit(&[2], 0);
    // Token 0 under label 1: (2 + 1) / (3 + 3 * 1).
    assert_eq!(nb.token_likelihood_parts(1, 0), (3, 6));
    // Prior of label 1: (1 + 1) / (2 + 2 * 1).
    assert_eq!(nb.prior_parts(1), (2, 4));
    // An unseen token under label 0: (0 + 1) / (1 + 3 * 1).
    assert_eq!(nb.token_likelihood_parts(0, 0), (1, 4));
}
