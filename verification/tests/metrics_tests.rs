use bayes_text::metrics::confusion_matrix;

#[test]
fn confusion_matrix_counts_actual_by_predicted() {
    let predicted = [0usize, 1, 1, 0];
    let actual = [0usize, 1, 0, 0];
    let m = confusion_matrix(&predicted, &actual, 2);
    assert_eq!(m.class_count(), 2);
    assert_eq!(m.cell(0, 0), 2);
    assert_eq!(m.cell(0, 1), 1);
    assert_eq!(m.cell(1, 0), 0);
    assert_eq!(m.cell(1, 1), 1);
}

#[test]
fn confusion_matrix_total_equals_pair_count() {
    let predicted = [0usize, 1, 2, 1, 0, 2, 2];
    let actual = [2usize, 1, 2, 0, 0, 1, 2];
    let m = confusion_matrix(&predicted, &actual, 3);
    let mut total = 0u64;
    for a in 0..3 {
        for p in 0..3 {
            total += m.cell(a, p);
        }
    }
    assert_eq!(total, predicted.len() as u64);
}

#[test]
fn accuracy_and_recall_on_the_binary_scenario() {
    let predicted = [0usize, 1, 1, 0];
    let actual = [0usize, 1, 0, 0];
    let m = confusion_matrix(&predicted, &actual, 2);
    let (correct, total) = m.accuracy().unwrap();
    assert_eq!((correct, total), (3, 4));
    assert!((correct as f64 / total as f64 - 0.75).abs() < 1e-12);
    let (tp, pos) = m.recall(1).unwrap();
    assert_eq!((tp, pos), (1, 1));
    assert!((tp as f64 / pos as f64 - 1.0).abs() < 1e-12);
    let (tp0, pos0) = m.recall(0).unwrap();
    assert_eq!((tp0, pos0), (2, 3));
}

#[test]
fn accuracy_is_one_when_predictions_are_perfect() {
    let labels = [1usize, 0, 1, 1, 0];
    let m = confusion_matrix(&labels, &labels, 2);
    let (correct, total) = m.accuracy().unwrap();
    assert_eq!(correct, total);
    assert_eq!(total, labels.len() as u64);
}

#[test]
fn accuracy_is_zero_when_no_prediction_is_right() {
    let predicted = [1usize, 0, 1];
    let actual = [0usize, 1, 0];
    let m = confusion_matrix(&predicted, &actual, 2);
    let (correct, total) = m.accuracy().unwrap();
    assert_eq!(correct, 0);
    assert_eq!(total, 3);
}

#[test]
fn empty_input_yields_undefined_metrics() {
    let m = confusion_matrix(&[], &[], 2);
    assert_eq!(m.accuracy(), None);
    assert_eq!(m.recall(0), None);
    assert_eq!(m.recall(1), None);
}

#[test]
fn recall_is_none_for_a_class_never_seen() {
    let predicted = [0usize, 0];
    let actual = [0usize, 0];
    let m = confusion_matrix(&predicted, &actual, 2);
    assert_eq!(m.recall(1), None);
    assert_eq!(m.recall(0), Some((2, 2)));
}
