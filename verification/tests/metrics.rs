use neurofinance::metrics::{classification_counts, ClassCounts};

fn accuracy(predicted: &[usize], actual: &[usize]) -> f64 {
    let c = classification_counts(predicted, actual, 0);
    c.correct as f64 / c.total as f64
}

fn precision_recall_f1(k: &ClassCounts) -> (f64, f64, f64) {
    let precision = if k.predicted_positive == 0 {
        0.0
    } else {
        k.true_positive as f64 / k.predicted_positive as f64
    };
    let recall = if k.actual_positive == 0 {
        0.0
    } else {
        k.true_positive as f64 / k.actual_positive as f64
    };
    let f1 = if precision + recall == 0.0 {
        0.0
    } else {
        2.0 * precision * recall / (precision + recall)
    };
    (precision, recall, f1)
}

#[test]
fn perfect_predictions_give_accuracy_and_f1_of_one() {
    let predicted = vec![0, 1, 2, 0, 1];
    let actual = vec![0, 1, 2, 0, 1];
    let counts = classification_counts(&predicted, &actual, 3);
    assert!((accuracy(&predicted, &actual) - 1.0).abs() < 1e-12);
    for class in 0..3 {
        let (_, _, f1) = precision_recall_f1(&counts.per_class[class]);
        assert!((f1 - 1.0).abs() < 1e-12, "class {class} f1 should be 1.0");
    }
}

#[test]
fn all_wrong_predictions_give_zero_accuracy() {
    assert_eq!(accuracy(&[1, 2, 0], &[0, 1, 2]), 0.0);
}

#[test]
fn class_never_predicted_has_zero_precision_but_defined_recall() {
    let counts = classification_counts(&[0, 0, 1], &[0, 2, 1], 3);
    let (precision, recall, _) = precision_recall_f1(&counts.per_class[2]);
    assert_eq!(precision, 0.0);
    assert_eq!(recall, 0.0);
    assert_eq!(counts.per_class[2].actual_positive, 1);
}

#[test]
fn support_counts_true_occurrences_per_class() {
    let counts = classification_counts(&[0, 0, 0, 0], &[0, 1, 1, 2], 3);
    assert_eq!(counts.per_class[0].actual_positive, 1);
    assert_eq!(counts.per_class[1].actual_positive, 2);
    assert_eq!(counts.per_class[2].actual_positive, 1);
}

#[test]
fn counts_are_exact() {
    let counts = classification_counts(&[0, 1, 1, 2, 1], &[0, 1, 2, 2, 0], 4);
    assert_eq!(counts.correct, 3);
    assert_eq!(counts.total, 5);
    assert_eq!(
        counts.per_class,
        vec![
            ClassCounts { true_positive: 1, predicted_positive: 1, actual_positive: 2 },
            ClassCounts { true_positive: 1, predicted_positive: 3, actual_positive: 1 },
            ClassCounts { true_positive: 1, predicted_positive: 1, actual_positive: 2 },
            ClassCounts { true_positive: 0, predicted_positive: 0, actual_positive: 0 },
        ]
    );
}
