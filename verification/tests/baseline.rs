use neurofinance::baseline::{MajorityClassBaseline, NaivePersistenceBaseline};

#[test]
fn naive_persistence_echoes_last_observed_class() {
    let mut baseline = NaivePersistenceBaseline::new();
    assert_eq!(baseline.predict(1), 1);
    baseline.observe(0);
    assert_eq!(baseline.predict(1), 0);
    baseline.observe(2);
    assert_eq!(baseline.predict(1), 2);
}

#[test]
fn majority_class_picks_the_most_frequent_label() {
    let baseline = MajorityClassBaseline::fit(&[0, 0, 1, 0, 2, 0]);
    assert_eq!(baseline.predict(), 0);
}

#[test]
fn majority_class_breaks_ties_by_first_appearance() {
    assert_eq!(MajorityClassBaseline::fit(&[2, 1, 1, 2]).predict(), 2);
    assert_eq!(MajorityClassBaseline::fit(&[7]).predict(), 7);
    assert_eq!(MajorityClassBaseline::fit(&[3, 1, 1, 2, 2, 2]).predict(), 2);
}
