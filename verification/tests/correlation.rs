use neurofinance::correlation::correlation_candidates;

#[test]
fn insufficient_history_leaves_asset_isolated() {
    // Two assets with a single bar each have no returns at all.
    assert!(correlation_candidates(&[0, 0], 20).is_empty());
}

#[test]
fn candidates_need_history_on_both_sides() {
    assert_eq!(
        correlation_candidates(&[30, 5, 30, 10], 10),
        vec![(0, 2), (0, 3), (2, 3)]
    );
    assert_eq!(correlation_candidates(&[29, 29], 10), vec![(0, 1)]);
}
