use neurofinance::mlp::param_count;

#[test]
fn param_count_matches_hand_computed_arithmetic() {
    // feature_dim=4, hidden_dim=10, num_classes=3:
    // hidden: 4*10 + 10 = 50; classifier: 10*3 + 3 = 33; total 83.
    assert_eq!(param_count(4, 10, 3), 83);
}

#[test]
fn param_count_of_degenerate_layers() {
    assert_eq!(param_count(0, 0, 0), 0);
    assert_eq!(param_count(5, 0, 3), 3);
    assert_eq!(param_count(1, 1, 1), 4);
}
