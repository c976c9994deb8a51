use neurofinance::regime::MarketRegime;

#[test]
fn hot_sectors_match_spec_example() {
    assert_eq!(MarketRegime::RiskOn.hot_sector_index(), Some(0));
    assert_eq!(MarketRegime::Neutral.hot_sector_index(), None);
    assert_eq!(MarketRegime::RiskOff.hot_sector_index(), Some(1));
}

#[test]
fn class_indices_follow_all_order() {
    for (i, regime) in MarketRegime::ALL.iter().enumerate() {
        assert_eq!(regime.index(), i);
    }
}
