use chrono::{TimeZone, Utc};
use neurofinance::timestamp::{days, Timestamp};
use neurofinance::walk_forward::{WalkForwardValidator, WindowMode};

fn day(n: i64) -> Timestamp {
    i128::from(Utc.with_ymd_and_hms(2015, 1, 1, 0, 0, 0).unwrap().timestamp_nanos_opt().unwrap()) + days(n)
}

#[test]
fn windows_are_chronologically_ordered_and_embargoed() {
    let validator = WalkForwardValidator::new(days(100), days(20), days(20), days(5), WindowMode::Expanding);
    let splits = validator.splits(day(0), day(400));
    assert!(!splits.is_empty());
    for split in &splits {
        assert!(split.train.0 < split.train.1);
        assert!(split.train.1 + days(5) <= split.validation.0);
        assert!(split.validation.0 < split.validation.1);
        assert!(split.validation.1 + days(5) <= split.test.0);
        assert!(split.test.0 < split.test.1);
    }
}

#[test]
fn successive_splits_roll_forward_by_test_period() {
    let validator = WalkForwardValidator::new(days(100), days(20), days(20), days(0), WindowMode::Expanding);
    let splits = validator.splits(day(0), day(400));
    assert!(splits.len() >= 2);
    for pair in splits.windows(2) {
        assert_eq!(pair[1].train.1, pair[0].train.1 + days(20));
    }
}

#[test]
fn expanding_mode_grows_train_window_each_split() {
    let validator = WalkForwardValidator::new(days(100), days(20), days(20), days(0), WindowMode::Expanding);
    let splits = validator.splits(day(0), day(400));
    assert!(splits.len() >= 2);
    for pair in splits.windows(2) {
        assert_eq!(pair[0].train.0, pair[1].train.0);
        assert!(pair[1].train.1 - pair[1].train.0 > pair[0].train.1 - pair[0].train.0);
    }
}

#[test]
fn rolling_mode_keeps_train_window_length_fixed() {
    let validator = WalkForwardValidator::new(days(100), days(20), days(20), days(0), WindowMode::Rolling);
    let splits = validator.splits(day(0), day(400));
    assert!(splits.len() >= 2);
    for split in &splits {
        assert_eq!(split.train.1 - split.train.0, days(100));
    }
    assert_ne!(splits[0].train.0, splits[1].train.0);
}

#[test]
fn no_trailing_partial_split_is_returned() {
    let validator = WalkForwardValidator::new(days(100), days(20), days(20), days(0), WindowMode::Expanding);
    let splits = validator.splits(day(0), day(400));
    for split in &splits {
        assert!(split.test.1 <= day(400));
    }
}

#[test]
fn from_years_matches_configs_default_toml_semantics() {
    let validator = WalkForwardValidator::from_years(8, 1, 1, 5, WindowMode::Expanding);
    let splits = validator.splits(day(0), day(365 * 12));
    assert!(!splits.is_empty());
    let first = &splits[0];
    assert_eq!(first.train.1 - first.train.0, days(365 * 8));
    assert_eq!(first.validation.1 - first.validation.0, days(365));
    assert_eq!(first.test.1 - first.test.0, days(365));
}

#[test]
fn splits_match_the_closed_form_exactly() {
    // train 100, validation 20, test 20, embargo 5 days over [0, 400]:
    // split k has train end 100 + 20k, and fits while 150 + 20k <= 400.
    let validator = WalkForwardValidator::new(days(100), days(20), days(20), days(5), WindowMode::Rolling);
    let splits = validator.splits(day(0), day(400));
    assert_eq!(splits.len(), 13);
    for (k, split) in splits.iter().enumerate() {
        let k = k as i64;
        assert_eq!(split.train, (day(20 * k), day(100 + 20 * k)));
        assert_eq!(split.validation, (day(105 + 20 * k), day(125 + 20 * k)));
        assert_eq!(split.test, (day(130 + 20 * k), day(150 + 20 * k)));
    }
}

#[test]
fn range_too_short_for_one_split_gives_none() {
    let validator = WalkForwardValidator::new(days(100), days(20), days(20), days(5), WindowMode::Expanding);
    assert!(validator.splits(day(0), day(149)).is_empty());
    assert_eq!(validator.splits(day(0), day(150)).len(), 1);
    assert!(validator.splits(day(10), day(0)).is_empty());
}
