use neurofinance::synthetic::{sector_of_asset, validate_shape, SyntheticShapeError};

#[test]
fn default_shape_is_valid() {
    assert_eq!(validate_shape(100, 10, 750), Ok(()));
}

#[test]
fn rejects_indivisible_assets() {
    assert!(matches!(
        validate_shape(101, 10, 750),
        Err(SyntheticShapeError::AssetsNotDivisibleBySectors { .. })
    ));
    assert_eq!(
        validate_shape(5, 0, 1),
        Err(SyntheticShapeError::AssetsNotDivisibleBySectors { num_assets: 5, num_sectors: 0 })
    );
}

#[test]
fn rejects_too_few_days() {
    assert_eq!(validate_shape(10, 5, 1), Err(SyntheticShapeError::TooFewDays(1)));
}

#[test]
fn rejects_an_empty_universe() {
    assert_eq!(
        validate_shape(0, 2, 5),
        Err(SyntheticShapeError::AssetsNotDivisibleBySectors { num_assets: 0, num_sectors: 2 })
    );
}

#[test]
fn sectors_are_consecutive_blocks() {
    assert_eq!(sector_of_asset(6, 3), vec![0, 0, 1, 1, 2, 2]);
    let sectors = sector_of_asset(100, 10);
    for s in 0..10 {
        assert_eq!(sectors.iter().filter(|&&x| x == s).count(), 10);
    }
}
