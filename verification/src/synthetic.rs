//! The integer structure of the synthetic market: which shapes of universe
//! the generator accepts, and which sector each asset belongs to.

use vstd::prelude::*;

verus! {

/// Why a synthetic universe's shape is rejected.
#[derive(Debug, Clone, Copy, PartialEq, Eq, Structural)]
pub enum SyntheticShapeError {
    /// The asset count must be a positive multiple of the sector count.
    AssetsNotDivisibleBySectors { num_assets: usize, num_sectors: usize },
    /// At least two days are needed to compute a single return.
    TooFewDays(usize),
}

/// Checks the universe's shape, in this order: the asset count must be a
/// positive multiple of a positive sector count, then there must be at
/// least two days.
pub fn validate_shape(num_assets: usize, num_sectors: usize, num_days: usize) -> (r: Result<
    (),
    SyntheticShapeError,
>)
    ensures
        r == (if num_assets == 0 || num_sectors == 0 || num_assets % num_sectors != 0 {
            Err(SyntheticShapeError::AssetsNotDivisibleBySectors { num_assets, num_sectors })
        } else if num_days < 2 {
            Err(SyntheticShapeError::TooFewDays(num_days))
        } else {
            Ok(())
        }),
{
    if num_assets == 0 || num_sectors == 0 || num_assets % num_sectors != 0 {
        return Err(SyntheticShapeError::AssetsNotDivisibleBySectors { num_assets, num_sectors });
    }
    if num_days < 2 {
        return Err(SyntheticShapeError::TooFewDays(num_days));
    }
    Ok(())
}

/// The sector of every asset: consecutive blocks of
/// `num_assets / num_sectors` assets share a sector, in order.
pub fn sector_of_asset(num_assets: usize, num_sectors: usize) -> (r: Vec<usize>)
    requires
        num_sectors > 0,
        num_assets % num_sectors == 0,
    ensures
        r@.len() == num_assets,
        forall|i: int| 0 <= i < num_assets ==> #[trigger] r@[i] == i / (num_assets / num_sectors) as int,
{
    let per_sector = num_assets / num_sectors;
    let mut r: Vec<usize> = Vec::new();
    let mut i: usize = 0;
    while i < num_assets
        invariant
            i <= num_assets,
            num_sectors > 0,
            num_assets % num_sectors == 0,
            per_sector == num_assets / num_sectors,
            r@.len() == i,
            forall|j: int| 0 <= j < i ==> #[trigger] r@[j] == j / per_sector as int,
        decreases num_assets - i,
    {
        assert(per_sector > 0) by (nonlinear_arith)
            requires
                num_sectors > 0,
                num_assets % num_sectors == 0,
                i < num_assets,
                per_sector == num_assets / num_sectors,
        ;
        r.push(i / per_sector);
        i = i + 1;
    }
    r
}

/// Every asset's sector is one of the `num_sectors` sectors, and every
/// sector holds exactly its block of `num_assets / num_sectors` assets.
pub proof fn lemma_sectors_are_equal_blocks(num_assets: int, num_sectors: int, i: int, s: int)
    requires
        num_sectors > 0,
        num_assets >= 0,
        num_assets % num_sectors == 0,
        0 <= i < num_assets,
    ensures
        0 <= i / (num_assets / num_sectors) < num_sectors,
        (i / (num_assets / num_sectors) == s) <==> (s * (num_assets / num_sectors) <= i < (s + 1) * (
        num_assets / num_sectors)),
{
    let per = num_assets / num_sectors;
    assert(per > 0 && num_assets == per * num_sectors) by (nonlinear_arith)
        requires
            num_sectors > 0,
            num_assets % num_sectors == 0,
            0 <= i < num_assets,
            per == num_assets / num_sectors,
    ;
    assert(0 <= i / per < num_sectors) by (nonlinear_arith)
        requires
            per > 0,
            num_assets == per * num_sectors,
            0 <= i < num_assets,
    ;
    assert((i / per == s) <==> (s * per <= i < (s + 1) * per)) by (nonlinear_arith)
        requires
            per > 0,
            0 <= i,
    ;
}

} // verus!
