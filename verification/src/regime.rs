//! Market regimes: the three-class ground-truth label of the regime
//! classification task (`RiskOn` / `Neutral` / `RiskOff`).
//!
//! `RiskOn` makes sector 0 "hot" (an extra factor shared by its members,
//! standing in for a tech-led market); `RiskOff` makes sector 1 hot
//! (financials under stress); `Neutral` has no hot sector.

use vstd::prelude::*;

verus! {

/// The number of regime classes a classifier over regimes outputs.
pub const NUM_REGIME_CLASSES: usize = 3;

#[derive(Debug, Clone, Copy, PartialEq, Eq, Hash, Structural)]
pub enum MarketRegime {
    RiskOn,
    Neutral,
    RiskOff,
}

impl MarketRegime {
    /// Every regime, in class-index order.
    pub const ALL: [MarketRegime; 3] = [
        MarketRegime::RiskOn,
        MarketRegime::Neutral,
        MarketRegime::RiskOff,
    ];

    /// The sector index (0-based) that carries an extra shared factor while
    /// this regime is active, or `None` for `Neutral`.
    pub fn hot_sector_index(self) -> (r: Option<usize>)
        ensures
            r == match self {
                MarketRegime::RiskOn => Some(0usize),
                MarketRegime::Neutral => None,
                MarketRegime::RiskOff => Some(1usize),
            },
    {
        match self {
            MarketRegime::RiskOn => Some(0),
            MarketRegime::Neutral => None,
            MarketRegime::RiskOff => Some(1),
        }
    }

    /// The regime's class index: its position in [`MarketRegime::ALL`].
    pub fn index(self) -> (i: usize)
        ensures
            i == match self {
                MarketRegime::RiskOn => 0usize,
                MarketRegime::Neutral => 1usize,
                MarketRegime::RiskOff => 2usize,
            },
    {
        match self {
            MarketRegime::RiskOn => 0,
            MarketRegime::Neutral => 1,
            MarketRegime::RiskOff => 2,
        }
    }
}

/// Class indices and [`MarketRegime::ALL`] agree, and distinct regimes have
/// distinct indices.
pub proof fn lemma_index_matches_all(r: MarketRegime)
    ensures
        MarketRegime::ALL[match r {
            MarketRegime::RiskOn => 0int,
            MarketRegime::Neutral => 1int,
            MarketRegime::RiskOff => 2int,
        }] == r,
{
}

} // verus!
