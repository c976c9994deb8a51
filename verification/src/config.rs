//! The integer and text sections of the typed run configuration.

use vstd::prelude::*;

verus! {

/// The synthetic asset universe: how many assets, in how many sectors.
#[derive(Debug, Clone)]
pub struct UniverseConfig {
    pub num_assets: usize,
    pub num_sectors: usize,
}

/// Where data lives and which source produces it.
#[derive(Debug, Clone)]
pub struct DataConfig {
    pub raw_dir: String,
    pub interim_dir: String,
    pub processed_dir: String,
    pub source: String,
}

/// The length of the input sequences fed to a model.
#[derive(Debug, Clone)]
pub struct SequenceConfig {
    pub length: usize,
}

/// Walk-forward window lengths: see
/// [`crate::walk_forward::WalkForwardValidator::from_years`].
#[derive(Debug, Clone)]
pub struct WalkForwardConfig {
    pub train_years: u32,
    pub validation_years: u32,
    pub test_years: u32,
    pub embargo_days: u32,
}

} // verus!
