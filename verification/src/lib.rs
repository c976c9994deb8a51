//! Verified core of a financial-topology research platform: point-in-time
//! data access, sparse multi-relational graphs over financial entities,
//! topology selection and bookkeeping, walk-forward evaluation splits and
//! class-index baselines.
//!
//! Timestamps are UTC instants held as whole nanoseconds since the Unix epoch
//! (see [`timestamp`]).

pub mod synthetic;
pub mod timestamp;
pub mod topk;
pub mod training;
pub mod baseline;
pub mod components;
pub mod config;
pub mod correlation;
pub mod graph;
pub mod identifiers;
pub mod metrics;
pub mod mlp;
pub mod persistence;
pub mod point_in_time;
pub mod regime;
pub mod regularization;
pub mod rolling;
pub mod sector;
pub mod series;
pub mod walk_forward;
