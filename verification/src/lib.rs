//! An incremental weighted-median engine.
//!
//! A ledger keeps one aggregated weight per distinct vote value, sorted by
//! vote. A pointer into the ledger and a cached cumulative weight sum track
//! where the weighted median sits, so that each update moves the pointer by
//! the distance the median travels instead of rescanning the whole ledger.

pub mod delegation;
pub mod engine;
pub mod ledger;
