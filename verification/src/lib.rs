//! Fairness-policy resource allocation over a multi-dimensional capacity pool,
//! with a discrete-tick simulator that drives repeated re-allocation.
//!
//! Quantities are held as exact rationals, so the capacity and equalization
//! guarantees of each allocation policy are stated and proved exactly.

pub mod algorithms;
pub mod asset_fairness;
pub mod ceei;
pub mod drf;
pub mod packet;
pub mod rat;
pub mod rat_seq;
pub mod rng;
pub mod sim;
