//! Dice pools, the powers that reshape them, sampled outcome estimates and the
//! resolution of actions against tiered thresholds.

pub mod actions;
pub mod dice;
pub mod powers;
pub mod probability_setup;
pub mod random;
pub mod resolution;
pub mod sequencing;
pub mod simulation;
