//! Randomness, statistics and configuration.
pub mod random;
pub mod statistics;
pub mod cli;
