//! Trials that measure how many droplets it takes to decode an epoch.

pub mod delivery;
pub mod epoch;
pub mod seed;
pub mod table;
