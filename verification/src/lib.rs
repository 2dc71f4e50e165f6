//! Core of a block archive that stores a chain as droplets of a fountain code.
//!
//! [`chain`] reads the blocks that a node has stored, [`distribution`] looks
//! up how many blocks a droplet combines, and [`trial`] runs experiments on
//! how many droplets it takes to get the blocks back.

pub mod chain;
pub mod distribution;
pub mod text;
pub mod trial;
