//! Discrete core of a particle simulation: the particle store, how grid
//! columns are shared out among workers, the broad-phase bucket grid over
//! lattice positions, and the enumeration of candidate collision pairs.
//! Every item is verified.

pub mod broad_phase;
pub mod config;
pub mod misc;
pub mod particle_store;
pub mod spacial_partition;
