//! The discrete part of the configuration, and the errors that reject one
//! when a component is constructed.

use vstd::prelude::*;

verus! {

/// Why a configuration was rejected.
#[derive(Clone, Copy, Debug, PartialEq, Eq, Structural)]
pub enum ConfigError {
    /// The broad-phase cell size is zero.
    NonPositiveCellSize,
    /// No worker was asked for.
    ZeroWorkerCount,
    /// No sub-step per frame was asked for.
    ZeroSubSteps,
}

/// Construction-time settings. Lengths are in lattice units.
#[derive(Clone, Copy, Debug, PartialEq, Eq, Structural)]
pub struct Config {
    /// Integration sub-steps per frame.
    pub sub_steps: u32,
    /// Number of workers the broad phase is shared among.
    pub worker_count: usize,
    /// Side of a broad-phase cell; at least the diameter of a particle.
    pub cell_size: u32,
    pub domain_width: u32,
    pub domain_height: u32,
}

impl Config {
    /// The first fault of the configuration, if it has one: the cell size is
    /// looked at first, then the worker count, then the sub-steps.
    pub open spec fn fault(self) -> Option<ConfigError> {
        if self.cell_size == 0 {
            Some(ConfigError::NonPositiveCellSize)
        } else if self.worker_count == 0 {
            Some(ConfigError::ZeroWorkerCount)
        } else if self.sub_steps == 0 {
            Some(ConfigError::ZeroSubSteps)
        } else {
            None
        }
    }

    /// The configuration can be used: nothing in it is zero that must be positive.
    pub open spec fn valid(self) -> bool {
        self.cell_size > 0 && self.worker_count > 0 && self.sub_steps > 0
    }

    /// Accepts the configuration or names its first fault.
    pub fn validate(&self) -> (res: Result<(), ConfigError>)
        ensures
            res is Ok <==> self.valid(),
            res == match self.fault() {
                Some(e) => Err::<(), ConfigError>(e),
                None => Ok(()),
            },
    {
        if self.cell_size == 0 {
            Err(ConfigError::NonPositiveCellSize)
        } else if self.worker_count == 0 {
            Err(ConfigError::ZeroWorkerCount)
        } else if self.sub_steps == 0 {
            Err(ConfigError::ZeroSubSteps)
        } else {
            Ok(())
        }
    }
}

} // verus!
