//! The settings that persistence depends on.

use vstd::prelude::*;

verus! {

/// Minutes between background snapshots when the configuration does not say.
pub const DEFAULT_SAVE_INTERVAL: u64 = 15;

/// The settings that persistence reads.
#[derive(Debug, Clone, Copy)]
pub struct Config {
    /// Whether sessions are saved and restored.
    pub lazy_restore: Option<bool>,
    /// Minutes between background snapshots; 0 turns them off.
    pub save_interval: Option<u64>,
}

impl Config {
    /// Whether lazy restore is on: it is off unless it was switched on.
    pub open spec fn restores(&self) -> bool {
        self.lazy_restore == Some(true)
    }

    /// Minutes between background snapshots.
    pub open spec fn interval(&self) -> u64 {
        match self.save_interval {
            Some(minutes) => minutes,
            None => DEFAULT_SAVE_INTERVAL,
        }
    }

    /// Whether lazy restore is on.
    pub fn lazy_restore_on(&self) -> (on: bool)
        ensures
            on == self.restores(),
    {
        match self.lazy_restore {
            Some(on) => on,
            None => false,
        }
    }

    /// Minutes between background snapshots.
    pub fn save_minutes(&self) -> (minutes: u64)
        ensures
            minutes == self.interval(),
    {
        match self.save_interval {
            Some(minutes) => minutes,
            None => DEFAULT_SAVE_INTERVAL,
        }
    }
}

impl Default for Config {
    fn default() -> (config: Config)
        ensures
            config.lazy_restore is None,
            config.save_interval is None,
    {
        Config { lazy_restore: None, save_interval: None }
    }
}

} // verus!
