//! The one recognized configuration option: the virtual midnight, the hour
//! before which a record still counts toward the previous day. Loading the
//! configuration file is the caller's business; this type only carries the
//! value.

use vstd::prelude::*;

use crate::clock::Time;

verus! {

/// Runtime configuration.
#[derive(Debug, Clone, Copy, PartialEq, Eq, Structural)]
pub struct Config {
    pub virtual_midnight: Time,
}

impl Config {
    pub open spec fn wf(self) -> bool {
        self.virtual_midnight.wf()
    }

    /// A configuration with the day boundary at a given whole hour.
    pub fn with_midnight_hour(hour: u8) -> (r: Config)
        requires
            hour < 24,
        ensures
            r.virtual_midnight == (Time { hour, minute: 0 }),
            r.wf(),
    {
        Config { virtual_midnight: Time { hour, minute: 0 } }
    }
}

impl Default for Config {
    /// The default day boundary is real midnight.
    fn default() -> (r: Config)
        ensures
            r.virtual_midnight == (Time { hour: 0, minute: 0 }),
            r.wf(),
    {
        Config { virtual_midnight: Time { hour: 0, minute: 0 } }
    }
}

} // verus!
