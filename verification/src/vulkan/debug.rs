//! Messages of the validation layers.

use vstd::prelude::*;

use crate::timing::level::Level;

verus! {

pub const VERBOSE: u32 = 0x1;

pub const INFO: u32 = 0x10;

pub const WARNING: u32 = 0x100;

pub const ERROR: u32 = 0x1000;

/// The level at which a message of the given severity is reported. Severities come
/// one at a time.
pub fn message_level(severity: u32) -> (r: Option<Level>)
    ensures
        r == if severity == VERBOSE {
            Some(Level::Debug)
        } else if severity == INFO {
            Some(Level::Info)
        } else if severity == WARNING {
            Some(Level::Warn)
        } else if severity == ERROR {
            Some(Level::Error)
        } else {
            None
        },
{
    match severity {
        VERBOSE => Some(Level::Debug),
        WARNING => Some(Level::Warn),
        ERROR => Some(Level::Error),
        INFO => Some(Level::Info),
        _ => None,
    }
}

/// Each severity has a number that is sixteen times that of the one below it.
pub proof fn severities_rise_by_sixteen()
    ensures
        VERBOSE == 1,
        INFO == 16 * VERBOSE,
        WARNING == 16 * INFO,
        ERROR == 16 * WARNING,
{
}

} // verus!
