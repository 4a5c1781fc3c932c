//! Log verbosity.  The log backend that prints records is installed by the
//! binary; the library decides the maximum level from the `-v` count.

use vstd::prelude::*;

verus! {

/// The most detailed level of log records that are emitted.
#[derive(Clone, Copy, Debug, PartialEq, Eq, Structural)]
pub enum LogLevel {
    Warn,
    Info,
    Debug,
}

/// The level for a verbosity count: 0 = warn, 1 = info, 2 and more = debug.
pub open spec fn level_for(verbose: u8) -> LogLevel {
    if verbose == 0 {
        LogLevel::Warn
    } else if verbose == 1 {
        LogLevel::Info
    } else {
        LogLevel::Debug
    }
}

/// Calls `log::set_max_level` with the `log::LevelFilter` of the same name as
/// `level`.  It only stores the level in the `log` crate's global filter, so
/// nothing is stated of it.
#[verifier::external_body]
fn set_max_level(level: LogLevel) {
    log::set_max_level(
        match level {
            LogLevel::Warn => log::LevelFilter::Warn,
            LogLevel::Info => log::LevelFilter::Info,
            LogLevel::Debug => log::LevelFilter::Debug,
        },
    )
}

/// The maximum log level for the verbosity count `verbose`: 0 = warn,
/// 1 = info, 2 and more = debug.
pub fn level_of(verbose: u8) -> (level: LogLevel)
    ensures
        level == level_for(verbose),
{
    if verbose == 0 {
        LogLevel::Warn
    } else if verbose == 1 {
        LogLevel::Info
    } else {
        LogLevel::Debug
    }
}

/// Initialise logging: set the `log` crate's maximum level to
/// [`level_of`]`(verbose)` and return that level.
pub fn init(verbose: u8) -> (level: LogLevel)
    ensures
        level == level_for(verbose),
{
    let level = level_of(verbose);
    set_max_level(level);
    level
}

} // verus!
