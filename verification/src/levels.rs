//! Mapping from a count of verbosity flags to a logging level.

use vstd::prelude::*;

verus! {

/// A logging verbosity level, ordered from silent to most verbose.
#[derive(Debug, PartialEq, Eq, Structural, Copy, Clone)]
pub enum LogLevelFilter {
    Off,
    Error,
    Warn,
    Info,
    Debug,
    Trace,
}

/// The level selected by `n` verbosity flags: each flag raises the level by
/// one step, and anything past the fourth is maximal.
pub fn log_level_from_int(n: u64) -> (r: LogLevelFilter)
    ensures
        n == 0 ==> r == LogLevelFilter::Off,
        n == 1 ==> r == LogLevelFilter::Error,
        n == 2 ==> r == LogLevelFilter::Warn,
        n == 3 ==> r == LogLevelFilter::Info,
        n == 4 ==> r == LogLevelFilter::Debug,
        n >= 5 ==> r == LogLevelFilter::Trace,
{
    match n {
        0 => LogLevelFilter::Off,
        1 => LogLevelFilter::Error,
        2 => LogLevelFilter::Warn,
        3 => LogLevelFilter::Info,
        4 => LogLevelFilter::Debug,
        _ => LogLevelFilter::Trace,
    }
}

} // verus!
