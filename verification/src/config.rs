//! Process configuration for the store: the logging verbosity and the two
//! documented policy defaults — what a missing ttl means (permanent, never a
//! fixed default), and how long the reaper may sleep when nothing is due.

use vstd::prelude::*;

verus! {

/// How much the surrounding process should log.
#[derive(Clone, Copy, PartialEq, Eq, Structural, Debug)]
pub enum LogLevel {
    Off,
    Critical,
    Normal,
    Debug,
}

/// The configuration the process entry point hands around.
pub struct Config {
    /// Logging verbosity of the transport layer.
    pub log_level: LogLevel,
    /// The reaper's fallback sleep, in milliseconds: how long a cycle waits
    /// when no entry carries an expiry, and the clamp on every computed wait.
    pub reaper_max_interval: u64,
    /// The ttl given to a write that names none: `None`, a permanent entry.
    pub default_ttl: Option<u64>,
}

/// The released configuration: logging off, a one-second reaper fallback,
/// and no default ttl — a write without a ttl is permanent.
pub fn build_config() -> (c: Config)
    ensures
        c.log_level == LogLevel::Off,
        c.reaper_max_interval == 1000u64,
        c.default_ttl is None,
{
    Config { log_level: LogLevel::Off, reaper_max_interval: 1000, default_ttl: Option::None }
}

} // verus!
