//! Configuration accepted by the container framer: which strategy to run,
//! and the diagnostic level filter for the host's logging sink.

use vstd::prelude::*;

verus! {

/// Which strategy the framer runs; `Best` selects the chunked,
/// multi-strategy orchestrator.
#[derive(Clone, Copy, Debug, PartialEq, Eq, Structural)]
pub enum Algorithm {
    Rle,
    Delta,
    Lz,
    Bwt,
    Best,
}

/// Diagnostic levels, ordered `Off < Error < Info < Debug < Performance`.
/// The level never affects the produced bytes, only what the host emits.
#[derive(Clone, Copy, Debug, PartialEq, Eq, Structural)]
pub enum LogLevel {
    Off,
    Error,
    Info,
    Debug,
    Performance,
}

/// A level's place in the ordering.
pub open spec fn level_rank(l: LogLevel) -> int {
    match l {
        LogLevel::Off => 0,
        LogLevel::Error => 1,
        LogLevel::Info => 2,
        LogLevel::Debug => 3,
        LogLevel::Performance => 4,
    }
}

fn rank(l: LogLevel) -> (r: u8)
    ensures
        r as int == level_rank(l),
{
    match l {
        LogLevel::Off => 0,
        LogLevel::Error => 1,
        LogLevel::Info => 2,
        LogLevel::Debug => 3,
        LogLevel::Performance => 4,
    }
}

/// Whether a message at `level` is emitted under `threshold`: exactly when
/// its rank is at most the threshold's rank.
pub fn should_log(level: LogLevel, threshold: LogLevel) -> (r: bool)
    ensures
        r == (level_rank(level) <= level_rank(threshold)),
{
    rank(level) <= rank(threshold)
}

} // verus!
