//! A row of atuin's history database.
use vstd::prelude::*;

verus! {

/// One command of atuin's history.
pub struct HistoryEntry {
    /// When the command ran, in nanoseconds since the epoch.
    pub timestamp_ns: i64,
    pub command: String,
    /// The directory the command ran in.
    pub cwd: String,
    /// The atuin session the command ran in (one per shell startup).
    pub session: String,
}

/// `a / b` rounded toward zero, as Rust's integer division does.
pub open spec fn div_toward_zero(a: int, b: int) -> int {
    if a >= 0 {
        a / b
    } else {
        -((-a) / b)
    }
}

/// Seconds since the epoch for a time in nanoseconds (rounded toward zero).
pub open spec fn seconds_of(ns: int) -> int {
    div_toward_zero(ns, 1_000_000_000)
}

impl HistoryEntry {
    /// Seconds since epoch, as shell history files store timestamps.
    pub fn when(&self) -> (r: i64)
        ensures
            r == seconds_of(self.timestamp_ns as int),
    {
        self.timestamp_ns / 1_000_000_000
    }
}

} // verus!
