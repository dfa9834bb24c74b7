//! The shared timing constants, in milliseconds: the watcher tick interval,
//! and the two independent thresholds derived from it. The expiration
//! threshold lies strictly above the stale threshold, so a source is visibly
//! marked stale before it disappears from the view.

use vstd::prelude::*;

verus! {

/// Tick interval of a watcher agent.
pub const UPDATE_MILLIS: u64 = 500;

/// A source whose last accepted report is older than this is marked stale.
pub const STALE_MILLIS: u64 = 4 * UPDATE_MILLIS;

/// A source whose last accepted report is older than this is removed.
pub const EXPIRATION_MILLIS: u64 = 10 * UPDATE_MILLIS;

/// The watcher tick interval.
pub fn update() -> (r: u64)
    ensures
        r == UPDATE_MILLIS,
{
    UPDATE_MILLIS
}

/// The expiration threshold: ten tick intervals, above the stale threshold.
pub fn expiration() -> (r: u64)
    ensures
        r == EXPIRATION_MILLIS,
        r > STALE_MILLIS,
{
    EXPIRATION_MILLIS
}

/// The stale threshold: four tick intervals.
pub fn stale() -> (r: u64)
    ensures
        r == STALE_MILLIS,
{
    STALE_MILLIS
}

} // verus!
