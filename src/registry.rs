//! What the registry says of a release, and the retry policy of the client
//! that asks it.
use vstd::prelude::*;

verus! {

/// One release as the registry lists it. `created_at` is the publication
/// time in microseconds since the Unix epoch.
#[derive(Debug, Clone)]
pub struct VersionMeta {
    pub created_at: i64,
    pub yanked: bool,
    pub num: String,
}

/// Pause before the first retry of a request; each later retry waits this
/// much longer than the one before.
pub const RETRY_STEP_MILLIS: u64 = 200;

/// What the client does after the `attempt`-th transport failure (counted
/// from 1) when `retries` retries are allowed: `Some(pause)` in
/// milliseconds before trying again, or `None` to give up.
pub open spec fn retry_pause(attempt: u32, retries: u32) -> Option<u64> {
    if attempt > retries {
        None
    } else {
        Some((RETRY_STEP_MILLIS * attempt) as u64)
    }
}

/// The linear backoff of the registry client: after the `attempt`-th
/// transport failure it waits `200 ms × attempt` and tries again, until the
/// allowed number of retries is spent. A status that is not a success is
/// not retried, so it never comes here.
pub fn retry_after_failure(attempt: u32, retries: u32) -> (r: Option<u64>)
    ensures
        r == retry_pause(attempt, retries),
{
    if attempt > retries {
        None
    } else {
        Some(RETRY_STEP_MILLIS * (attempt as u64))
    }
}

/// A cached answer written at `written_at` is still authoritative at `now`
/// (both in seconds since the Unix epoch) unless its age exceeds the TTL.
pub open spec fn cache_fresh(written_at: i64, now: i64, ttl_seconds: u64) -> bool {
    now as int - written_at as int <= ttl_seconds as int
}

/// Whether a cache entry may be used; an expired one counts as absent.
pub fn cache_entry_fresh(written_at: i64, now: i64, ttl_seconds: u64) -> (r: bool)
    ensures
        r == cache_fresh(written_at, now, ttl_seconds),
{
    (now as i128) - (written_at as i128) <= ttl_seconds as i128
}

} // verus!
