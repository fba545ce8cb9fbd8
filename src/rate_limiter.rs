use vstd::prelude::*;

verus! {

/// Shortest time between two permitted actions, in milliseconds.
pub const MIN_INTERVAL_MS: u64 = 300;

/// Permits one action per interval. Times are milliseconds on a monotonic clock
/// that the caller reads.
pub struct RateLimiter {
    pub last_ms: Option<u64>,
    pub min_interval_ms: u64,
}

impl RateLimiter {
    /// A limiter that permits the first action at once.
    pub fn new() -> (r: Self)
        ensures
            r.last_ms.is_none(),
            r.min_interval_ms == MIN_INTERVAL_MS,
    {
        RateLimiter { last_ms: None, min_interval_ms: MIN_INTERVAL_MS }
    }

    /// Whether an action at `now_ms` is permitted; a permitted action is recorded.
    pub fn allow(&mut self, now_ms: u64) -> (r: bool)
        ensures
            r == match old(self).last_ms {
                None => true,
                Some(last) => now_ms >= last && now_ms - last >= old(self).min_interval_ms,
            },
            final(self).min_interval_ms == old(self).min_interval_ms,
            final(self).last_ms == if r { Some(now_ms) } else { old(self).last_ms },
    {
        let ok = match self.last_ms {
            None => true,
            Some(last) => now_ms >= last && now_ms - last >= self.min_interval_ms,
        };
        if ok {
            self.last_ms = Some(now_ms);
        }
        ok
    }
}

} // verus!
