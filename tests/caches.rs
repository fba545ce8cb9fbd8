use ember_mesh::rate_limiter::RateLimiter;
use ember_mesh::replay_cache::{ReplayCache, ReplayKey, MAX_CACHE};
use ember_mesh::seen::SeenCache;

fn key(n: u64) -> ReplayKey {
    ReplayKey { sender: [1; 8], msg_id: n.to_le_bytes() }
}

#[test]
fn replay_cache_remembers_and_evicts() {
    let mut c = ReplayCache::new();
    assert!(!c.seen(key(0)));
    assert!(c.seen(key(0)));
    for n in 1..MAX_CACHE as u64 {
        assert!(!c.seen(key(n)));
    }
    // 2048 distinct keys are in: the first is still known
    assert!(c.seen(key(0)));
    assert!(!c.seen(key(5000)));
    // the oldest has now left
    assert!(!c.seen(key(0)));
    assert!(c.seen(key(5000)));
}

#[test]
fn replay_cache_distinguishes_senders() {
    let mut c = ReplayCache::new();
    assert!(!c.seen(ReplayKey { sender: [1; 8], msg_id: [0; 8] }));
    assert!(!c.seen(ReplayKey { sender: [2; 8], msg_id: [0; 8] }));
    assert!(c.seen(ReplayKey { sender: [2; 8], msg_id: [0; 8] }));
}

#[test]
fn seen_cache_window() {
    let mut s = SeenCache::new(2);
    assert!(!s.seen(1));
    assert!(s.seen(1));
    assert!(!s.seen(2));
    assert!(!s.seen(3));
    assert!(!s.seen(1));
    assert!(s.seen(3));
}

#[test]
fn rate_limiter_interval() {
    let mut r = RateLimiter::new();
    assert!(r.allow(1000));
    assert!(!r.allow(1299));
    assert!(r.allow(1300));
    assert!(!r.allow(1500));
}
