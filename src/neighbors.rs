use vstd::prelude::*;

verus! {

/// A peer's transport address: an IPv4 address in the first four bytes of `ip`
/// (the rest zero), or an IPv6 address in all sixteen, and a port.
#[derive(Clone, Copy, Debug)]
pub struct PeerAddr {
    pub is_v6: bool,
    pub ip: [u8; 16],
    pub port: u16,
}

pub type AddrView = (bool, Seq<u8>, u16);

impl View for PeerAddr {
    type V = AddrView;

    open spec fn view(&self) -> AddrView {
        (self.is_v6, self.ip@, self.port)
    }
}

impl PeerAddr {
    /// Compares two addresses.
    pub fn same(&self, other: &PeerAddr) -> (r: bool)
        ensures
            r == (self@ == other@),
    {
        if self.is_v6 != other.is_v6 || self.port != other.port {
            return false;
        }
        let mut i: usize = 0;
        while i < 16
            invariant
                i <= 16,
                forall|j: int| 0 <= j < i ==> self.ip@[j] == other.ip@[j],
            decreases 16 - i,
        {
            if self.ip[i] != other.ip[i] {
                return false;
            }
            i = i + 1;
        }
        assert(self.ip@ =~= other.ip@);
        true
    }
}

/// A known neighbor and when a valid frame last came from it, in milliseconds.
#[derive(Clone, Copy, Debug)]
pub struct Neighbor {
    pub addr: PeerAddr,
    pub last_seen_ms: u64,
}

/// Whether `a` is in the table `s`.
pub open spec fn has_peer(s: Seq<Neighbor>, a: AddrView) -> bool {
    exists|i: int| 0 <= i < s.len() && (#[trigger] s[i]).addr@ == a
}

/// Whether `a` is in `s` with last-seen time `t`.
pub open spec fn peer_seen_at(s: Seq<Neighbor>, a: AddrView, t: u64) -> bool {
    exists|i: int| 0 <= i < s.len() && (#[trigger] s[i]).addr@ == a && s[i].last_seen_ms == t
}

/// Whether a neighbor last seen at `last` has been silent for longer than `timeout_ms` at `now_ms`.
pub open spec fn is_expired(last: u64, now_ms: u64, timeout_ms: u64) -> bool {
    now_ms >= last && now_ms - last > timeout_ms
}

/// Whether `a` is in `s` with a time that has expired at `now_ms`.
pub open spec fn expired_in(s: Seq<Neighbor>, a: PeerAddr, now_ms: u64, timeout_ms: u64) -> bool {
    exists|j: int| 0 <= j < s.len() && (#[trigger] s[j]).addr == a && is_expired(s[j].last_seen_ms, now_ms, timeout_ms)
}

/// Addresses of live peers with the time each was last heard from.
pub struct NeighborTable {
    pub entries: Vec<Neighbor>,
}

impl View for NeighborTable {
    type V = Seq<Neighbor>;

    open spec fn view(&self) -> Seq<Neighbor> {
        self.entries@
    }
}

impl NeighborTable {
    /// No address appears twice.
    pub open spec fn wf(&self) -> bool {
        forall|i: int, j: int|
            0 <= i < self@.len() && 0 <= j < self@.len() && i != j ==> (#[trigger] self@[i]).addr@
                != (#[trigger] self@[j]).addr@
    }

    pub fn new() -> (r: Self)
        ensures
            r@.len() == 0,
            r.wf(),
    {
        NeighborTable { entries: Vec::new() }
    }

    /// Whether `addr` is in the table.
    pub fn contains(&self, addr: &PeerAddr) -> (r: bool)
        ensures
            r == has_peer(self@, addr@),
    {
        let n = self.entries.len();
        let mut i: usize = 0;
        while i < n
            invariant
                n == self@.len(),
                i <= n,
                forall|j: int| 0 <= j < i ==> (#[trigger] self@[j]).addr@ != addr@,
            decreases n - i,
        {
            if self.entries[i].addr.same(addr) {
                return true;
            }
            i = i + 1;
        }
        false
    }

    /// Inserts `addr` seen at `now_ms`, or refreshes its time. Returns whether it is new.
    pub fn touch(&mut self, addr: PeerAddr, now_ms: u64) -> (was_new: bool)
        requires
            old(self).wf(),
        ensures
            final(self).wf(),
            was_new == !has_peer(old(self)@, addr@),
            peer_seen_at(final(self)@, addr@, now_ms),
            forall|b: AddrView| b != addr@ ==> (has_peer(final(self)@, b) == has_peer(old(self)@, b)),
            forall|b: AddrView, t: u64| b != addr@ ==> (peer_seen_at(final(self)@, b, t) == peer_seen_at(old(self)@, b, t)),
    {
        let n = self.entries.len();
        let mut i: usize = 0;
        while i < n
            invariant
                n == self@.len(),
                i <= n,
                self@ == old(self)@,
                old(self).wf(),
                forall|j: int| 0 <= j < i ==> (#[trigger] self@[j]).addr@ != addr@,
            decreases n - i,
        {
            if self.entries[i].addr.same(&addr) {
                let ghost before = self@;
                self.entries.set(i, Neighbor { addr, last_seen_ms: now_ms });
                proof {
                    assert(self@[i as int].addr@ == addr@);
                    assert forall|b: AddrView| b != addr@ implies (has_peer(self@, b) == has_peer(before, b)) by {
                        if has_peer(before, b) {
                            let j = choose|j: int| 0 <= j < before.len() && (#[trigger] before[j]).addr@ == b;
                            assert(self@[j] == before[j]);
                        }
                        if has_peer(self@, b) {
                            let j = choose|j: int| 0 <= j < self@.len() && (#[trigger] self@[j]).addr@ == b;
                            assert(self@[j] == before[j]);
                        }
                    }
                    assert forall|b: AddrView, t: u64| b != addr@ implies (peer_seen_at(self@, b, t) == peer_seen_at(before, b, t)) by {
                        if peer_seen_at(before, b, t) {
                            let j = choose|j: int| 0 <= j < before.len() && (#[trigger] before[j]).addr@ == b && before[j].last_seen_ms == t;
                            assert(self@[j] == before[j]);
                        }
                        if peer_seen_at(self@, b, t) {
                            let j = choose|j: int| 0 <= j < self@.len() && (#[trigger] self@[j]).addr@ == b && self@[j].last_seen_ms == t;
                            assert(self@[j] == before[j]);
                        }
                    }
                    assert forall|k1: int, k2: int|
                        0 <= k1 < self@.len() && 0 <= k2 < self@.len() && k1 != k2 implies (#[trigger] self@[k1]).addr@
                            != (#[trigger] self@[k2]).addr@ by {
                        assert(self@[k1].addr@ == before[k1].addr@);
                        assert(self@[k2].addr@ == before[k2].addr@);
                    }
                    assert(has_peer(before, addr@)) by {
                        assert(before[i as int].addr@ == addr@);
                    }
                }
                return false;
            }
            i = i + 1;
        }
        let ghost before = self@;
        self.entries.push(Neighbor { addr, last_seen_ms: now_ms });
        proof {
            assert(self@[n as int].addr@ == addr@);
            assert forall|b: AddrView| b != addr@ implies (has_peer(self@, b) == has_peer(before, b)) by {
                if has_peer(before, b) {
                    let j = choose|j: int| 0 <= j < before.len() && (#[trigger] before[j]).addr@ == b;
                    assert(self@[j] == before[j]);
                }
                if has_peer(self@, b) {
                    let j = choose|j: int| 0 <= j < self@.len() && (#[trigger] self@[j]).addr@ == b;
                    assert(self@[j] == before[j]);
                }
            }
            assert forall|b: AddrView, t: u64| b != addr@ implies (peer_seen_at(self@, b, t) == peer_seen_at(before, b, t)) by {
                if peer_seen_at(before, b, t) {
                    let j = choose|j: int| 0 <= j < before.len() && (#[trigger] before[j]).addr@ == b && before[j].last_seen_ms == t;
                    assert(self@[j] == before[j]);
                }
                if peer_seen_at(self@, b, t) {
                    let j = choose|j: int| 0 <= j < self@.len() && (#[trigger] self@[j]).addr@ == b && self@[j].last_seen_ms == t;
                    assert(self@[j] == before[j]);
                }
            }
        }
        true
    }

    /// Removes the neighbors silent for longer than `timeout_ms` and returns their addresses.
    pub fn prune(&mut self, timeout_ms: u64, now_ms: u64) -> (dead: Vec<PeerAddr>)
        requires
            old(self).wf(),
        ensures
            final(self).wf(),
            forall|i: int| 0 <= i < final(self)@.len() ==> old(self)@.contains(#[trigger] final(self)@[i])
                && !is_expired(final(self)@[i].last_seen_ms, now_ms, timeout_ms),
            forall|i: int| 0 <= i < old(self)@.len() && !is_expired(old(self)@[i].last_seen_ms, now_ms, timeout_ms)
                ==> final(self)@.contains(#[trigger] old(self)@[i]),
            forall|i: int| 0 <= i < dead@.len() ==> expired_in(old(self)@, #[trigger] dead@[i], now_ms, timeout_ms),
            dead@.len() + final(self)@.len() == old(self)@.len(),
    {
        let n = self.entries.len();
        let mut kept: Vec<Neighbor> = Vec::new();
        let mut dead: Vec<PeerAddr> = Vec::new();
        let mut i: usize = 0;
        let ghost start = self@;
        let ghost mut kidx: Seq<int> = Seq::empty();
        let ghost mut didx: Seq<int> = Seq::empty();
        while i < n
            invariant
                n == start.len(),
                self@ == start,
                i <= n,
                forall|j1: int, j2: int|
                    0 <= j1 < n && 0 <= j2 < n && j1 != j2 ==> (#[trigger] start[j1]).addr@ != (#[trigger] start[j2]).addr@,
                kidx.len() == kept@.len(),
                forall|k: int| 0 <= k < kidx.len() ==> 0 <= #[trigger] kidx[k] < i && kept@[k] == start[kidx[k]]
                    && !is_expired(start[kidx[k]].last_seen_ms, now_ms, timeout_ms),
                forall|k1: int, k2: int| 0 <= k1 < k2 < kidx.len() ==> #[trigger] kidx[k1] < #[trigger] kidx[k2],
                didx.len() == dead@.len(),
                forall|k: int| 0 <= k < didx.len() ==> 0 <= #[trigger] didx[k] < i && dead@[k] == start[didx[k]].addr
                    && is_expired(start[didx[k]].last_seen_ms, now_ms, timeout_ms),
                forall|j: int| 0 <= j < i && !is_expired(start[j].last_seen_ms, now_ms, timeout_ms)
                    ==> kept@.contains(#[trigger] start[j]),
                dead@.len() + kept@.len() == i,
            decreases n - i,
        {
            let e = self.entries[i];
            if now_ms >= e.last_seen_ms && now_ms - e.last_seen_ms > timeout_ms {
                dead.push(e.addr);
                proof {
                    didx = didx.push(i as int);
                }
            } else {
                let ghost kept0 = kept@;
                kept.push(e);
                proof {
                    kidx = kidx.push(i as int);
                    assert forall|j: int| 0 <= j < i + 1 && !is_expired(start[j].last_seen_ms, now_ms, timeout_ms)
                        implies kept@.contains(#[trigger] start[j]) by {
                        if j < i {
                            let k = choose|k: int| 0 <= k < kept0.len() && kept0[k] == start[j];
                            assert(kept@[k] == start[j]);
                        } else {
                            assert(kept@[kept@.len() - 1] == start[j]);
                        }
                    }
                }
            }
            i = i + 1;
        }
        self.entries = kept;
        proof {
            assert forall|k1: int, k2: int|
                0 <= k1 < self@.len() && 0 <= k2 < self@.len() && k1 != k2 implies (#[trigger] self@[k1]).addr@
                    != (#[trigger] self@[k2]).addr@ by {
                if k1 < k2 {
                    assert(kidx[k1] < kidx[k2]);
                } else {
                    assert(kidx[k2] < kidx[k1]);
                }
            }
            assert forall|i: int| 0 <= i < self@.len() implies old(self)@.contains(#[trigger] self@[i])
                && !is_expired(self@[i].last_seen_ms, now_ms, timeout_ms) by {
                assert(0 <= kidx[i] < n);
            }
            assert forall|k: int| 0 <= k < dead@.len() implies expired_in(old(self)@, #[trigger] dead@[k], now_ms, timeout_ms) by {
                assert(0 <= didx[k] < n);
                assert(old(self)@[didx[k]].addr == dead@[k]);
            }
        }
        dead
    }

    /// The addresses in the table, in table order.
    pub fn addresses(&self) -> (r: Vec<PeerAddr>)
        ensures
            r@.len() == self@.len(),
            forall|i: int| 0 <= i < r@.len() ==> r@[i] == (#[trigger] self@[i]).addr,
    {
        let n = self.entries.len();
        let mut r: Vec<PeerAddr> = Vec::new();
        let mut i: usize = 0;
        while i < n
            invariant
                n == self@.len(),
                i <= n,
                r@.len() == i,
                forall|k: int| 0 <= k < i ==> r@[k] == (#[trigger] self@[k]).addr,
            decreases n - i,
        {
            r.push(self.entries[i].addr);
            i = i + 1;
        }
        r
    }
}

} // verus!
