use vstd::prelude::*;
use vstd::slice::slice_subrange;
use vstd::slice::slice_to_vec;
use std::collections::HashMap;
use crate::wire::{prefixed, push_prefixed, push_u32, push_u64, read_prefixed, read_u32, read_u64, u32_le, u64_le};

verus! {

broadcast use vstd::std_specs::hash::group_hash_axioms;

/// Largest number of data bytes in one chunk.
pub const CHUNK_SIZE: usize = 500;

/// Milliseconds after which an incomplete message is discarded.
pub const STALE_AFTER_MS: u64 = 60000;

/// One fragment of a message too large for a single frame.
#[derive(Clone, Debug)]
pub struct Chunk {
    pub msg_id: u64,
    pub total: u32,
    pub index: u32,
    pub data: Vec<u8>,
}

/// The chunk as it travels inside an encrypted payload.
pub open spec fn chunk_wire(c: Chunk) -> Seq<u8> {
    u64_le(c.msg_id) + u32_le(c.total) + u32_le(c.index) + prefixed(c.data@)
}

/// Number of chunks that `n` bytes take.
pub open spec fn chunk_count(n: nat) -> nat {
    if n % (CHUNK_SIZE as nat) == 0 {
        n / (CHUNK_SIZE as nat)
    } else {
        n / (CHUNK_SIZE as nat) + 1
    }
}

/// The bytes that chunk `i` of `data` carries.
pub open spec fn chunk_slice(data: Seq<u8>, i: nat) -> Seq<u8> {
    let start = i * CHUNK_SIZE as nat;
    let end = if start + CHUNK_SIZE as nat <= data.len() {
        start + CHUNK_SIZE as nat
    } else {
        data.len()
    };
    data.subrange(start as int, end as int)
}

/// The parts `0 .. n` in index order, a missing part counting as empty.
pub open spec fn joined(parts: Map<u32, Seq<u8>>, n: nat) -> Seq<u8>
    decreases n,
{
    if n == 0 {
        Seq::empty()
    } else {
        joined(parts, (n - 1) as nat) + if parts.contains_key((n - 1) as u32) {
            parts[(n - 1) as u32]
        } else {
            Seq::empty()
        }
    }
}

proof fn lemma_chunk_start(i: nat, n: nat)
    requires
        i < chunk_count(n),
    ensures
        i * CHUNK_SIZE < n,
{
    vstd::arithmetic::div_mod::lemma_fundamental_div_mod(n as int, 500);
    let q = n / 500;
    let r = n % 500;
    if r == 0 {
        assert(i * 500 < n) by (nonlinear_arith)
            requires i < q, n == 500 * q + r, r == 0;
    } else {
        assert(i * 500 < n) by (nonlinear_arith)
            requires i < q + 1, n == 500 * q + r, 0 < r;
    }
}

impl Chunk {
    pub fn encode(&self) -> (r: Vec<u8>)
        ensures
            r@ == chunk_wire(*self),
    {
        let mut out: Vec<u8> = Vec::new();
        push_u64(&mut out, self.msg_id);
        push_u32(&mut out, self.total);
        push_u32(&mut out, self.index);
        push_prefixed(&mut out, self.data.as_slice());
        proof {
            assert(out@ =~= chunk_wire(*self));
        }
        out
    }

    /// Parses a whole byte string as a chunk. Succeeds exactly on encodings of chunks.
    pub fn decode(b: &[u8]) -> (r: Option<Chunk>)
        ensures
            match r {
                Some(c) => chunk_wire(c) == b@,
                None => forall|c: Chunk| #[trigger] chunk_wire(c) != b@,
            },
    {
        if b.len() < 16 {
            proof {
                assert forall|c: Chunk| #[trigger] chunk_wire(c) != b@ by {
                    assert(chunk_wire(c).len() >= 16);
                }
            }
            return None;
        }
        let msg_id = read_u64(b, 0);
        let total = read_u32(b, 8);
        let index = read_u32(b, 12);
        match read_prefixed(b, 16) {
            None => {
                proof {
                    assert forall|c: Chunk| #[trigger] chunk_wire(c) != b@ by {
                        if chunk_wire(c) == b@ {
                            assert(b@.subrange(16, 16 + prefixed(c.data@).len() as int) =~= prefixed(c.data@));
                        }
                    }
                }
                None
            },
            Some((data, end)) => {
                if end != b.len() {
                    proof {
                        assert forall|c: Chunk| #[trigger] chunk_wire(c) != b@ by {
                            if chunk_wire(c) == b@ {
                                assert(b@.subrange(16, 16 + prefixed(c.data@).len() as int) =~= prefixed(c.data@));
                            }
                        }
                    }
                    return None;
                }
                let c = Chunk { msg_id, total, index, data };
                proof {
                    assert(b@ =~= b@.subrange(0, 8) + b@.subrange(8, 12) + b@.subrange(12, 16) + b@.subrange(16, end as int));
                }
                Some(c)
            },
        }
    }
}

/// What the assembler holds for one message: the expected number of chunks,
/// the parts received by index, and when the first of them arrived.
pub struct PendingView {
    pub total: u32,
    pub parts: Map<u32, Seq<u8>>,
    pub first_seen_ms: u64,
}

struct Pending {
    total: u32,
    parts: HashMap<u32, Vec<u8>>,
    first_seen_ms: u64,
}

spec fn pending_view(p: Pending) -> PendingView {
    PendingView {
        total: p.total,
        parts: p.parts@.map_values(|v: Vec<u8>| v@),
        first_seen_ms: p.first_seen_ms,
    }
}

/// Reassembles fragmented messages.
pub struct Assembler {
    buffer: HashMap<u64, Pending>,
    ids: Vec<u64>,
}

impl View for Assembler {
    type V = Map<u64, PendingView>;

    closed spec fn view(&self) -> Map<u64, PendingView> {
        self.buffer@.map_values(|p: Pending| pending_view(p))
    }
}

/// The expected chunk count for `c`: that of the message's first chunk.
pub open spec fn expected_total(m: Map<u64, PendingView>, c: Chunk) -> u32 {
    if m.contains_key(c.msg_id) {
        m[c.msg_id].total
    } else {
        c.total
    }
}

/// The parts of `c`'s message once `c` is stored.
pub open spec fn parts_with(m: Map<u64, PendingView>, c: Chunk) -> Map<u32, Seq<u8>> {
    let before = if m.contains_key(c.msg_id) {
        m[c.msg_id].parts
    } else {
        Map::empty()
    };
    before.insert(c.index, c.data@)
}

/// Whether a message whose first chunk came at `p.first_seen_ms` has expired at `now_ms`.
pub open spec fn is_stale(p: PendingView, now_ms: u64) -> bool {
    now_ms >= p.first_seen_ms && now_ms - p.first_seen_ms >= STALE_AFTER_MS
}

/// What adding `c` returns: the joined message when `c` completes it.
pub open spec fn chunk_result(m: Map<u64, PendingView>, c: Chunk) -> Option<Seq<u8>> {
    let total = expected_total(m, c);
    if c.index < total && parts_with(m, c).len() == total as nat {
        Some(joined(parts_with(m, c), total as nat))
    } else {
        None
    }
}

/// The buffers after adding `c` at `now_ms`.
pub open spec fn asm_after(m: Map<u64, PendingView>, c: Chunk, now_ms: u64) -> Map<u64, PendingView> {
    let total = expected_total(m, c);
    let parts = parts_with(m, c);
    if c.index >= total {
        m
    } else if parts.len() == total as nat {
        m.remove(c.msg_id)
    } else {
        m.insert(
            c.msg_id,
            PendingView {
                total,
                parts,
                first_seen_ms: if m.contains_key(c.msg_id) {
                    m[c.msg_id].first_seen_ms
                } else {
                    now_ms
                },
            },
        )
    }
}

/// Two chunks with the same encoding agree in every field.
pub proof fn lemma_chunk_wire_injective(c1: Chunk, c2: Chunk)
    requires
        chunk_wire(c1) == chunk_wire(c2),
    ensures
        c1.msg_id == c2.msg_id,
        c1.total == c2.total,
        c1.index == c2.index,
        c1.data@ == c2.data@,
{
    let w = chunk_wire(c1);
    assert(w.subrange(0, 8) =~= u64_le(c1.msg_id));
    assert(chunk_wire(c2).subrange(0, 8) =~= u64_le(c2.msg_id));
    crate::wire::lemma_u64_le_injective(c1.msg_id, c2.msg_id);
    assert(w.subrange(8, 12) =~= u32_le(c1.total));
    assert(chunk_wire(c2).subrange(8, 12) =~= u32_le(c2.total));
    crate::wire::lemma_u32_le_injective(c1.total, c2.total);
    assert(w.subrange(12, 16) =~= u32_le(c1.index));
    assert(chunk_wire(c2).subrange(12, 16) =~= u32_le(c2.index));
    crate::wire::lemma_u32_le_injective(c1.index, c2.index);
    assert(w.subrange(16, 24) =~= u64_le(c1.data@.len() as u64));
    assert(chunk_wire(c2).subrange(16, 24) =~= u64_le(c2.data@.len() as u64));
    crate::wire::lemma_u64_le_injective(c1.data@.len() as u64, c2.data@.len() as u64);
    assert(c1.data@ =~= w.subrange(24, w.len() as int));
    assert(c2.data@ =~= chunk_wire(c2).subrange(24, w.len() as int));
}

impl Assembler {
    pub closed spec fn wf(&self) -> bool {
        &&& self.ids@.no_duplicates()
        &&& self.ids@.to_set() == self.buffer@.dom()
        &&& forall|id: u64| #[trigger] self.buffer@.contains_key(id) ==> self.buffer@[id].parts@.dom().finite()
    }

    pub fn new() -> (r: Self)
        ensures
            r@ == Map::<u64, PendingView>::empty(),
            r.wf(),
    {
        let r = Assembler { buffer: HashMap::new(), ids: Vec::new() };
        assert(r@ =~= Map::<u64, PendingView>::empty());
        assert(r.ids@.to_set() =~= r.buffer@.dom());
        r
    }

    /// Cuts `data` into chunks of `CHUNK_SIZE` bytes (the last may be shorter),
    /// all carrying `msg_id` and the number of chunks.
    pub fn split_message(msg_id: u64, data: &[u8]) -> (r: Vec<Chunk>)
        requires
            data@.len() <= CHUNK_SIZE * 0xFFFF_FFFF,
        ensures
            r@.len() == chunk_count(data@.len()),
            forall|i: int|
                0 <= i < r@.len() ==> {
                    &&& (#[trigger] r@[i]).msg_id == msg_id
                    &&& r@[i].total as nat == r@.len()
                    &&& r@[i].index as int == i
                    &&& r@[i].data@ == chunk_slice(data@, i as nat)
                },
    {
        let n = data.len();
        let total: u32 = if n % CHUNK_SIZE == 0 {
            (n / CHUNK_SIZE) as u32
        } else {
            (n / CHUNK_SIZE + 1) as u32
        };
        let mut chunks: Vec<Chunk> = Vec::new();
        let mut i: u32 = 0;
        while i < total
            invariant
                n == data@.len(),
                total as nat == chunk_count(n as nat),
                i <= total,
                chunks@.len() == i,
                forall|k: int|
                    0 <= k < chunks@.len() ==> {
                        &&& (#[trigger] chunks@[k]).msg_id == msg_id
                        &&& chunks@[k].total == total
                        &&& chunks@[k].index as int == k
                        &&& chunks@[k].data@ == chunk_slice(data@, k as nat)
                    },
            decreases total - i,
        {
            proof {
                lemma_chunk_start(i as nat, n as nat);
            }
            let start = (i as usize) * CHUNK_SIZE;
            let end = if n - start >= CHUNK_SIZE {
                start + CHUNK_SIZE
            } else {
                n
            };
            let part = slice_to_vec(slice_subrange(data, start, end));
            chunks.push(Chunk { msg_id, total, index: i, data: part });
            i = i + 1;
        }
        chunks
    }

    /// Stores `chunk` in its message's buffer, creating the buffer with the
    /// chunk's own total and the time `now_ms` when the message is new. A chunk
    /// whose index is not below the message's expected total is dropped. Once the
    /// buffer holds as many distinct indices as expected, it is removed and the
    /// parts come back joined in index order.
    pub fn add_chunk(&mut self, chunk: Chunk, now_ms: u64) -> (r: Option<Vec<u8>>)
        requires
            old(self).wf(),
        ensures
            final(self).wf(),
            crate::crypto::opt_bytes(r) == chunk_result(old(self)@, chunk),
            final(self)@ == asm_after(old(self)@, chunk, now_ms),
            chunk.index >= expected_total(old(self)@, chunk) ==> r is None && final(self)@ == old(self)@,
            chunk.index < expected_total(old(self)@, chunk) ==> {
                let total = expected_total(old(self)@, chunk);
                let parts = parts_with(old(self)@, chunk);
                if parts.len() == total as nat {
                    &&& r is Some
                    &&& r->0@ == joined(parts, total as nat)
                    &&& final(self)@ == old(self)@.remove(chunk.msg_id)
                } else {
                    &&& r is None
                    &&& final(self)@ == old(self)@.insert(
                        chunk.msg_id,
                        PendingView {
                            total,
                            parts,
                            first_seen_ms: if old(self)@.contains_key(chunk.msg_id) {
                                old(self)@[chunk.msg_id].first_seen_ms
                            } else {
                                now_ms
                            },
                        },
                    )
                }
            },
    {
        let id = chunk.msg_id;
        let expected = match self.buffer.get(&id) {
            Some(p) => p.total,
            None => chunk.total,
        };
        if chunk.index >= expected {
            return None;
        }
        let ghost old_ids = self.ids@;
        let ghost old_view = self@;
        let (mut pending, was_present) = match self.buffer.remove(&id) {
            Some(p) => (p, true),
            None => (Pending { total: chunk.total, parts: HashMap::new(), first_seen_ms: now_ms }, false),
        };
        let ghost before_parts = pending.parts@;
        pending.parts.insert(chunk.index, chunk.data);
        proof {
            assert(pending_view(pending).parts =~= parts_with(old_view, chunk));
            assert(pending_view(pending).parts.dom() =~= pending.parts@.dom());
            assert(pending_view(pending).total == expected_total(old_view, chunk));
        }
        if pending.parts.len() == expected as usize {
            let mut out: Vec<u8> = Vec::new();
            let mut k: u32 = 0;
            while k < expected
                invariant
                    k <= expected,
                    out@ == joined(pending_view(pending).parts, k as nat),
                decreases expected - k,
            {
                match pending.parts.get(&k) {
                    Some(v) => {
                        push_all_bytes(&mut out, v);
                    },
                    None => {},
                }
                k = k + 1;
            }
            proof {
                assert(self.ids@.to_set().remove(id) =~= self.buffer@.dom());
            }
            self.forget_id(id);
            proof {
                assert(self@ =~= old_view.remove(id));
            }
            Some(out)
        } else {
            let ghost pv = pending_view(pending);
            self.buffer.insert(id, pending);
            if !was_present {
                self.ids.push(id);
                proof {
                    old_ids.lemma_push_to_set_commute(id);
                    assert(!old_ids.contains(id));
                    assert(self.ids@ == old_ids.push(id));
                }
            }
            proof {
                assert(self.ids@.to_set() =~= self.buffer@.dom());
                assert(self@ =~= old_view.insert(id, pv));
            }
            None
        }
    }

    /// Drops every incomplete message whose first chunk arrived `STALE_AFTER_MS`
    /// or more before `now_ms`.
    pub fn cleanup_stale(&mut self, now_ms: u64)
        requires
            old(self).wf(),
        ensures
            final(self).wf(),
            forall|id: u64|
                #[trigger] final(self)@.contains_key(id) <==> (old(self)@.contains_key(id)
                    && !is_stale(old(self)@[id], now_ms)),
            forall|id: u64| #[trigger] final(self)@.contains_key(id) ==> final(self)@[id] == old(self)@[id],
    {
        let n = self.ids.len();
        let mut kept: Vec<u64> = Vec::new();
        let mut i: usize = 0;
        let ghost ids = self.ids@;
        let ghost start = self.buffer@;
        while i < n
            invariant
                n == ids.len(),
                self.ids@ == ids,
                ids.no_duplicates(),
                ids.to_set() == start.dom(),
                i <= n,
                forall|x: u64| #[trigger] self.buffer@.contains_key(x) ==> start.contains_key(x) && self.buffer@[x] == start[x],
                forall|j: int| 0 <= j < i ==> (#[trigger] self.buffer@.contains_key(ids[j]) <==> !is_stale(pending_view(start[ids[j]]), now_ms)),
                forall|j: int| i <= j < n ==> #[trigger] self.buffer@.contains_key(ids[j]),
                kept@.no_duplicates(),
                forall|x: u64| #[trigger] kept@.contains(x) <==> (exists|j: int| 0 <= j < i && ids[j] == x && self.buffer@.contains_key(x)),
            decreases n - i,
        {
            let id = self.ids[i];
            let ghost kept0 = kept@;
            let ghost buf0 = self.buffer@;
            assert(ids.to_set().contains(id));
            let stale = match self.buffer.get(&id) {
                Some(p) => now_ms >= p.first_seen_ms && now_ms - p.first_seen_ms >= STALE_AFTER_MS,
                None => false,
            };
            if stale {
                let _ = self.buffer.remove(&id);
                proof {
                    assert forall|j: int| i < j < n implies #[trigger] self.buffer@.contains_key(ids[j]) by {
                        assert(ids[j] != ids[i as int]);
                    }
                    assert forall|j: int| 0 <= j < i implies (#[trigger] self.buffer@.contains_key(ids[j]) <==> !is_stale(pending_view(start[ids[j]]), now_ms)) by {
                        assert(ids[j] != ids[i as int]);
                    }
                }
            } else {
                proof {
                    assert(!kept@.contains(id)) by {
                        if kept@.contains(id) {
                            let j = choose|j: int| 0 <= j < i && ids[j] == id && self.buffer@.contains_key(id);
                            assert(ids[j] != ids[i as int]);
                        }
                    }
                }
                kept.push(id);
            }
            proof {
                assert forall|x: u64| #[trigger] kept@.contains(x) <==> (exists|j: int| 0 <= j < i + 1 && ids[j] == x && self.buffer@.contains_key(x)) by {
                    if x == id {
                        if self.buffer@.contains_key(x) {
                            assert(ids[i as int] == x);
                            assert(kept@[kept@.len() - 1] == x);
                        }
                    } else {
                        assert(self.buffer@.contains_key(x) == buf0.contains_key(x));
                        assert(kept@.contains(x) == kept0.contains(x)) by {
                            if kept@.contains(x) {
                                let k = choose|k: int| 0 <= k < kept@.len() && kept@[k] == x;
                                assert(kept0[k] == x);
                            }
                            if kept0.contains(x) {
                                let k = choose|k: int| 0 <= k < kept0.len() && kept0[k] == x;
                                assert(kept@[k] == x);
                            }
                        }
                        if exists|j: int| 0 <= j < i + 1 && ids[j] == x && self.buffer@.contains_key(x) {
                            let j = choose|j: int| 0 <= j < i + 1 && ids[j] == x && self.buffer@.contains_key(x);
                            assert(j < i);
                            assert(kept0.contains(x));
                        }
                        if kept0.contains(x) {
                            let j = choose|j: int| 0 <= j < i && ids[j] == x && buf0.contains_key(x);
                            assert(0 <= j < i + 1 && ids[j] == x && self.buffer@.contains_key(x));
                        }
                    }
                }
            }
            i = i + 1;
        }
        self.ids = kept;
        proof {
            assert forall|x: u64| self.ids@.contains(x) <==> self.buffer@.dom().contains(x) by {
                if self.buffer@.dom().contains(x) {
                    assert(ids.to_set().contains(x));
                    let j = choose|j: int| 0 <= j < ids.len() && ids[j] == x;
                }
            }
            assert(self.ids@.to_set() =~= self.buffer@.dom());
            assert forall|id: u64|
                #[trigger] self@.contains_key(id) <==> (old(self)@.contains_key(id)
                    && !is_stale(old(self)@[id], now_ms)) by {
                if old(self)@.contains_key(id) {
                    assert(ids.to_set().contains(id));
                    let j = choose|j: int| 0 <= j < ids.len() && ids[j] == id;
                }
            }
        }
    }

    fn forget_id(&mut self, id: u64)
        requires
            old(self).ids@.no_duplicates(),
            old(self).ids@.to_set().remove(id) == old(self).buffer@.dom(),
            !old(self).buffer@.contains_key(id),
        ensures
            final(self).ids@.no_duplicates(),
            final(self).ids@.to_set() == final(self).buffer@.dom(),
            final(self).buffer == old(self).buffer,
    {
        let n = self.ids.len();
        let mut i: usize = 0;
        while i < n
            invariant
                n == self.ids@.len(),
                self.ids == old(self).ids,
                self.buffer == old(self).buffer,
                old(self).ids@.no_duplicates(),
                old(self).ids@.to_set().remove(id) == old(self).buffer@.dom(),
                !old(self).buffer@.contains_key(id),
                i <= n,
                forall|j: int| 0 <= j < i ==> self.ids@[j] != id,
            decreases n - i,
        {
            if self.ids[i] == id {
                let ghost before = self.ids@;
                self.ids.remove(i);
                proof {
                    assert(self.ids@ =~= before.subrange(0, i as int) + before.subrange(i + 1, before.len() as int));
                    assert(self.ids@.to_set() =~= self.buffer@.dom()) by {
                        assert forall|x: u64| self.ids@.contains(x) <==> self.buffer@.dom().contains(x) by {
                            if self.ids@.contains(x) {
                                let j = choose|j: int| 0 <= j < self.ids@.len() && self.ids@[j] == x;
                                let k = if j < i { j } else { j + 1 };
                                assert(before[k] == x);
                                assert(k != i && 0 <= k < before.len());
                                assert(before.no_duplicates());
                                assert(before[i as int] == id);
                                assert(before[k] != before[i as int]);
                                assert(before.contains(x));
                                assert(x != id);
                            }
                            if self.buffer@.dom().contains(x) {
                                assert(before.to_set().contains(x));
                                let j = choose|j: int| 0 <= j < before.len() && before[j] == x;
                                assert(j != i);
                                if j < i {
                                    assert(self.ids@[j] == x);
                                } else {
                                    assert(self.ids@[j - 1] == x);
                                }
                            }
                        }
                    }
                }
                return;
            }
            i = i + 1;
        }
        proof {
            assert(!self.ids@.contains(id));
            assert(self.ids@.to_set() =~= old(self).ids@.to_set().remove(id));
        }
    }
}

fn push_all_bytes(out: &mut Vec<u8>, src: &Vec<u8>)
    ensures
        final(out)@ == old(out)@ + src@,
{
    crate::wire::push_all(out, src.as_slice());
}

/// `chunks` is what `split_message(id, data)` returns.
pub open spec fn is_split_of(chunks: Seq<Chunk>, id: u64, data: Seq<u8>) -> bool {
    &&& chunks.len() == chunk_count(data.len())
    &&& forall|i: int|
        0 <= i < chunks.len() ==> {
            &&& (#[trigger] chunks[i]).msg_id == id
            &&& chunks[i].total as nat == chunks.len()
            &&& chunks[i].index as int == i
            &&& chunks[i].data@ == chunk_slice(data, i as nat)
        }
}

/// The buffers after the first `k` deliveries; delivery `t` hands over `chunks[order[t]]`.
pub open spec fn state_after(m0: Map<u64, PendingView>, chunks: Seq<Chunk>, order: Seq<int>, k: nat, now_ms: u64) -> Map<u64, PendingView>
    decreases k,
{
    if k == 0 {
        m0
    } else {
        asm_after(state_after(m0, chunks, order, (k - 1) as nat, now_ms), chunks[order[k - 1]], now_ms)
    }
}

/// The indices handed over by the first `k` deliveries.
pub open spec fn delivered(order: Seq<int>, k: nat) -> Set<u32> {
    Set::new(|i: u32| exists|t: int| 0 <= t < k && order[t] == i as int)
}

/// Every index below `n` is among the first `k` deliveries.
pub open spec fn covered(order: Seq<int>, k: nat, n: nat) -> bool {
    upto(n).subset_of(delivered(order, k))
}

pub open spec fn upto(n: nat) -> Set<u32> {
    Set::new(|i: u32| (i as nat) < n)
}

proof fn lemma_upto_len(n: nat)
    requires
        n <= 0x1_0000_0000,
    ensures
        upto(n).finite(),
        upto(n).len() == n,
    decreases n,
{
    if n == 0 {
        assert(upto(0) =~= Set::<u32>::empty());
    } else {
        lemma_upto_len((n - 1) as nat);
        assert(upto(n) =~= upto((n - 1) as nat).insert((n - 1) as u32));
    }
}

/// A part of `upto(n)` has `n` elements exactly when it is all of it.
proof fn lemma_full_iff_len(s: Set<u32>, n: nat)
    requires
        n <= 0x1_0000_0000,
        s.subset_of(upto(n)),
    ensures
        s.finite(),
        s.len() == n <==> s == upto(n),
{
    lemma_upto_len(n);
    vstd::set_lib::lemma_len_subset(s, upto(n));
    if s != upto(n) {
        let x = choose|x: u32| upto(n).contains(x) && !s.contains(x);
        assert(!(s =~= upto(n)) ==> exists|x: u32| upto(n).contains(x) != s.contains(x));
        let y = choose|y: u32| upto(n).contains(y) != s.contains(y);
        assert(s.subset_of(upto(n).remove(y)));
        vstd::set_lib::lemma_len_subset(s, upto(n).remove(y));
    }
}

/// Joining the chunks of a split message in index order gives the message back.
proof fn lemma_joined_split(parts: Map<u32, Seq<u8>>, data: Seq<u8>, k: nat)
    requires
        k <= chunk_count(data.len()),
        k <= 0x1_0000_0000,
        forall|i: u32| #![trigger parts.contains_key(i)] (i as nat) < k ==> parts.contains_key(i) && parts[i] == chunk_slice(data, i as nat),
    ensures
        joined(parts, k) == data.subrange(0, if k * CHUNK_SIZE <= data.len() { (k * CHUNK_SIZE) as int } else { data.len() as int }),
    decreases k,
{
    if k == 0 {
        assert(joined(parts, 0) =~= data.subrange(0, 0));
    } else {
        let k1 = (k - 1) as nat;
        lemma_joined_split(parts, data, k1);
        assert(k1 * CHUNK_SIZE < data.len()) by {
            lemma_chunk_start(k1, data.len());
        }
        assert(k1 * CHUNK_SIZE + CHUNK_SIZE == k * CHUNK_SIZE) by (nonlinear_arith)
            requires k1 + 1 == k;
        assert(parts.contains_key(k1 as u32));
        assert(joined(parts, k) =~= data.subrange(0, if k * CHUNK_SIZE <= data.len() { (k * CHUNK_SIZE) as int } else { data.len() as int }));
    }
}

#[verifier::rlimit(60)]
proof fn lemma_delivery_step(
    m0: Map<u64, PendingView>,
    chunks: Seq<Chunk>,
    id: u64,
    data: Seq<u8>,
    order: Seq<int>,
    k: nat,
    now_ms: u64,
)
    requires
        is_split_of(chunks, id, data),
        data.len() > 0,
        data.len() <= CHUNK_SIZE * 0xFFFF_FFFF,
        !m0.contains_key(id),
        k <= order.len(),
        forall|t: int| 0 <= t < order.len() ==> 0 <= #[trigger] order[t] < chunks.len(),
        !covered(order, k, chunks.len()),
    ensures
        k > 0 ==> {
            let m = state_after(m0, chunks, order, k, now_ms);
            &&& m.contains_key(id)
            &&& m[id].total as nat == chunks.len()
            &&& m[id].parts.dom() == delivered(order, k)
            &&& forall|i: u32| #[trigger] m[id].parts.contains_key(i) ==> m[id].parts[i] == chunks[i as int].data@
        },
        k == 0 ==> !state_after(m0, chunks, order, k, now_ms).contains_key(id),
        forall|t: int| 0 <= t < k ==> chunk_result(state_after(m0, chunks, order, t as nat, now_ms), chunks[order[t]]) is None,
    decreases k,
{
    let n = chunks.len();
    if k > 0 {
        let k1 = (k - 1) as nat;
        assert(!covered(order, k1, n)) by {
            let i = choose|i: u32| upto(n).contains(i) && !delivered(order, k).contains(i);
            if delivered(order, k1).contains(i) {
                let t = choose|t: int| 0 <= t < k1 && order[t] == i as int;
                assert(delivered(order, k).contains(i));
            }
        }
        lemma_delivery_step(m0, chunks, id, data, order, k1, now_ms);
        let m = state_after(m0, chunks, order, k1, now_ms);
        let c = chunks[order[k1 as int]];
        assert(c.msg_id == id && c.total as nat == n && c.index as int == order[k1 as int]);
        assert(expected_total(m, c) as nat == n);
        let parts = parts_with(m, c);
        assert(parts.dom() =~= delivered(order, k)) by {
            assert forall|i: u32| parts.dom().contains(i) <==> delivered(order, k).contains(i) by {
                if i == c.index {
                    assert(order[k1 as int] == i as int);
                } else if delivered(order, k).contains(i) {
                    let t = choose|t: int| 0 <= t < k && order[t] == i as int;
                    assert(t != k1);
                    assert(delivered(order, k1).contains(i));
                }
            }
        }
        assert(delivered(order, k).subset_of(upto(n))) by {
            assert forall|i: u32| delivered(order, k).contains(i) implies upto(n).contains(i) by {
                let t = choose|t: int| 0 <= t < k && order[t] == i as int;
            }
        }
        assert(n <= 0x1_0000_0000) by {
            assert(chunks[0].total as nat == n);
        }
        lemma_full_iff_len(delivered(order, k), n);
        assert(delivered(order, k) != upto(n)) by {
            let i = choose|i: u32| upto(n).contains(i) && !delivered(order, k).contains(i);
        }
        assert(chunk_result(m, c) is None);
        let m2 = state_after(m0, chunks, order, k, now_ms);
        assert(m2 == m.insert(id, m2[id]));
        assert(state_after(m0, chunks, order, k1, now_ms) == m);
        assert forall|t: int| 0 <= t < k implies chunk_result(state_after(m0, chunks, order, t as nat, now_ms), chunks[order[t]]) is None by {
            if t == k1 {
                assert(chunk_result(m, c) is None);
            }
        }
    }
}

proof fn lemma_count_covers(len: nat)
    ensures
        chunk_count(len) * CHUNK_SIZE >= len,
{
    vstd::arithmetic::div_mod::lemma_fundamental_div_mod(len as int, 500);
    let q = len / 500;
    let r = len % 500;
    let n = chunk_count(len);
    if r == 0 {
        assert(n * 500 >= len) by (nonlinear_arith)
            requires n == q, len == 500 * q + r, r == 0;
    } else {
        assert(n * 500 >= len) by (nonlinear_arith)
            requires n == q + 1, len == 500 * q + r, r < 500;
    }
}

/// At the completing delivery, the parts are every chunk of the message.
#[verifier::rlimit(60)]
proof fn lemma_final_parts(
    m0: Map<u64, PendingView>,
    chunks: Seq<Chunk>,
    id: u64,
    data: Seq<u8>,
    order: Seq<int>,
    j: nat,
    now_ms: u64,
)
    requires
        is_split_of(chunks, id, data),
        data.len() > 0,
        data.len() <= CHUNK_SIZE * 0xFFFF_FFFF,
        !m0.contains_key(id),
        j < order.len(),
        forall|t: int| 0 <= t < order.len() ==> 0 <= #[trigger] order[t] < chunks.len(),
        !covered(order, j, chunks.len()),
        covered(order, j + 1, chunks.len()),
    ensures
        ({
            let m = state_after(m0, chunks, order, j, now_ms);
            let c = chunks[order[j as int]];
            let parts = parts_with(m, c);
            &&& chunks.len() <= 0x1_0000_0000
            &&& expected_total(m, c) as nat == chunks.len()
            &&& c.index < expected_total(m, c)
            &&& parts.len() == chunks.len()
            &&& forall|i: u32| #![trigger parts.contains_key(i)] (i as nat) < chunks.len() ==> parts.contains_key(i)
                && parts[i] == chunk_slice(data, i as nat)
        }),
{
    let n = chunks.len();
    lemma_delivery_step(m0, chunks, id, data, order, j, now_ms);
    let m = state_after(m0, chunks, order, j, now_ms);
    let c = chunks[order[j as int]];
    assert(c.msg_id == id && c.total as nat == n && c.index as int == order[j as int]);
    assert(n <= 0x1_0000_0000) by {
        assert(chunks[0].total as nat == n);
    }
    let parts = parts_with(m, c);
    assert(parts.dom() =~= upto(n)) by {
        assert forall|i: u32| parts.dom().contains(i) <==> upto(n).contains(i) by {
            if upto(n).contains(i) {
                assert(delivered(order, j + 1).contains(i));
                let t = choose|t: int| 0 <= t < j + 1 && order[t] == i as int;
                if t < j {
                    assert(delivered(order, j).contains(i));
                }
            }
            if parts.dom().contains(i) && i != c.index {
                assert(delivered(order, j).contains(i));
                let t = choose|t: int| 0 <= t < j && order[t] == i as int;
            }
        }
    }
    lemma_upto_len(n);
    assert forall|i: u32| #![trigger parts.contains_key(i)] (i as nat) < n implies parts.contains_key(i) && parts[i] == chunk_slice(data, i as nat) by {
        assert(upto(n).contains(i));
        if i != c.index {
            assert(m[id].parts.contains_key(i));
        }
    }
}

/// Delivering the chunks of `split_message(id, data)` in any order, with any
/// repetitions, to an assembler that holds nothing for `id` gives nothing back
/// until the delivery that first completes the set of indices, and that one
/// gives back exactly `data`.
pub proof fn lemma_reassembly(
    m0: Map<u64, PendingView>,
    chunks: Seq<Chunk>,
    id: u64,
    data: Seq<u8>,
    order: Seq<int>,
    j: nat,
    now_ms: u64,
)
    requires
        is_split_of(chunks, id, data),
        data.len() > 0,
        data.len() <= CHUNK_SIZE * 0xFFFF_FFFF,
        !m0.contains_key(id),
        j < order.len(),
        forall|t: int| 0 <= t < order.len() ==> 0 <= #[trigger] order[t] < chunks.len(),
        !covered(order, j, chunks.len()),
        covered(order, j + 1, chunks.len()),
    ensures
        forall|t: int| 0 <= t < j ==> chunk_result(state_after(m0, chunks, order, t as nat, now_ms), chunks[order[t]]) is None,
        chunk_result(state_after(m0, chunks, order, j, now_ms), chunks[order[j as int]]) == Some(data),
{
    let n = chunks.len();
    lemma_delivery_step(m0, chunks, id, data, order, j, now_ms);
    lemma_final_parts(m0, chunks, id, data, order, j, now_ms);
    let m = state_after(m0, chunks, order, j, now_ms);
    let c = chunks[order[j as int]];
    let parts = parts_with(m, c);
    lemma_joined_split(parts, data, n);
    lemma_count_covers(data.len());
    assert(data.subrange(0, data.len() as int) =~= data);
}

} // verus!