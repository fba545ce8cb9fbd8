use vstd::prelude::*;
use crate::chunker::{asm_after, chunk_result, chunk_wire, lemma_chunk_wire_injective, Assembler, Chunk, PendingView};
use crate::crypto::{decrypt, open_wire};
use crate::identity::{ed25519_accepts, verify};
use crate::neighbors::{has_peer, peer_seen_at, AddrView, Neighbor, NeighborTable, PeerAddr};
use crate::payload::{addr_views, all_canonical, decode_ack, decode_peer_list, peer_list_wire};
use crate::protocol::{signing_bytes_of, spec_valid_structure, Frame, Header, MessageType, BROADCAST_ID};
use crate::rate_limiter::RateLimiter;
use crate::replay_cache::{seen_step, KeyView, ReplayCache, ReplayKey};
use crate::wire::{le_array, same_id, u64_le};

verus! {

/// Whether the engine is inside `on_frame`.
#[derive(Clone, Copy, Debug, PartialEq, Eq, Structural)]
pub enum State {
    Idle,
    Processing,
}

/// Something the engine reports to the user.
#[derive(Clone, Debug)]
pub enum LogEvent {
    InvalidSignature(PeerAddr),
    NewNeighbor(PeerAddr),
    RouteLearned(PeerAddr),
    /// A chat message to everyone, with the sender's id.
    Chat { from: [u8; 8], text: Vec<u8> },
    /// A chat message addressed to this node, with the sender's id.
    PrivateChat { from: [u8; 8], text: Vec<u8> },
    /// A reassembled file transfer, for the file sink to store.
    FileReceived { name: Vec<u8>, content: Vec<u8> },
    /// A reassembled message that is not a file.
    Reassembled(Vec<u8>),
    Acknowledged(u64),
}

/// A log event as the contracts compare it.
pub enum LogView {
    InvalidSignature(AddrView),
    NewNeighbor(AddrView),
    RouteLearned(AddrView),
    Chat(Seq<u8>, Seq<u8>),
    PrivateChat(Seq<u8>, Seq<u8>),
    FileReceived(Seq<u8>, Seq<u8>),
    Reassembled(Seq<u8>),
    Acknowledged(u64),
}

impl View for LogEvent {
    type V = LogView;

    open spec fn view(&self) -> LogView {
        match self {
            LogEvent::InvalidSignature(a) => LogView::InvalidSignature(a@),
            LogEvent::NewNeighbor(a) => LogView::NewNeighbor(a@),
            LogEvent::RouteLearned(a) => LogView::RouteLearned(a@),
            LogEvent::Chat { from, text } => LogView::Chat(from@, text@),
            LogEvent::PrivateChat { from, text } => LogView::PrivateChat(from@, text@),
            LogEvent::FileReceived { name, content } => LogView::FileReceived(name@, content@),
            LogEvent::Reassembled(d) => LogView::Reassembled(d@),
            LogEvent::Acknowledged(n) => LogView::Acknowledged(*n),
        }
    }
}

pub open spec fn logs_view(v: Seq<LogEvent>) -> Seq<LogView> {
    v.map_values(|e: LogEvent| e@)
}

/// What one inbound frame produced.
pub struct ProcessResult {
    pub frame_to_relay: Option<Frame>,
    pub ack_to_send: Option<(PeerAddr, u64)>,
    pub log_output: Vec<LogEvent>,
}

impl ProcessResult {
    pub open spec fn is_empty(&self) -> bool {
        self.frame_to_relay is None && self.ack_to_send is None && self.log_output@.len() == 0
    }
}

/// The bytes `FILE:` that open a file transfer.
pub open spec fn file_tag() -> Seq<u8> {
    seq![0x46u8, 0x49u8, 0x4cu8, 0x45u8, 0x3au8]
}

/// Index of the first `|` in `b` at or after `from`, or the length of `b`.
pub open spec fn bar_from(b: Seq<u8>, from: int) -> int
    decreases b.len() - from,
{
    if from < 0 || from >= b.len() {
        b.len() as int
    } else if b[from] == 0x7cu8 {
        from
    } else {
        bar_from(b, from + 1)
    }
}

/// A reassembled `FILE:<name>|<content>` split into name and content.
pub open spec fn file_split(b: Seq<u8>) -> Option<(Seq<u8>, Seq<u8>)> {
    if b.len() >= 5 && b.subrange(0, 5) == file_tag() && bar_from(b, 5) < b.len() {
        let k = bar_from(b, 5);
        Some((b.subrange(5, k), b.subrange(k + 1, b.len() as int)))
    } else {
        None
    }
}

/// What is reported when a fragmented message completes.
pub open spec fn completion_log(d: Seq<u8>) -> LogView {
    match file_split(d) {
        Some((name, content)) => LogView::FileReceived(name, content),
        None => LogView::Reassembled(d),
    }
}

pub open spec fn frame_key(h: Header) -> KeyView {
    (h.src_id@, u64_le(h.msg_id))
}

/// The signature covers the canonical header and payload under the sender's key.
pub open spec fn signature_ok(f: Frame) -> bool {
    f.signature@.len() == 64 && ed25519_accepts(f.header.sender_pubkey@, signing_bytes_of(f), f.signature@)
}

pub open spec fn is_broadcast(h: Header) -> bool {
    h.dest_id@ == BROADCAST_ID@
}

/// A frame for another node whose payload is not ours to open.
pub open spec fn pure_forward(h: Header, my_id: Seq<u8>) -> bool {
    !is_broadcast(h) && h.dest_id@ != my_id && h.msg_type != MessageType::Hello && h.msg_type
        != MessageType::PeerList
}

/// Whether a frame that passed every check is passed on: it can still travel and
/// it is a broadcast or addressed to another node.
pub open spec fn relays(h: Header, my_id: Seq<u8>) -> bool {
    h.ttl >= 2 && (is_broadcast(h) || h.dest_id@ != my_id)
}

/// The frame that is passed on: one hop less, everything else the same.
pub open spec fn relayed(f: Frame, g: Frame) -> bool {
    g.header == (Header { ttl: (f.header.ttl - 1) as u8, ..f.header }) && g.payload@ == f.payload@
        && g.signature@ == f.signature@
}

/// Address `i` of a received peer list is a route not known before: not the
/// sender, not in the table, and not earlier in the list.
pub open spec fn route_is_new(known: Seq<Neighbor>, v: Seq<AddrView>, i: int, src: AddrView) -> bool {
    v[i] != src && !has_peer(known, v[i]) && !in_prefix(v, i, v[i])
}

/// `b` is among the first `i` addresses of `v`.
pub open spec fn in_prefix(v: Seq<AddrView>, i: int, b: AddrView) -> bool {
    exists|j: int| 0 <= j < i && v[j] == b
}

proof fn lemma_in_prefix_step(v: Seq<AddrView>, i: int, b: AddrView)
    requires
        0 <= i < v.len(),
    ensures
        in_prefix(v, i + 1, b) == (in_prefix(v, i, b) || v[i] == b),
{
    if in_prefix(v, i + 1, b) {
        let j = choose|j: int| 0 <= j < i + 1 && v[j] == b;
        if j < i {
            assert(in_prefix(v, i, b));
        }
    }
    if in_prefix(v, i, b) {
        let j = choose|j: int| 0 <= j < i && v[j] == b;
        assert(0 <= j < i + 1 && v[j] == b);
    }
    if v[i] == b {
        assert(0 <= i < i + 1 && v[i] == b);
    }
}

/// One event for each new route among the first `n` addresses, in list order.
pub open spec fn learned_routes(known: Seq<Neighbor>, v: Seq<AddrView>, src: AddrView, n: nat) -> Seq<LogView>
    decreases n,
{
    if n == 0 {
        Seq::empty()
    } else {
        learned_routes(known, v, src, (n - 1) as nat) + if route_is_new(known, v, n - 1, src) {
            seq![LogView::RouteLearned(v[n - 1])]
        } else {
            Seq::empty()
        }
    }
}

proof fn lemma_learned_routes_transfer(a: Seq<Neighbor>, b: Seq<Neighbor>, v: Seq<AddrView>, src: AddrView, n: nat)
    requires
        same_peers_but(a, b, src),
        n <= v.len(),
    ensures
        learned_routes(a, v, src, n) == learned_routes(b, v, src, n),
    decreases n,
{
    if n > 0 {
        lemma_learned_routes_transfer(a, b, v, src, (n - 1) as nat);
        assert(route_is_new(a, v, n - 1, src) == route_is_new(b, v, n - 1, src));
    }
}

/// The two tables hold the same addresses, `a` aside.
pub open spec fn same_peers_but(s: Seq<Neighbor>, t: Seq<Neighbor>, a: AddrView) -> bool {
    forall|b: AddrView| b != a ==> has_peer(s, b) == has_peer(t, b)
}

/// The effect of a decrypted payload `p` of frame `f` from `src`: the table and
/// buffers before (`peers0`, `asm0`) and after (`peers1`, `asm1`), the events
/// reported and the acknowledgement owed. `was_new` tells whether `src` has just
/// entered the table. Whether `src` itself is in the tables is left aside.
pub open spec fn plaintext_outcome(
    peers0: Seq<Neighbor>,
    asm0: Map<u64, PendingView>,
    peers1: Seq<Neighbor>,
    asm1: Map<u64, PendingView>,
    my_id: Seq<u8>,
    f: Frame,
    src: PeerAddr,
    p: Seq<u8>,
    was_new: bool,
    now_ms: u64,
    logs: Seq<LogView>,
    ack: Option<(PeerAddr, u64)>,
) -> bool {
    let h = f.header;
    let for_me = h.dest_id@ == my_id;
    let bc = is_broadcast(h);
    match h.msg_type {
        MessageType::Hello => {
            &&& logs == (if was_new { seq![LogView::NewNeighbor(src@)] } else { Seq::empty() })
            &&& ack is None && same_peers_but(peers0, peers1, src@) && asm1 == asm0
        },
        MessageType::Chat => {
            &&& logs == (if for_me && !bc {
                seq![LogView::PrivateChat(h.src_id@, p)]
            } else {
                seq![LogView::Chat(h.src_id@, p)]
            })
            &&& ack == (if for_me && !bc { Some((src, h.msg_id)) } else { None })
            &&& same_peers_but(peers0, peers1, src@) && asm1 == asm0
        },
        MessageType::Ack => {
            &&& ack is None && same_peers_but(peers0, peers1, src@) && asm1 == asm0
            &&& (for_me && p.len() == 8) ==> forall|n: u64| u64_le(n) == p ==> logs == seq![LogView::Acknowledged(n)]
            &&& !(for_me && p.len() == 8) ==> logs.len() == 0
        },
        MessageType::Unknown => logs.len() == 0 && ack is None && same_peers_but(peers0, peers1, src@) && asm1 == asm0,
        MessageType::FileChunk => {
            &&& same_peers_but(peers0, peers1, src@)
            &&& (!(for_me || bc) || forall|c: Chunk| #[trigger] chunk_wire(c) != p) ==> (logs.len() == 0
                && ack is None && asm1 == asm0)
            &&& (for_me || bc) ==> forall|c: Chunk| #[trigger] chunk_wire(c) == p ==> {
                &&& asm1 == asm_after(asm0, c, now_ms)
                &&& match chunk_result(asm0, c) {
                    Some(d) => logs == seq![completion_log(d)] && ack == Some((src, h.msg_id)),
                    None => logs.len() == 0 && ack is None,
                }
            }
        },
        MessageType::PeerList => {
            &&& ack is None && asm1 == asm0
            &&& (forall|w: Seq<PeerAddr>| all_canonical(w) ==> #[trigger] peer_list_wire(w) != p) ==> (logs.len() == 0
                && same_peers_but(peers0, peers1, src@))
            &&& forall|w: Seq<PeerAddr>| all_canonical(w) && #[trigger] peer_list_wire(w) == p ==> {
                &&& logs == learned_routes(peers0, addr_views(w), src@, w.len())
                &&& forall|b: AddrView| b != src@ ==> (has_peer(peers1, b) == (has_peer(peers0, b) || addr_views(w).contains(b)))
            }
        },
    }
}

/// An outcome stated against one table holds against any table that differs from
/// it in the sender's entry alone.
proof fn lemma_outcome_transfer(
    peers_a: Seq<Neighbor>,
    peers_b: Seq<Neighbor>,
    asm0: Map<u64, PendingView>,
    peers1: Seq<Neighbor>,
    asm1: Map<u64, PendingView>,
    my_id: Seq<u8>,
    f: Frame,
    src: PeerAddr,
    p: Seq<u8>,
    was_new: bool,
    now_ms: u64,
    logs: Seq<LogView>,
    ack: Option<(PeerAddr, u64)>,
)
    requires
        same_peers_but(peers_a, peers_b, src@),
        plaintext_outcome(peers_b, asm0, peers1, asm1, my_id, f, src, p, was_new, now_ms, logs, ack),
    ensures
        plaintext_outcome(peers_a, asm0, peers1, asm1, my_id, f, src, p, was_new, now_ms, logs, ack),
{
    if f.header.msg_type == MessageType::PeerList {
        assert forall|w: Seq<PeerAddr>| all_canonical(w) && #[trigger] peer_list_wire(w) == p implies {
            &&& logs == learned_routes(peers_a, addr_views(w), src@, w.len())
            &&& forall|b: AddrView| b != src@ ==> (has_peer(peers1, b) == (has_peer(peers_a, b) || addr_views(w).contains(b)))
        } by {
            lemma_learned_routes_transfer(peers_a, peers_b, addr_views(w), src@, w.len());
        }
    }
}

/// The per-frame protocol engine: replay suppression, authentication, neighbor
/// bookkeeping, dispatch and forwarding.
pub struct Node {
    pub state: State,
    pub my_id: [u8; 8],
    pub replay_cache: ReplayCache,
    pub rate_limiter: RateLimiter,
    pub peers: NeighborTable,
    pub assembler: Assembler,
}

impl Node {
    pub open spec fn wf(&self) -> bool {
        self.replay_cache.wf() && self.peers.wf() && self.assembler.wf()
    }

    pub fn new(my_id: [u8; 8]) -> (r: Node)
        ensures
            r.wf(),
            r.my_id == my_id,
            r.state == State::Idle,
            r.replay_cache@.len() == 0,
            r.peers@.len() == 0,
            r.assembler@ == Map::<u64, PendingView>::empty(),
    {
        Node {
            state: State::Idle,
            my_id,
            replay_cache: ReplayCache::new(),
            rate_limiter: RateLimiter::new(),
            peers: NeighborTable::new(),
            assembler: Assembler::new(),
        }
    }

    /// Records `addr` as a neighbor seen at `now_ms`.
    pub fn add_peer(&mut self, addr: PeerAddr, now_ms: u64)
        requires
            old(self).wf(),
        ensures
            final(self).wf(),
            peer_seen_at(final(self).peers@, addr@, now_ms),
            forall|b: AddrView| b != addr@ ==> (has_peer(final(self).peers@, b) == has_peer(old(self).peers@, b)),
            final(self).replay_cache@ == old(self).replay_cache@,
            final(self).assembler@ == old(self).assembler@,
            final(self).my_id == old(self).my_id,
    {
        let _ = self.peers.touch(addr, now_ms);
    }

    /// Drops stale reassembly buffers and the neighbors silent for longer than
    /// `timeout_ms`, whose addresses it returns.
    pub fn prune_dead_nodes(&mut self, timeout_ms: u64, now_ms: u64) -> (dead: Vec<PeerAddr>)
        requires
            old(self).wf(),
        ensures
            final(self).wf(),
            forall|i: int| 0 <= i < final(self).peers@.len() ==> old(self).peers@.contains(#[trigger] final(self).peers@[i])
                && !crate::neighbors::is_expired(final(self).peers@[i].last_seen_ms, now_ms, timeout_ms),
            forall|i: int| 0 <= i < old(self).peers@.len() && !crate::neighbors::is_expired(old(self).peers@[i].last_seen_ms, now_ms, timeout_ms)
                ==> final(self).peers@.contains(#[trigger] old(self).peers@[i]),
            forall|i: int| 0 <= i < dead@.len() ==> crate::neighbors::expired_in(old(self).peers@, #[trigger] dead@[i], now_ms, timeout_ms),
            dead@.len() + final(self).peers@.len() == old(self).peers@.len(),
            forall|id: u64|
                #[trigger] final(self).assembler@.contains_key(id) <==> (old(self).assembler@.contains_key(id)
                    && !crate::chunker::is_stale(old(self).assembler@[id], now_ms)),
            forall|id: u64| #[trigger] final(self).assembler@.contains_key(id) ==> final(self).assembler@[id] == old(self).assembler@[id],
            final(self).replay_cache@ == old(self).replay_cache@,
            final(self).my_id == old(self).my_id,
    {
        self.assembler.cleanup_stale(now_ms);
        self.peers.prune(timeout_ms, now_ms)
    }

    /// Processes one inbound frame from `src` at time `now_ms`: structural check,
    /// replay check, signature check, neighbor refresh, then either a pure
    /// forward or decryption and dispatch, and the forwarding decision.
    pub fn on_frame(&mut self, frame: Frame, src: PeerAddr, now_ms: u64) -> (r: ProcessResult)
        requires
            old(self).wf(),
        ensures
            final(self).wf(),
            final(self).my_id == old(self).my_id,
            final(self).state == State::Idle,
            ({
                let h = frame.header;
                let my_id = old(self).my_id@;
                let valid = spec_valid_structure(h, frame.payload@.len());
                let fresh = !old(self).replay_cache@.contains(frame_key(h));
                let was_new = !has_peer(old(self).peers@, src@);
                &&& (!valid || !fresh) ==> {
                    &&& r.is_empty()
                    &&& final(self).replay_cache@ == old(self).replay_cache@
                    &&& final(self).peers@ == old(self).peers@
                    &&& final(self).assembler@ == old(self).assembler@
                }
                &&& (valid && fresh) ==> final(self).replay_cache@ == seen_step(old(self).replay_cache@, frame_key(h))
                &&& (valid && fresh && !signature_ok(frame)) ==> {
                    &&& r.frame_to_relay is None && r.ack_to_send is None
                    &&& logs_view(r.log_output@) == seq![LogView::InvalidSignature(src@)]
                    &&& final(self).peers@ == old(self).peers@
                    &&& final(self).assembler@ == old(self).assembler@
                }
                &&& (valid && fresh && signature_ok(frame)) ==> {
                    &&& peer_seen_at(final(self).peers@, src@, now_ms)
                    &&& (r.frame_to_relay is Some) == relays(h, my_id)
                    &&& (r.frame_to_relay matches Some(g) ==> relayed(frame, g))
                    &&& (pure_forward(h, my_id) || open_wire(frame.payload@) is None) ==> {
                        &&& r.ack_to_send is None && r.log_output@.len() == 0
                        &&& final(self).assembler@ == old(self).assembler@
                        &&& same_peers_but(old(self).peers@, final(self).peers@, src@)
                    }
                    &&& (!pure_forward(h, my_id) && open_wire(frame.payload@) is Some) ==> plaintext_outcome(
                        old(self).peers@,
                        old(self).assembler@,
                        final(self).peers@,
                        final(self).assembler@,
                        my_id,
                        frame,
                        src,
                        open_wire(frame.payload@)->0,
                        was_new,
                        now_ms,
                        logs_view(r.log_output@),
                        r.ack_to_send,
                    )
                }
            }),
    {
        self.state = State::Processing;
        let mut result = ProcessResult { frame_to_relay: None, ack_to_send: None, log_output: Vec::new() };
        if !frame.is_valid_structure() {
            self.state = State::Idle;
            return result;
        }
        let key = ReplayKey { sender: frame.header.src_id, msg_id: le_array(frame.header.msg_id) };
        assert(key@ == frame_key(frame.header));
        if self.replay_cache.seen(key) {
            self.state = State::Idle;
            return result;
        }
        let digest = frame.signing_bytes();
        if !verify(&frame.header.sender_pubkey, digest.as_slice(), frame.signature.as_slice()) {
            result.log_output.push(LogEvent::InvalidSignature(src));
            assert(logs_view(result.log_output@) =~= seq![LogView::InvalidSignature(src@)]);
            self.state = State::Idle;
            return result;
        }
        let ghost peers_before = self.peers@;
        let was_new = self.peers.touch(src, now_ms);
        let bid = BROADCAST_ID;
        let is_broadcast = same_id(&frame.header.dest_id, &bid);
        let is_for_me = same_id(&frame.header.dest_id, &self.my_id);
        let mut frame = frame;
        let control = match frame.header.msg_type {
            MessageType::Hello => true,
            MessageType::PeerList => true,
            _ => false,
        };
        if !is_broadcast && !is_for_me && !control {
            if frame.decrement_ttl() {
                result.frame_to_relay = Some(frame);
            }
            self.state = State::Idle;
            return result;
        }
        match decrypt(frame.payload.as_slice()) {
            Some(plain) => {
                let ghost peers_mid = self.peers@;
                let (logs, ack) = self.handle_plaintext(&frame, src, plain.as_slice(), was_new, now_ms);
                result.log_output = logs;
                result.ack_to_send = ack;
                proof {
                    assert forall|b: AddrView| b != src@ implies has_peer(peers_mid, b) == has_peer(peers_before, b) by {}
                    lemma_outcome_transfer(
                        peers_before,
                        peers_mid,
                        old(self).assembler@,
                        self.peers@,
                        self.assembler@,
                        old(self).my_id@,
                        frame,
                        src,
                        plain@,
                        was_new,
                        now_ms,
                        logs_view(result.log_output@),
                        result.ack_to_send,
                    );
                }
            },
            None => {},
        }
        if (is_broadcast || !is_for_me) && frame.decrement_ttl() {
            result.frame_to_relay = Some(frame);
        }
        self.state = State::Idle;
        result
    }

    /// Acts on the decrypted payload `plain` of `frame`, which came from `src`
    /// (`was_new`: `src` has just entered the neighbor table).
    pub fn handle_plaintext(&mut self, frame: &Frame, src: PeerAddr, plain: &[u8], was_new: bool, now_ms: u64)
        -> (r: (Vec<LogEvent>, Option<(PeerAddr, u64)>))
        requires
            old(self).wf(),
        ensures
            final(self).wf(),
            plaintext_outcome(
                old(self).peers@,
                old(self).assembler@,
                final(self).peers@,
                final(self).assembler@,
                old(self).my_id@,
                *frame,
                src,
                plain@,
                was_new,
                now_ms,
                logs_view(r.0@),
                r.1,
            ),
            forall|b: AddrView, t: u64| peer_seen_at(old(self).peers@, b, t) ==> peer_seen_at(final(self).peers@, b, t),
            final(self).replay_cache@ == old(self).replay_cache@,
            final(self).my_id == old(self).my_id,
            final(self).state == old(self).state,
    {
        let h = frame.header;
        let bid = BROADCAST_ID;
        let for_me = same_id(&h.dest_id, &self.my_id);
        let bcast = same_id(&h.dest_id, &bid);
        let mut logs: Vec<LogEvent> = Vec::new();
        match h.msg_type {
            MessageType::Hello => {
                if was_new {
                    logs.push(LogEvent::NewNeighbor(src));
                    assert(logs_view(logs@) =~= seq![LogView::NewNeighbor(src@)]);
                } else {
                    assert(logs_view(logs@) =~= Seq::<LogView>::empty());
                }
                (logs, None)
            },
            MessageType::PeerList => {
                let ghost peers0 = self.peers@;
                match decode_peer_list(plain) {
                    Some(list) => {
                        let n = list.len();
                        let ghost v = addr_views(list@);
                        let mut i: usize = 0;
                        assert(logs_view(logs@) =~= Seq::<LogView>::empty());
                        while i < n
                            invariant
                                n == list@.len(),
                                v == addr_views(list@),
                                i <= n,
                                self.wf(),
                                self.replay_cache@ == old(self).replay_cache@,
                                self.assembler@ == old(self).assembler@,
                                self.my_id == old(self).my_id,
                                self.state == old(self).state,
                                peers0 == old(self).peers@,
                                forall|b: AddrView, t: u64| peer_seen_at(peers0, b, t) ==> peer_seen_at(self.peers@, b, t),
                                forall|b: AddrView| b != src@ ==> (has_peer(self.peers@, b) == (has_peer(peers0, b)
                                    || in_prefix(v, i as int, b))),
                                logs_view(logs@) == learned_routes(peers0, v, src@, i as nat),
                            decreases n - i,
                        {
                            let a = list[i];
                            assert(v[i as int] == a@);
                            let known = self.peers.contains(&a);
                            let is_src = a.same(&src);
                            proof {
                                if !is_src {
                                    assert(known == (has_peer(peers0, a@) || in_prefix(v, i as int, a@)));
                                }
                                assert((!known && !is_src) == route_is_new(peers0, v, i as int, src@));
                            }
                            let ghost logs0 = logs@;
                            let ghost mid = self.peers@;
                            assert(forall|b: AddrView| b != src@ ==> (has_peer(mid, b) == (has_peer(peers0, b) || in_prefix(v, i as int, b))));
                            if !known && !is_src {
                                let _ = self.peers.touch(a, now_ms);
                                logs.push(LogEvent::RouteLearned(a));
                                proof {
                                    assert(logs_view(logs@) =~= logs_view(logs0) + seq![LogView::RouteLearned(a@)]);
                                    assert forall|b: AddrView, t: u64| peer_seen_at(peers0, b, t) implies peer_seen_at(self.peers@, b, t) by {
                                        assert(peer_seen_at(mid, b, t));
                                        if b == a@ {
                                            let j = choose|j: int| 0 <= j < peers0.len() && (#[trigger] peers0[j]).addr@ == b && peers0[j].last_seen_ms == t;
                                            assert(has_peer(peers0, b));
                                        }
                                    }
                                    assert forall|b: AddrView| b != src@ implies (has_peer(self.peers@, b) == (has_peer(peers0, b)
                                        || in_prefix(v, i + 1, b))) by {
                                        lemma_in_prefix_step(v, i as int, b);
                                        assert(has_peer(mid, b) == (has_peer(peers0, b) || in_prefix(v, i as int, b)));
                                        if b == a@ {
                                            assert(has_peer(self.peers@, a@)) by {
                                                assert(peer_seen_at(self.peers@, a@, now_ms));
                                            }
                                        }
                                    }
                                }
                            } else {
                                proof {
                                    assert(logs_view(logs@) =~= logs_view(logs0) + Seq::<LogView>::empty());
                                    assert forall|b: AddrView| b != src@ implies (has_peer(self.peers@, b) == (has_peer(peers0, b)
                                        || in_prefix(v, i + 1, b))) by {
                                        lemma_in_prefix_step(v, i as int, b);
                                        assert(has_peer(mid, b) == (has_peer(peers0, b) || in_prefix(v, i as int, b)));
                                    }
                                }
                            }
                            i = i + 1;
                        }
                        proof {
                            assert forall|b: AddrView| b != src@ implies (has_peer(self.peers@, b) == (has_peer(peers0, b) || v.contains(b))) by {
                                assert(has_peer(self.peers@, b) == (has_peer(peers0, b) || in_prefix(v, i as int, b)));
                                if v.contains(b) {
                                    let j = choose|j: int| 0 <= j < v.len() && v[j] == b;
                                    assert(in_prefix(v, n as int, b));
                                }
                                if in_prefix(v, n as int, b) {
                                    let j = choose|j: int| 0 <= j < n && v[j] == b;
                                    assert(v.contains(b));
                                }
                            }
                        }
                    },
                    None => {
                        assert(logs_view(logs@) =~= Seq::<LogView>::empty());
                    },
                }
                (logs, None)
            },
            MessageType::Chat => {
                let text = vstd::slice::slice_to_vec(plain);
                if for_me && !bcast {
                    logs.push(LogEvent::PrivateChat { from: h.src_id, text });
                    assert(logs_view(logs@) =~= seq![LogView::PrivateChat(h.src_id@, plain@)]);
                    (logs, Some((src, h.msg_id)))
                } else {
                    logs.push(LogEvent::Chat { from: h.src_id, text });
                    assert(logs_view(logs@) =~= seq![LogView::Chat(h.src_id@, plain@)]);
                    (logs, None)
                }
            },
            MessageType::FileChunk => {
                if !(for_me || bcast) {
                    assert(logs_view(logs@) =~= Seq::<LogView>::empty());
                    return (logs, None);
                }
                match Chunk::decode(plain) {
                    None => {
                        assert(logs_view(logs@) =~= Seq::<LogView>::empty());
                        (logs, None)
                    },
                    Some(c) => {
                        let ghost c0 = c;
                        let ghost asm0 = self.assembler@;
                        let done = self.assembler.add_chunk(c, now_ms);
                        proof {
                            assert forall|c2: Chunk| #[trigger] chunk_wire(c2) == plain@ implies
                                asm_after(asm0, c2, now_ms) == asm_after(asm0, c0, now_ms)
                                && chunk_result(asm0, c2) == chunk_result(asm0, c0) by {
                                lemma_chunk_wire_injective(c2, c0);
                                assert(crate::chunker::parts_with(asm0, c2) == crate::chunker::parts_with(asm0, c0));
                            }
                        }
                        match done {
                            Some(d) => {
                                let e = completion_event(d);
                                logs.push(e);
                                assert(logs_view(logs@) =~= seq![e@]);
                                (logs, Some((src, h.msg_id)))
                            },
                            None => {
                                assert(logs_view(logs@) =~= Seq::<LogView>::empty());
                                (logs, None)
                            },
                        }
                    },
                }
            },
            MessageType::Ack => {
                if for_me {
                    match decode_ack(plain) {
                        Some(n) => {
                            logs.push(LogEvent::Acknowledged(n));
                            proof {
                                assert(logs_view(logs@) =~= seq![LogView::Acknowledged(n)]);
                                assert forall|m: u64| u64_le(m) == plain@ implies logs_view(logs@) == seq![LogView::Acknowledged(m)] by {
                                    crate::wire::lemma_u64_le_injective(m, n);
                                }
                            }
                        },
                        None => {
                            assert(logs_view(logs@) =~= Seq::<LogView>::empty());
                        },
                    }
                } else {
                    assert(logs_view(logs@) =~= Seq::<LogView>::empty());
                }
                (logs, None)
            },
            MessageType::Unknown => {
                assert(logs_view(logs@) =~= Seq::<LogView>::empty());
                (logs, None)
            },
        }
    }
}

/// Whether `d` opens with `FILE:`.
fn has_file_tag(d: &Vec<u8>) -> (r: bool)
    ensures
        r == (d@.len() >= 5 && d@.subrange(0, 5) == file_tag()),
{
    if d.len() < 5 {
        return false;
    }
    let r = d[0] == 0x46u8 && d[1] == 0x49u8 && d[2] == 0x4cu8 && d[3] == 0x45u8 && d[4] == 0x3au8;
    proof {
        if r {
            assert(d@.subrange(0, 5) =~= file_tag());
        } else if d@.subrange(0, 5) == file_tag() {
            assert(d@[0] == d@.subrange(0, 5)[0]);
            assert(d@[1] == d@.subrange(0, 5)[1]);
            assert(d@[2] == d@.subrange(0, 5)[2]);
            assert(d@[3] == d@.subrange(0, 5)[3]);
            assert(d@[4] == d@.subrange(0, 5)[4]);
        }
    }
    r
}

/// Index of the first `|` at or after `from`, or the length.
fn find_bar(b: &Vec<u8>, from: usize) -> (r: usize)
    requires
        from <= b@.len(),
    ensures
        r == bar_from(b@, from as int),
        from <= r <= b@.len(),
{
    let n = b.len();
    let mut i = from;
    while i < n
        invariant
            n == b@.len(),
            from <= i <= n,
            bar_from(b@, from as int) == bar_from(b@, i as int),
        decreases n - i,
    {
        if b[i] == 0x7cu8 {
            return i;
        }
        i = i + 1;
    }
    i
}

/// The event for a completed fragmented message: a file when it reads
/// `FILE:<name>|<content>`, a plain message otherwise.
fn completion_event(d: Vec<u8>) -> (r: LogEvent)
    ensures
        r@ == completion_log(d@),
{
    if has_file_tag(&d) {
        let k = find_bar(&d, 5);
        if k < d.len() {
            let name = vstd::slice::slice_to_vec(vstd::slice::slice_subrange(d.as_slice(), 5, k));
            let content = vstd::slice::slice_to_vec(vstd::slice::slice_subrange(d.as_slice(), k + 1, d.len()));
            return LogEvent::FileReceived { name, content };
        }
    }
    LogEvent::Reassembled(d)
}

} // verus!