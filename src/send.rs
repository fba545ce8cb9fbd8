use vstd::prelude::*;
use rand::RngCore;
use crate::chunker::{chunk_count, chunk_slice, chunk_wire, Assembler, Chunk, CHUNK_SIZE};
use crate::crypto::{encrypt, open_wire};
use crate::identity::Identity;
use crate::node::{bar_from, file_split, file_tag, signature_ok};
use crate::payload::encode_ack;
use crate::protocol::{spec_valid_structure, Frame, Header, MessageType, BROADCAST_ID, CURRENT_VERSION, INITIAL_TTL, MAGIC_BYTES};
use crate::wire::{push_all, u64_le};

verus! {

/// Largest message sent in a single frame; longer ones are fragmented.
pub const MAX_DIRECT: usize = 800;

/// Largest message the send pipeline accepts.
pub const MAX_MESSAGE: usize = 0x7FFF_FFFF;

/// Relies on rand's `thread_rng().next_u64()`: a random 64-bit id. Nothing is
/// known of its value.
#[verifier::external_body]
pub(crate) fn random_u64() -> (r: u64) {
    rand::thread_rng().next_u64()
}

/// `h` is the header of a fresh frame from `id`.
pub open spec fn is_fresh_header(h: Header, id: Identity, dest_id: [u8; 8], msg_type: MessageType, msg_id: u64, len: nat) -> bool {
    &&& h.magic == MAGIC_BYTES
    &&& h.version == CURRENT_VERSION
    &&& h.msg_type == msg_type
    &&& h.ttl == INITIAL_TTL
    &&& h.flags == 0
    &&& h.msg_id == msg_id
    &&& h.src_id@ == id.public@.subrange(0, 8)
    &&& h.dest_id == dest_id
    &&& h.sender_pubkey == id.public
    &&& h.payload_len as nat == len
}

/// A frame from `id` carrying the already encrypted `payload`, with hop count 3,
/// signed over its canonical header and payload.
pub fn build_frame(id: &Identity, dest_id: [u8; 8], msg_type: MessageType, payload: Vec<u8>, msg_id: u64) -> (r: Frame)
    requires
        id.wf(),
        payload@.len() <= 0xFFFF,
    ensures
        is_fresh_header(r.header, *id, dest_id, msg_type, msg_id, payload@.len()),
        r.payload@ == payload@,
        signature_ok(r),
        spec_valid_structure(r.header, r.payload@.len()),
{
    let src_id = id.node_id();
    let header = Header {
        magic: MAGIC_BYTES,
        version: CURRENT_VERSION,
        msg_type,
        ttl: INITIAL_TTL,
        flags: 0,
        msg_id,
        src_id,
        dest_id,
        sender_pubkey: id.public,
        payload_len: payload.len() as u16,
    };
    let unsigned = Frame { header, payload, signature: Vec::new() };
    let digest = unsigned.signing_bytes();
    let signature = id.sign(digest.as_slice());
    let Frame { header, payload, .. } = unsigned;
    let r = Frame { header, payload, signature };
    assert(crate::protocol::signing_bytes_of(r) == crate::protocol::signing_bytes_of(unsigned));
    r
}

/// A signed frame of type `msg_type` whose payload is `plain` encrypted, with a
/// fresh random id.
pub fn sealed_frame(id: &Identity, dest_id: [u8; 8], msg_type: MessageType, plain: &[u8]) -> (r: Frame)
    requires
        id.wf(),
        plain@.len() <= 0xFFFF - 40,
    ensures
        exists|msg_id: u64| is_fresh_header(r.header, *id, dest_id, msg_type, msg_id, r.payload@.len()),
        open_wire(r.payload@) == Some(plain@),
        signature_ok(r),
        spec_valid_structure(r.header, r.payload@.len()),
{
    let enc = encrypt(plain);
    let msg_id = random_u64();
    build_frame(id, dest_id, msg_type, enc, msg_id)
}

/// The heartbeat: a broadcast Hello with an empty encrypted payload.
pub fn hello_frame(id: &Identity) -> (r: Frame)
    requires
        id.wf(),
    ensures
        exists|msg_id: u64| is_fresh_header(r.header, *id, BROADCAST_ID, MessageType::Hello, msg_id, r.payload@.len()),
        open_wire(r.payload@) == Some(Seq::<u8>::empty()),
        signature_ok(r),
{
    let empty: Vec<u8> = Vec::new();
    assert(empty@ =~= Seq::<u8>::empty());
    sealed_frame(id, BROADCAST_ID, MessageType::Hello, empty.as_slice())
}

/// The acknowledgement of message `msg_id`, addressed to the node `dest_id` that sent it.
pub fn ack_frame(id: &Identity, dest_id: [u8; 8], msg_id: u64) -> (r: Frame)
    requires
        id.wf(),
    ensures
        exists|fid: u64| is_fresh_header(r.header, *id, dest_id, MessageType::Ack, fid, r.payload@.len()),
        open_wire(r.payload@) == Some(u64_le(msg_id)),
        signature_ok(r),
{
    let p = encode_ack(msg_id);
    sealed_frame(id, dest_id, MessageType::Ack, p.as_slice())
}

/// Frame `f` carries chunk `i` of a message `big_id` of `n` chunks cut from `data`.
pub open spec fn carries_chunk(f: Frame, big_id: u64, n: nat, i: int, data: Seq<u8>) -> bool {
    f.header.msg_type == MessageType::FileChunk && exists|c: Chunk|
        open_wire(f.payload@) == Some(#[trigger] chunk_wire(c)) && c.msg_id == big_id && c.total as nat == n
            && c.index as int == i && c.data@ == chunk_slice(data, i as nat)
}

/// Frame `i` of `frames` carries chunk `i` of message `big_id` cut from `data`.
pub open spec fn carries_message(frames: Seq<Frame>, big_id: u64, data: Seq<u8>) -> bool {
    forall|i: int| 0 <= i < frames.len() ==> carries_chunk(#[trigger] frames[i], big_id, frames.len(), i, data)
}

/// The frames that carry `data` to `dest_id`: a single Chat frame when it is at
/// most `MAX_DIRECT` bytes, otherwise one FileChunk frame per chunk of a fresh
/// message id, in index order. Every frame is fresh from `id` and signed.
pub fn outbound_frames(id: &Identity, dest_id: [u8; 8], data: &[u8]) -> (r: Vec<Frame>)
    requires
        id.wf(),
        data@.len() <= MAX_MESSAGE,
    ensures
        forall|i: int| 0 <= i < r@.len() ==> signature_ok(#[trigger] r@[i]) && exists|msg_id: u64|
            is_fresh_header(r@[i].header, *id, dest_id, r@[i].header.msg_type, msg_id, r@[i].payload@.len()),
        data@.len() <= MAX_DIRECT ==> r@.len() == 1 && r@[0].header.msg_type == MessageType::Chat
            && open_wire(r@[0].payload@) == Some(data@),
        data@.len() > MAX_DIRECT ==> r@.len() == chunk_count(data@.len()) && exists|big_id: u64|
            #[trigger] carries_message(r@, big_id, data@),
{
    let mut frames: Vec<Frame> = Vec::new();
    if data.len() <= MAX_DIRECT {
        let f = sealed_frame(id, dest_id, MessageType::Chat, data);
        frames.push(f);
        return frames;
    }
    let big_id = random_u64();
    let chunks = Assembler::split_message(big_id, data);
    let n = chunks.len();
    let mut i: usize = 0;
    while i < n
        invariant
            id.wf(),
            n == chunks@.len(),
            n == chunk_count(data@.len()),
            i <= n,
            frames@.len() == i,
            forall|k: int| 0 <= k < n ==> {
                &&& (#[trigger] chunks@[k]).msg_id == big_id
                &&& chunks@[k].total as nat == n
                &&& chunks@[k].index as int == k
                &&& chunks@[k].data@ == chunk_slice(data@, k as nat)
            },
            forall|k: int| 0 <= k < i ==> signature_ok(#[trigger] frames@[k]) && exists|msg_id: u64|
                is_fresh_header(frames@[k].header, *id, dest_id, frames@[k].header.msg_type, msg_id, frames@[k].payload@.len()),
            forall|k: int| 0 <= k < i ==> carries_chunk(#[trigger] frames@[k], big_id, n as nat, k, data@),
        decreases n - i,
    {
        let c = &chunks[i];
        proof {
            assert(chunks@[i as int].data@ == chunk_slice(data@, i as nat));
            assert(chunk_slice(data@, i as nat).len() <= CHUNK_SIZE);
        }
        let bytes = c.encode();
        let f = sealed_frame(id, dest_id, MessageType::FileChunk, bytes.as_slice());
        proof {
            assert(open_wire(f.payload@) == Some(chunk_wire(*c)));
        }
        frames.push(f);
        proof {
            assert forall|k: int| 0 <= k < i + 1 implies carries_chunk(#[trigger] frames@[k], big_id, n as nat, k, data@) by {
                if k == i {
                    assert(frames@[k] == f);
                }
            }
        }
        i = i + 1;
    }
    assert(carries_message(frames@, big_id, data@));
    frames
}

/// The bytes of a file transfer: `FILE:`, the name, `|`, the content.
pub fn file_transfer_bytes(name: &[u8], content: &[u8]) -> (r: Vec<u8>)
    ensures
        r@ == file_tag() + name@ + seq![0x7cu8] + content@,
        !name@.contains(0x7cu8) ==> file_split(r@) == Some((name@, content@)),
{
    let mut out: Vec<u8> = Vec::new();
    out.push(0x46u8);
    out.push(0x49u8);
    out.push(0x4cu8);
    out.push(0x45u8);
    out.push(0x3au8);
    push_all(&mut out, name);
    out.push(0x7cu8);
    push_all(&mut out, content);
    proof {
        assert(out@ =~= file_tag() + name@ + seq![0x7cu8] + content@);
        if !name@.contains(0x7cu8) {
            let b = out@;
            let k: int = 5 + name@.len() as int;
            assert forall|i: int| 5 <= i <= k implies bar_from(b, i) == k by {
                lemma_bar_from_scan(b, i, k);
            }
            assert(b.subrange(0, 5) =~= file_tag());
            assert(b.subrange(5, k) =~= name@);
            assert(b.subrange(k + 1, b.len() as int) =~= content@);
        }
    }
    out
}

proof fn lemma_bar_from_scan(b: Seq<u8>, i: int, k: int)
    requires
        0 <= i <= k < b.len(),
        b[k] == 0x7cu8,
        forall|j: int| i <= j < k ==> b[j] != 0x7cu8,
    ensures
        bar_from(b, i) == k,
    decreases k - i,
{
    if i < k {
        lemma_bar_from_scan(b, i + 1, k);
    }
}

} // verus!
