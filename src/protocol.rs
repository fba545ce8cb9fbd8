use vstd::prelude::*;
use crate::wire::{
    prefixed, push_prefixed, push_u16, push_u64, push_all, read_prefixed, read_u16, read_u64,
    u16_le, u64_le,
};

verus! {

pub const MAGIC_BYTES: u16 = 0xEB01;

pub const CURRENT_VERSION: u8 = 1;

/// The all-zero destination: every node.
pub const BROADCAST_ID: [u8; 8] = [0, 0, 0, 0, 0, 0, 0, 0];

/// Hop count given to a frame when it is first sent.
pub const INITIAL_TTL: u8 = 3;

/// Length of an encoded header in bytes.
pub const HEADER_LEN: usize = 64;

/// The kind of a frame.
#[derive(Clone, Copy, Debug, PartialEq, Eq, Structural)]
pub enum MessageType {
    Hello,
    PeerList,
    Chat,
    FileChunk,
    Ack,
    Unknown,
}

impl MessageType {
    /// The byte that stands for this kind on the wire.
    pub open spec fn spec_code(self) -> u8 {
        match self {
            MessageType::Hello => 0x01,
            MessageType::PeerList => 0x02,
            MessageType::Chat => 0x03,
            MessageType::FileChunk => 0x04,
            MessageType::Ack => 0x05,
            MessageType::Unknown => 0xFF,
        }
    }

    pub fn code(&self) -> (r: u8)
        ensures
            r == self.spec_code(),
    {
        match self {
            MessageType::Hello => 0x01,
            MessageType::PeerList => 0x02,
            MessageType::Chat => 0x03,
            MessageType::FileChunk => 0x04,
            MessageType::Ack => 0x05,
            MessageType::Unknown => 0xFF,
        }
    }

    /// The kind whose code is `b`, if any.
    pub fn from_code(b: u8) -> (r: Option<MessageType>)
        ensures
            match r {
                Some(t) => t.spec_code() == b,
                None => forall|t: MessageType| t.spec_code() != b,
            },
    {
        if b == 0x01 {
            Some(MessageType::Hello)
        } else if b == 0x02 {
            Some(MessageType::PeerList)
        } else if b == 0x03 {
            Some(MessageType::Chat)
        } else if b == 0x04 {
            Some(MessageType::FileChunk)
        } else if b == 0x05 {
            Some(MessageType::Ack)
        } else if b == 0xFF {
            Some(MessageType::Unknown)
        } else {
            None
        }
    }
}

#[derive(Clone, Copy, Debug)]
pub struct Header {
    pub magic: u16,
    pub version: u8,
    pub msg_type: MessageType,
    pub ttl: u8,
    pub flags: u8,
    pub msg_id: u64,
    pub src_id: [u8; 8],
    pub dest_id: [u8; 8],
    pub sender_pubkey: [u8; 32],
    pub payload_len: u16,
}

#[derive(Clone, Debug)]
pub struct Frame {
    pub header: Header,
    pub payload: Vec<u8>,
    pub signature: Vec<u8>,
}

/// The 64 header bytes, fixed-width fields in little-endian order.
pub open spec fn header_wire(h: Header) -> Seq<u8> {
    u16_le(h.magic) + seq![h.version, h.msg_type.spec_code(), h.ttl, h.flags] + u64_le(h.msg_id)
        + h.src_id@ + h.dest_id@ + h.sender_pubkey@ + u16_le(h.payload_len)
}

/// A frame on the wire: header, then payload and signature, each length-prefixed.
pub open spec fn frame_wire(f: Frame) -> Seq<u8> {
    header_wire(f.header) + prefixed(f.payload@) + prefixed(f.signature@)
}

/// The header as it is signed: hop count and flags zeroed.
pub open spec fn canonical_header(h: Header) -> Header {
    Header { ttl: 0, flags: 0, ..h }
}

/// The bytes that the sender signs: the canonical header followed by the raw payload.
pub open spec fn signing_bytes_of(f: Frame) -> Seq<u8> {
    header_wire(canonical_header(f.header)) + f.payload@
}

pub open spec fn spec_valid_structure(h: Header, payload_len: nat) -> bool {
    h.magic == MAGIC_BYTES && h.payload_len as nat == payload_len && h.ttl >= 1
}

pub fn encode_header(h: &Header) -> (r: Vec<u8>)
    ensures
        r@ == header_wire(*h),
{
    let mut out: Vec<u8> = Vec::new();
    push_u16(&mut out, h.magic);
    out.push(h.version);
    out.push(h.msg_type.code());
    out.push(h.ttl);
    out.push(h.flags);
    push_u64(&mut out, h.msg_id);
    push_all(&mut out, h.src_id.as_slice());
    push_all(&mut out, h.dest_id.as_slice());
    push_all(&mut out, h.sender_pubkey.as_slice());
    push_u16(&mut out, h.payload_len);
    proof {
        assert(out@ =~= header_wire(*h));
    }
    out
}

fn read_array8(b: &[u8], at: usize) -> (r: [u8; 8])
    requires
        at + 8 <= b@.len(),
    ensures
        r@ == b@.subrange(at as int, at + 8),
{
    let mut r = [0u8; 8];
    let mut i: usize = 0;
    let len = b.len();
    while i < 8
        invariant
            i <= 8,
            at + 8 <= b@.len(),
            len == b@.len(),
            forall|j: int| 0 <= j < i ==> r@[j] == b@[at + j],
        decreases 8 - i,
    {
        r[i] = b[at + i];
        i = i + 1;
    }
    assert(r@ =~= b@.subrange(at as int, at + 8));
    r
}

fn read_array32(b: &[u8], at: usize) -> (r: [u8; 32])
    requires
        at + 32 <= b@.len(),
    ensures
        r@ == b@.subrange(at as int, at + 32),
{
    let mut r = [0u8; 32];
    let mut i: usize = 0;
    let len = b.len();
    while i < 32
        invariant
            i <= 32,
            at + 32 <= b@.len(),
            len == b@.len(),
            forall|j: int| 0 <= j < i ==> r@[j] == b@[at + j],
        decreases 32 - i,
    {
        r[i] = b[at + i];
        i = i + 1;
    }
    assert(r@ =~= b@.subrange(at as int, at + 32));
    r
}

/// Reads the 64 header bytes at the start of `b`.
pub fn decode_header(b: &[u8]) -> (r: Option<Header>)
    ensures
        match r {
            Some(h) => HEADER_LEN <= b@.len() && header_wire(h) == b@.subrange(0, 64),
            None => forall|h: Header|
                !(HEADER_LEN <= b@.len() && #[trigger] header_wire(h) == b@.subrange(0, 64)),
        },
{
    if b.len() < HEADER_LEN {
        return None;
    }
    let t = MessageType::from_code(b[3]);
    match t {
        None => {
            proof {
                assert forall|h: Header|
                    !(HEADER_LEN <= b@.len() && #[trigger] header_wire(h) == b@.subrange(0, 64)) by {
                    if header_wire(h) == b@.subrange(0, 64) {
                        assert(header_wire(h)[3] == h.msg_type.spec_code());
                    }
                }
            }
            None
        },
        Some(msg_type) => {
            let h = Header {
                magic: read_u16(b, 0),
                version: b[2],
                msg_type,
                ttl: b[4],
                flags: b[5],
                msg_id: read_u64(b, 6),
                src_id: read_array8(b, 14),
                dest_id: read_array8(b, 22),
                sender_pubkey: read_array32(b, 30),
                payload_len: read_u16(b, 62),
            };
            assert(header_wire(h) =~= b@.subrange(0, 64));
            Some(h)
        },
    }
}

proof fn lemma_frame_wire_parts(f: Frame, b: Seq<u8>)
    requires
        frame_wire(f) == b,
    ensures
        header_wire(f.header).len() == 64,
        64 <= b.len(),
        b.subrange(0, 64) == header_wire(f.header),
        64 + prefixed(f.payload@).len() <= b.len(),
        b.subrange(64, 64 + prefixed(f.payload@).len() as int) == prefixed(f.payload@),
        b.len() == 64 + prefixed(f.payload@).len() + prefixed(f.signature@).len(),
        b.subrange(64 + prefixed(f.payload@).len() as int, b.len() as int) == prefixed(f.signature@),
{
    let h = header_wire(f.header);
    let p = prefixed(f.payload@);
    let s = prefixed(f.signature@);
    assert(b.subrange(0, 64) =~= h);
    assert(b.subrange(64, 64 + p.len() as int) =~= p);
    assert(b.subrange(64 + p.len() as int, b.len() as int) =~= s);
}

impl Frame {
    /// Structural check: magic, declared payload length, and a live hop count.
    pub fn is_valid_structure(&self) -> (r: bool)
        ensures
            r == spec_valid_structure(self.header, self.payload@.len()),
    {
        if self.header.magic != MAGIC_BYTES {
            return false;
        }
        if self.header.payload_len as usize != self.payload.len() {
            return false;
        }
        if self.header.ttl == 0 {
            return false;
        }
        true
    }

    /// Takes one hop off the frame. Succeeds only when the frame may still travel
    /// afterwards, that is when the hop count was at least 2; otherwise the frame
    /// is left as it was.
    pub fn decrement_ttl(&mut self) -> (r: bool)
        ensures
            r == (old(self).header.ttl >= 2),
            r ==> final(self).header == (Header { ttl: (old(self).header.ttl - 1) as u8, ..old(self).header }),
            !r ==> final(self).header == old(self).header,
            final(self).payload == old(self).payload,
            final(self).signature == old(self).signature,
    {
        if self.header.ttl >= 2 {
            self.header.ttl = self.header.ttl - 1;
            true
        } else {
            false
        }
    }

    /// The frame's wire bytes.
    pub fn encode(&self) -> (r: Vec<u8>)
        ensures
            r@ == frame_wire(*self),
    {
        let mut out = encode_header(&self.header);
        push_prefixed(&mut out, self.payload.as_slice());
        push_prefixed(&mut out, self.signature.as_slice());
        proof {
            assert(out@ =~= frame_wire(*self));
        }
        out
    }

    /// Parses a whole datagram as a frame. Succeeds exactly on the encodings of frames.
    pub fn decode(b: &[u8]) -> (r: Option<Frame>)
        ensures
            match r {
                Some(f) => frame_wire(f) == b@,
                None => forall|f: Frame| #[trigger] frame_wire(f) != b@,
            },
    {
        let oh = decode_header(b);
        let header = match oh {
            None => {
                proof {
                    assert forall|f: Frame| #[trigger] frame_wire(f) != b@ by {
                        if frame_wire(f) == b@ {
                            lemma_frame_wire_parts(f, b@);
                        }
                    }
                }
                return None;
            },
            Some(h) => h,
        };
        let op = read_prefixed(b, HEADER_LEN);
        let (payload, next) = match op {
            None => {
                proof {
                    assert forall|f: Frame| #[trigger] frame_wire(f) != b@ by {
                        if frame_wire(f) == b@ {
                            lemma_frame_wire_parts(f, b@);
                        }
                    }
                }
                return None;
            },
            Some(pn) => pn,
        };
        let os = read_prefixed(b, next);
        let (signature, end) = match os {
            None => {
                proof {
                    assert forall|f: Frame| #[trigger] frame_wire(f) != b@ by {
                        if frame_wire(f) == b@ {
                            lemma_frame_wire_parts(f, b@);
                            assert(f.payload@ == payload@);
                            assert(b@.subrange(next as int, (next + prefixed(f.signature@).len()) as int) == prefixed(f.signature@));
                        }
                    }
                }
                return None;
            },
            Some(sn) => sn,
        };
        if end != b.len() {
            proof {
                assert forall|f: Frame| #[trigger] frame_wire(f) != b@ by {
                    if frame_wire(f) == b@ {
                        lemma_frame_wire_parts(f, b@);
                        assert(f.payload@ == payload@);
                        assert(b@.subrange(next as int, (next + prefixed(f.signature@).len()) as int) == prefixed(f.signature@));
                        assert(f.signature@ == signature@);
                    }
                }
            }
            return None;
        }
        let f = Frame { header, payload, signature };
        proof {
            assert(b@ =~= b@.subrange(0, 64) + b@.subrange(64, next as int) + b@.subrange(
                next as int,
                end as int,
            ));
        }
        Some(f)
    }

    /// The bytes covered by the signature.
    pub fn signing_bytes(&self) -> (r: Vec<u8>)
        ensures
            r@ == signing_bytes_of(*self),
    {
        let canonical = Header { ttl: 0, flags: 0, ..self.header };
        let mut out = encode_header(&canonical);
        push_all(&mut out, self.payload.as_slice());
        out
    }
}

} // verus!
