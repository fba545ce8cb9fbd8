use vstd::prelude::*;
use crate::neighbors::{AddrView, PeerAddr};
use crate::wire::{lemma_u16_le_injective, push_u64, read_u16, read_u32, read_u64, u16_le, u32_le, u64_le};

verus! {

/// One address of a peer list on the wire: a 32-bit variant tag (0 for IPv4,
/// 1 for IPv6), the address bytes in network order, and the port.
pub open spec fn addr_wire(a: PeerAddr) -> Seq<u8> {
    if a.is_v6 {
        u32_le(1) + a.ip@ + u16_le(a.port)
    } else {
        u32_le(0) + a.ip@.subrange(0, 4) + u16_le(a.port)
    }
}

pub open spec fn addrs_wire(s: Seq<PeerAddr>) -> Seq<u8>
    decreases s.len(),
{
    if s.len() == 0 {
        Seq::empty()
    } else {
        addr_wire(s[0]) + addrs_wire(s.drop_first())
    }
}

/// The addresses as the contracts compare them.
pub open spec fn addr_views(s: Seq<PeerAddr>) -> Seq<AddrView> {
    s.map_values(|a: PeerAddr| a@)
}

pub open spec fn all_canonical(s: Seq<PeerAddr>) -> bool {
    forall|i: int| 0 <= i < s.len() ==> canonical_addr(#[trigger] s[i])
}

proof fn lemma_addrs_wire_append(s: Seq<PeerAddr>, t: Seq<PeerAddr>)
    ensures
        addrs_wire(s + t) == addrs_wire(s) + addrs_wire(t),
    decreases s.len(),
{
    if s.len() == 0 {
        assert(s + t =~= t);
        assert(addrs_wire(s) + addrs_wire(t) =~= addrs_wire(t));
    } else {
        lemma_addrs_wire_append(s.drop_first(), t);
        assert((s + t).drop_first() =~= s.drop_first() + t);
        assert((s + t)[0] == s[0]);
        assert(addrs_wire(s + t) =~= addrs_wire(s) + addrs_wire(t));
    }
}

proof fn lemma_addrs_wire_one(a: PeerAddr)
    ensures
        addrs_wire(seq![a]) == addr_wire(a),
{
    assert(seq![a].drop_first() =~= Seq::<PeerAddr>::empty());
    assert(addrs_wire(Seq::<PeerAddr>::empty()) == Seq::<u8>::empty());
    assert(addrs_wire(seq![a]) =~= addr_wire(a));
}

proof fn lemma_addrs_wire_len(s: Seq<PeerAddr>)
    ensures
        addrs_wire(s).len() >= s.len(),
    decreases s.len(),
{
    if s.len() > 0 {
        lemma_addrs_wire_len(s.drop_first());
    }
}

/// Where a candidate list `v` for the bytes `b` stands after `k` addresses.
pub open spec fn parsed_prefix(b: Seq<u8>, v: Seq<PeerAddr>, out: Seq<PeerAddr>, k: nat, pos: int) -> bool {
    &&& k <= v.len()
    &&& addr_views(out) == addr_views(v.subrange(0, k as int))
    &&& addrs_wire(v.subrange(0, k as int)) == b.subrange(8, pos)
}

/// A peer list: the number of addresses as a 64-bit integer, then each address.
pub open spec fn peer_list_wire(s: Seq<PeerAddr>) -> Seq<u8> {
    u64_le(s.len() as u64) + addrs_wire(s)
}

/// An IPv4 address is held with the bytes after its fourth zero.
pub open spec fn canonical_addr(a: PeerAddr) -> bool {
    !a.is_v6 ==> forall|i: int| 4 <= i < 16 ==> a.ip@[i] == 0
}

/// Parses a peer list that fills `b` exactly. It succeeds exactly when `b` is
/// the encoding of a list of canonical addresses, and then returns that list.
pub fn decode_peer_list(b: &[u8]) -> (r: Option<Vec<PeerAddr>>)
    ensures
        match r {
            Some(v) => {
                &&& peer_list_wire(v@) == b@
                &&& all_canonical(v@)
                &&& forall|w: Seq<PeerAddr>| all_canonical(w) && #[trigger] peer_list_wire(w) == b@ ==> addr_views(w) == addr_views(v@)
            },
            None => forall|w: Seq<PeerAddr>| all_canonical(w) ==> #[trigger] peer_list_wire(w) != b@,
        },
{
    if b.len() < 8 {
        proof {
            assert forall|w: Seq<PeerAddr>| all_canonical(w) implies #[trigger] peer_list_wire(w) != b@ by {
                assert(peer_list_wire(w).len() >= 8);
            }
        }
        return None;
    }
    let count = read_u64(b, 0);
    let mut out: Vec<PeerAddr> = Vec::new();
    let mut pos: usize = 8;
    let mut k: u64 = 0;
    let len = b.len();
    proof {
        assert forall|w: Seq<PeerAddr>| all_canonical(w) && #[trigger] peer_list_wire(w) == b@ implies w.len() == count by {
            assert(peer_list_wire(w).subrange(0, 8) =~= u64_le(w.len() as u64));
            lemma_addrs_wire_len(w);
            assert(w.len() <= b@.len());
            crate::wire::lemma_u64_le_injective(count, w.len() as u64);
        }
        assert forall|w: Seq<PeerAddr>| all_canonical(w) && #[trigger] peer_list_wire(w) == b@ implies parsed_prefix(b@, w, out@, 0, 8) by {
            assert(w.subrange(0, 0) =~= Seq::<PeerAddr>::empty());
            assert(addr_views(out@) =~= addr_views(w.subrange(0, 0)));
            assert(b@.subrange(8, 8) =~= Seq::<u8>::empty());
        }
    }
    while k < count
        invariant
            len == b@.len(),
            8 <= pos <= len,
            out@.len() == k,
            k <= count,
            u64_le(count) == b@.subrange(0, 8),
            addrs_wire(out@) == b@.subrange(8, pos as int),
            all_canonical(out@),
            forall|w: Seq<PeerAddr>| all_canonical(w) && #[trigger] peer_list_wire(w) == b@ ==> w.len() == count,
            forall|w: Seq<PeerAddr>| all_canonical(w) && #[trigger] peer_list_wire(w) == b@ ==> parsed_prefix(b@, w, out@, k as nat, pos as int),
        decreases count - k,
    {
        if len - pos < 4 {
            proof {
                assert forall|w: Seq<PeerAddr>| all_canonical(w) implies #[trigger] peer_list_wire(w) != b@ by {
                    if peer_list_wire(w) == b@ {
                        lemma_next_addr(b@, w, k as nat, pos as int);
                    }
                }
            }
            return None;
        }
        let tag = read_u32(b, pos);
        let width: usize = if tag == 0 {
            4
        } else if tag == 1 {
            16
        } else {
            proof {
                assert forall|w: Seq<PeerAddr>| all_canonical(w) implies #[trigger] peer_list_wire(w) != b@ by {
                    if peer_list_wire(w) == b@ {
                        lemma_next_addr(b@, w, k as nat, pos as int);
                        let a = w[k as int];
                        assert(addr_wire(a).subrange(0, 4) == u32_le(if a.is_v6 { 1u32 } else { 0u32 }));
                        assert(b@.subrange(pos as int, pos + 4) == addr_wire(a).subrange(0, 4));
                        crate::wire::lemma_u32_le_injective(tag, if a.is_v6 { 1u32 } else { 0u32 });
                    }
                }
            }
            return None;
        };
        if len - pos - 4 < width + 2 {
            proof {
                assert forall|w: Seq<PeerAddr>| all_canonical(w) implies #[trigger] peer_list_wire(w) != b@ by {
                    if peer_list_wire(w) == b@ {
                        lemma_next_addr(b@, w, k as nat, pos as int);
                        let a = w[k as int];
                        assert(addr_wire(a).subrange(0, 4) == u32_le(if a.is_v6 { 1u32 } else { 0u32 }));
                        assert(b@.subrange(pos as int, pos + 4) == addr_wire(a).subrange(0, 4));
                        crate::wire::lemma_u32_le_injective(tag, if a.is_v6 { 1u32 } else { 0u32 });
                    }
                }
            }
            return None;
        }
        let mut ip = [0u8; 16];
        let mut i: usize = 0;
        while i < width
            invariant
                width <= 16,
                pos + 4 + width + 2 <= len,
                len == b@.len(),
                i <= width,
                forall|j: int| 0 <= j < i ==> ip@[j] == b@[pos + 4 + j],
                forall|j: int| i <= j < 16 ==> ip@[j] == 0,
            decreases width - i,
        {
            ip[i] = b[pos + 4 + i];
            i = i + 1;
        }
        let port = read_u16(b, pos + 4 + width);
        let a = PeerAddr { is_v6: tag == 1, ip, port };
        let ghost before = out@;
        out.push(a);
        let next = pos + 4 + width + 2;
        proof {
            if tag == 1 {
                assert(ip@ =~= b@.subrange(pos + 4, pos + 20));
            } else {
                assert(ip@.subrange(0, 4) =~= b@.subrange(pos + 4, pos + 8));
            }
            assert(u32_le(tag) == b@.subrange(pos as int, pos + 4));
            assert(addr_wire(a) =~= b@.subrange(pos as int, next as int));
            assert(out@ =~= before + seq![a]);
            lemma_addrs_wire_append(before, seq![a]);
            lemma_addrs_wire_one(a);
            assert(b@.subrange(8, next as int) =~= b@.subrange(8, pos as int) + b@.subrange(pos as int, next as int));
            assert forall|w: Seq<PeerAddr>| all_canonical(w) && #[trigger] peer_list_wire(w) == b@ implies parsed_prefix(b@, w, out@, (k + 1) as nat, next as int) by {
                lemma_parse_step(b@, w, before, a, k as nat, pos as int, next as int, tag);
            }
        }
        pos = next;
        k = k + 1;
    }
    if pos != len {
        proof {
            assert forall|w: Seq<PeerAddr>| all_canonical(w) implies #[trigger] peer_list_wire(w) != b@ by {
                if peer_list_wire(w) == b@ {
                    assert(w.subrange(0, k as int) =~= w);
                    assert(peer_list_wire(w) =~= b@.subrange(0, 8) + b@.subrange(8, pos as int));
                }
            }
        }
        return None;
    }
    proof {
        assert(b@ =~= b@.subrange(0, 8) + b@.subrange(8, pos as int));
        assert forall|w: Seq<PeerAddr>| all_canonical(w) && #[trigger] peer_list_wire(w) == b@ implies addr_views(w) == addr_views(out@) by {
            assert(w.subrange(0, k as int) =~= w);
        }
    }
    Some(out)
}

proof fn lemma_parse_step(b: Seq<u8>, w: Seq<PeerAddr>, before: Seq<PeerAddr>, a: PeerAddr, k: nat, pos: int, next: int, tag: u32)
    requires
        all_canonical(w),
        peer_list_wire(w) == b,
        w.len() > k,
        parsed_prefix(b, w, before, k, pos),
        8 <= pos <= next <= b.len(),
        canonical_addr(a),
        a.is_v6 == (tag == 1),
        tag == 0 || tag == 1,
        u32_le(tag) == b.subrange(pos, pos + 4),
        addr_wire(a) == b.subrange(pos, next),
    ensures
        parsed_prefix(b, w, before.push(a), k + 1, next),
{
    lemma_next_addr(b, w, k, pos);
    let c = w[k as int];
    assert(canonical_addr(c));
    assert(addr_wire(c).subrange(0, 4) =~= u32_le(if c.is_v6 { 1u32 } else { 0u32 }));
    assert(b.subrange(pos, pos + 4) =~= addr_wire(c).subrange(0, 4));
    crate::wire::lemma_u32_le_injective(tag, if c.is_v6 { 1u32 } else { 0u32 });
    assert(addr_wire(c) =~= b.subrange(pos, next));
    lemma_addr_wire_injective(c, a);
    assert(w.subrange(0, k + 1 as int) =~= w.subrange(0, k as int) + seq![c]);
    lemma_addrs_wire_append(w.subrange(0, k as int), seq![c]);
    lemma_addrs_wire_one(c);
    assert(b.subrange(8, next) =~= b.subrange(8, pos) + b.subrange(pos, next));
    assert(addr_views(before.push(a)) =~= addr_views(before).push(a@));
    assert(addr_views(w.subrange(0, k + 1 as int)) =~= addr_views(w.subrange(0, k as int)).push(c@));
}

/// In a candidate list that encodes `b` and has been read up to address `k` at
/// `pos`, address `k` is encoded right at `pos`.
proof fn lemma_next_addr(b: Seq<u8>, w: Seq<PeerAddr>, k: nat, pos: int)
    requires
        peer_list_wire(w) == b,
        k < w.len(),
        addrs_wire(w.subrange(0, k as int)) == b.subrange(8, pos),
        8 <= pos <= b.len(),
    ensures
        pos + addr_wire(w[k as int]).len() <= b.len(),
        b.subrange(pos, pos + addr_wire(w[k as int]).len()) == addr_wire(w[k as int]),
{
    let pre = w.subrange(0, k as int);
    let rest = w.subrange(k as int, w.len() as int);
    assert(w =~= pre + rest);
    lemma_addrs_wire_append(pre, rest);
    assert(rest[0] == w[k as int]);
    let aw = addr_wire(w[k as int]);
    assert(addrs_wire(rest) == aw + addrs_wire(rest.drop_first()));
    assert(b == u64_le(w.len() as u64) + addrs_wire(pre) + addrs_wire(rest));
    assert(b.subrange(pos, pos + aw.len()) =~= aw);
}

/// Two canonical addresses with the same encoding are the same address.
proof fn lemma_addr_wire_injective(x: PeerAddr, y: PeerAddr)
    requires
        canonical_addr(x),
        canonical_addr(y),
        addr_wire(x) == addr_wire(y),
        x.is_v6 == y.is_v6,
    ensures
        x@ == y@,
{
    let n: int = if x.is_v6 { 16 } else { 4 };
    assert(addr_wire(x).subrange(4, 4 + n) == addr_wire(y).subrange(4, 4 + n));
    assert(addr_wire(x).subrange(4 + n, 6 + n) =~= u16_le(x.port));
    assert(addr_wire(y).subrange(4 + n, 6 + n) =~= u16_le(y.port));
    lemma_u16_le_injective(x.port, y.port);
    assert forall|i: int| 0 <= i < 16 implies x.ip@[i] == y.ip@[i] by {
        if i < n {
            assert(addr_wire(x)[4 + i] == x.ip@[i]);
            assert(addr_wire(y)[4 + i] == y.ip@[i]);
        }
    }
    assert(x.ip@ =~= y.ip@);
}

/// The payload of an acknowledgement: the acknowledged message id.
pub fn encode_ack(msg_id: u64) -> (r: Vec<u8>)
    ensures
        r@ == u64_le(msg_id),
{
    let mut out: Vec<u8> = Vec::new();
    push_u64(&mut out, msg_id);
    assert(out@ =~= u64_le(msg_id));
    out
}

/// Reads an acknowledgement payload: exactly eight bytes.
pub fn decode_ack(b: &[u8]) -> (r: Option<u64>)
    ensures
        r matches Some(n) ==> u64_le(n) == b@,
        r is None ==> b@.len() != 8,
{
    if b.len() != 8 {
        return None;
    }
    let n = read_u64(b, 0);
    assert(b@.subrange(0, 8) =~= b@);
    Some(n)
}

} // verus!
