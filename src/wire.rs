use vstd::prelude::*;
use vstd::slice::slice_subrange;
use vstd::slice::slice_to_vec;

verus! {

/// Little-endian bytes of a 16-bit integer.
pub open spec fn u16_le(x: u16) -> Seq<u8> {
    seq![(x & 0xff) as u8, ((x >> 8u16) & 0xff) as u8]
}

/// Little-endian bytes of a 32-bit integer.
pub open spec fn u32_le(x: u32) -> Seq<u8> {
    seq![
        (x & 0xff) as u8,
        ((x >> 8u32) & 0xff) as u8,
        ((x >> 16u32) & 0xff) as u8,
        ((x >> 24u32) & 0xff) as u8,
    ]
}

/// Little-endian bytes of a 64-bit integer.
pub open spec fn u64_le(x: u64) -> Seq<u8> {
    seq![
        (x & 0xff) as u8,
        ((x >> 8u64) & 0xff) as u8,
        ((x >> 16u64) & 0xff) as u8,
        ((x >> 24u64) & 0xff) as u8,
        ((x >> 32u64) & 0xff) as u8,
        ((x >> 40u64) & 0xff) as u8,
        ((x >> 48u64) & 0xff) as u8,
        ((x >> 56u64) & 0xff) as u8,
    ]
}

/// A byte string preceded by its length as a 64-bit little-endian integer.
pub open spec fn prefixed(b: Seq<u8>) -> Seq<u8> {
    u64_le(b.len() as u64) + b
}

proof fn lemma_u16_bytes(b0: u8, b1: u8) by (bit_vector)
    ensures
        ({
            let x = (b0 as u16) | ((b1 as u16) << 8u16);
            (x & 0xff) as u8 == b0 && ((x >> 8u16) & 0xff) as u8 == b1
        }),
{
}

proof fn lemma_u32_bytes(b0: u8, b1: u8, b2: u8, b3: u8) by (bit_vector)
    ensures
        ({
            let x = (b0 as u32) | ((b1 as u32) << 8u32) | ((b2 as u32) << 16u32) | ((b3 as u32)
                << 24u32);
            (x & 0xff) as u8 == b0 && ((x >> 8u32) & 0xff) as u8 == b1 && ((x >> 16u32) & 0xff) as u8
                == b2 && ((x >> 24u32) & 0xff) as u8 == b3
        }),
{
}

proof fn lemma_u64_bytes(b0: u8, b1: u8, b2: u8, b3: u8, b4: u8, b5: u8, b6: u8, b7: u8) by (bit_vector)
    ensures
        ({
            let x = (b0 as u64) | ((b1 as u64) << 8u64) | ((b2 as u64) << 16u64) | ((b3 as u64)
                << 24u64) | ((b4 as u64) << 32u64) | ((b5 as u64) << 40u64) | ((b6 as u64)
                << 48u64) | ((b7 as u64) << 56u64);
            (x & 0xff) as u8 == b0 && ((x >> 8u64) & 0xff) as u8 == b1 && ((x >> 16u64) & 0xff) as u8
                == b2 && ((x >> 24u64) & 0xff) as u8 == b3 && ((x >> 32u64) & 0xff) as u8 == b4
                && ((x >> 40u64) & 0xff) as u8 == b5 && ((x >> 48u64) & 0xff) as u8 == b6 && ((x
                >> 56u64) & 0xff) as u8 == b7
        }),
{
}

/// Appends the bytes of `src` to `out`.
pub fn push_all(out: &mut Vec<u8>, src: &[u8])
    ensures
        final(out)@ == old(out)@ + src@,
{
    let mut i: usize = 0;
    while i < src.len()
        invariant
            i <= src@.len(),
            out@ == old(out)@ + src@.subrange(0, i as int),
        decreases src@.len() - i,
    {
        out.push(src[i]);
        i = i + 1;
        proof {
            assert(src@.subrange(0, i as int) == src@.subrange(0, i - 1) + seq![src@[i - 1]]);
        }
    }
    proof {
        assert(src@.subrange(0, src@.len() as int) == src@);
    }
}

pub fn push_u16(out: &mut Vec<u8>, x: u16)
    ensures
        final(out)@ == old(out)@ + u16_le(x),
{
    out.push((x & 0xff) as u8);
    out.push(((x >> 8u16) & 0xff) as u8);
    proof {
        assert(final(out)@ =~= old(out)@ + u16_le(x));
    }
}

pub fn push_u32(out: &mut Vec<u8>, x: u32)
    ensures
        final(out)@ == old(out)@ + u32_le(x),
{
    out.push((x & 0xff) as u8);
    out.push(((x >> 8u32) & 0xff) as u8);
    out.push(((x >> 16u32) & 0xff) as u8);
    out.push(((x >> 24u32) & 0xff) as u8);
    proof {
        assert(final(out)@ =~= old(out)@ + u32_le(x));
    }
}

pub fn push_u64(out: &mut Vec<u8>, x: u64)
    ensures
        final(out)@ == old(out)@ + u64_le(x),
{
    out.push((x & 0xff) as u8);
    out.push(((x >> 8u64) & 0xff) as u8);
    out.push(((x >> 16u64) & 0xff) as u8);
    out.push(((x >> 24u64) & 0xff) as u8);
    out.push(((x >> 32u64) & 0xff) as u8);
    out.push(((x >> 40u64) & 0xff) as u8);
    out.push(((x >> 48u64) & 0xff) as u8);
    out.push(((x >> 56u64) & 0xff) as u8);
    proof {
        assert(final(out)@ =~= old(out)@ + u64_le(x));
    }
}

/// Appends `src` preceded by its 64-bit length.
pub fn push_prefixed(out: &mut Vec<u8>, src: &[u8])
    ensures
        final(out)@ == old(out)@ + prefixed(src@),
{
    push_u64(out, src.len() as u64);
    push_all(out, src);
    proof {
        assert(final(out)@ =~= old(out)@ + prefixed(src@));
    }
}

pub fn read_u16(b: &[u8], at: usize) -> (r: u16)
    requires
        at + 2 <= b@.len(),
    ensures
        u16_le(r) == b@.subrange(at as int, at + 2),
{
    let b0 = b[at];
    let b1 = b[at + 1];
    proof {
        lemma_u16_bytes(b0, b1);
    }
    let r = (b0 as u16) | ((b1 as u16) << 8u16);
    assert(u16_le(r) =~= b@.subrange(at as int, at + 2));
    r
}

pub fn read_u32(b: &[u8], at: usize) -> (r: u32)
    requires
        at + 4 <= b@.len(),
    ensures
        u32_le(r) == b@.subrange(at as int, at + 4),
{
    let b0 = b[at];
    let b1 = b[at + 1];
    let b2 = b[at + 2];
    let b3 = b[at + 3];
    proof {
        lemma_u32_bytes(b0, b1, b2, b3);
    }
    let r = (b0 as u32) | ((b1 as u32) << 8u32) | ((b2 as u32) << 16u32) | ((b3 as u32) << 24u32);
    assert(u32_le(r) =~= b@.subrange(at as int, at + 4));
    r
}

pub fn read_u64(b: &[u8], at: usize) -> (r: u64)
    requires
        at + 8 <= b@.len(),
    ensures
        u64_le(r) == b@.subrange(at as int, at + 8),
{
    let b0 = b[at];
    let b1 = b[at + 1];
    let b2 = b[at + 2];
    let b3 = b[at + 3];
    let b4 = b[at + 4];
    let b5 = b[at + 5];
    let b6 = b[at + 6];
    let b7 = b[at + 7];
    proof {
        lemma_u64_bytes(b0, b1, b2, b3, b4, b5, b6, b7);
    }
    let r = (b0 as u64) | ((b1 as u64) << 8u64) | ((b2 as u64) << 16u64) | ((b3 as u64) << 24u64)
        | ((b4 as u64) << 32u64) | ((b5 as u64) << 40u64) | ((b6 as u64) << 48u64) | ((b7 as u64)
        << 56u64);
    assert(u64_le(r) =~= b@.subrange(at as int, at + 8));
    r
}

/// Reads a length-prefixed byte string at `at`; `None` when the bytes run out.
pub fn read_prefixed(b: &[u8], at: usize) -> (r: Option<(Vec<u8>, usize)>)
    ensures
        match r {
            Some((v, next)) => at <= next <= b@.len() && b@.subrange(at as int, next as int)
                == prefixed(v@) && next == at + prefixed(v@).len() && forall|w: Seq<u8>|
                at + prefixed(w).len() <= b@.len() && #[trigger] prefixed(w) == b@.subrange(
                    at as int,
                    at + prefixed(w).len(),
                ) ==> w == v@,
            None => !(exists|v: Seq<u8>|
                at + prefixed(v).len() <= b@.len() && #[trigger] prefixed(v) == b@.subrange(
                    at as int,
                    at + prefixed(v).len(),
                )),
        },
{
    if at > b.len() || b.len() - at < 8 {
        proof {
            assert forall|v: Seq<u8>|
                !(at + prefixed(v).len() <= b@.len() && #[trigger] prefixed(v) == b@.subrange(
                    at as int,
                    at + prefixed(v).len(),
                )) by {}
        }
        return None;
    }
    let n = read_u64(b, at);
    let start = at + 8;
    if n > (b.len() - start) as u64 {
        proof {
            assert forall|v: Seq<u8>|
                !(at + prefixed(v).len() <= b@.len() && #[trigger] prefixed(v) == b@.subrange(
                    at as int,
                    at + prefixed(v).len(),
                )) by {
                if at + prefixed(v).len() <= b@.len() && prefixed(v) == b@.subrange(
                    at as int,
                    at + prefixed(v).len(),
                ) {
                    assert(prefixed(v).subrange(0, 8) == u64_le(v.len() as u64));
                    assert(b@.subrange(at as int, at + 8) == prefixed(v).subrange(0, 8));
                    lemma_u64_le_injective(n, v.len() as u64);
                }
            }
        }
        return None;
    }
    let end = start + n as usize;
    let v = slice_to_vec(slice_subrange(b, start, end));
    proof {
        assert(b@.subrange(at as int, end as int) =~= prefixed(v@));
        assert forall|w: Seq<u8>|
            at + prefixed(w).len() <= b@.len() && #[trigger] prefixed(w) == b@.subrange(
                at as int,
                at + prefixed(w).len(),
            ) implies w == v@ by {
            assert(prefixed(w).subrange(0, 8) == u64_le(w.len() as u64));
            assert(b@.subrange(at as int, at + 8) == prefixed(w).subrange(0, 8));
            lemma_u64_le_injective(n, w.len() as u64);
            assert(w.len() == n);
            assert(w =~= prefixed(w).subrange(8, prefixed(w).len() as int));
            assert(w =~= b@.subrange(start as int, end as int));
        }
    }
    Some((v, end))
}

pub proof fn lemma_u64_le_injective(x: u64, y: u64)
    requires
        u64_le(x) == u64_le(y),
    ensures
        x == y,
{
    lemma_u64_round(x);
    lemma_u64_round(y);
}

pub proof fn lemma_u16_le_injective(x: u16, y: u16)
    requires
        u16_le(x) == u16_le(y),
    ensures
        x == y,
{
    assert(x == ((x & 0xff) as u8 as u16) | ((((x >> 8u16) & 0xff) as u8 as u16) << 8u16)) by (bit_vector);
    assert(y == ((y & 0xff) as u8 as u16) | ((((y >> 8u16) & 0xff) as u8 as u16) << 8u16)) by (bit_vector);
    assert(u16_le(x)[0] == u16_le(y)[0]);
    assert(u16_le(x)[1] == u16_le(y)[1]);
}

pub proof fn lemma_u32_le_injective(x: u32, y: u32)
    requires
        u32_le(x) == u32_le(y),
    ensures
        x == y,
{
    lemma_u32_round(x);
    lemma_u32_round(y);
}

proof fn lemma_u32_round(x: u32)
    ensures
        x == (u32_le(x)[0] as u32) | ((u32_le(x)[1] as u32) << 8u32) | ((u32_le(x)[2] as u32)
            << 16u32) | ((u32_le(x)[3] as u32) << 24u32),
{
    assert(x == ((x & 0xff) as u8 as u32) | ((((x >> 8u32) & 0xff) as u8 as u32) << 8u32) | ((((x
        >> 16u32) & 0xff) as u8 as u32) << 16u32) | ((((x >> 24u32) & 0xff) as u8 as u32) << 24u32)) by (bit_vector);
}

/// The eight little-endian bytes of `x` as an array.
pub fn le_array(x: u64) -> (r: [u8; 8])
    ensures
        r@ == u64_le(x),
{
    let r = [
        (x & 0xff) as u8,
        ((x >> 8u64) & 0xff) as u8,
        ((x >> 16u64) & 0xff) as u8,
        ((x >> 24u64) & 0xff) as u8,
        ((x >> 32u64) & 0xff) as u8,
        ((x >> 40u64) & 0xff) as u8,
        ((x >> 48u64) & 0xff) as u8,
        ((x >> 56u64) & 0xff) as u8,
    ];
    assert(r@ =~= u64_le(x));
    r
}

proof fn lemma_u64_round(x: u64)
    ensures
        x == (u64_le(x)[0] as u64) | ((u64_le(x)[1] as u64) << 8u64) | ((u64_le(x)[2] as u64)
            << 16u64) | ((u64_le(x)[3] as u64) << 24u64) | ((u64_le(x)[4] as u64) << 32u64) | ((
        u64_le(x)[5] as u64) << 40u64) | ((u64_le(x)[6] as u64) << 48u64) | ((u64_le(x)[7] as u64)
            << 56u64),
{
    let s = u64_le(x);
    assert(x == ((x & 0xff) as u8 as u64) | ((((x >> 8u64) & 0xff) as u8 as u64) << 8u64) | ((((x
        >> 16u64) & 0xff) as u8 as u64) << 16u64) | ((((x >> 24u64) & 0xff) as u8 as u64) << 24u64)
        | ((((x >> 32u64) & 0xff) as u8 as u64) << 32u64) | ((((x >> 40u64) & 0xff) as u8 as u64)
        << 40u64) | ((((x >> 48u64) & 0xff) as u8 as u64) << 48u64) | ((((x >> 56u64) & 0xff) as u8
        as u64) << 56u64)) by (bit_vector);
}

/// Compares two 8-byte identifiers.
pub fn same_id(a: &[u8; 8], b: &[u8; 8]) -> (r: bool)
    ensures
        r == (a@ == b@),
{
    let mut i: usize = 0;
    while i < 8
        invariant
            i <= 8,
            forall|j: int| 0 <= j < i ==> a@[j] == b@[j],
        decreases 8 - i,
    {
        if a[i] != b[i] {
            return false;
        }
        i = i + 1;
    }
    assert(a@ =~= b@);
    true
}

} // verus!
