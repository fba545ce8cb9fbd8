use vstd::prelude::*;
use chacha20poly1305::aead::{Aead, KeyInit, OsRng};
use chacha20poly1305::{XChaCha20Poly1305, XNonce};
use rand::RngCore;
use vstd::slice::slice_subrange;
use crate::wire::push_all;

verus! {

/// The pre-shared secret under which every payload of the mesh is sealed.
pub const NETWORK_KEY: [u8; 32] = [
    0x45, 0x4d, 0x42, 0x45, 0x52, 0x5f, 0x4d, 0x45, 0x53, 0x48, 0x5f, 0x53, 0x45, 0x43, 0x52, 0x45,
    0x54, 0x5f, 0x4b, 0x45, 0x59, 0x5f, 0x76, 0x31, 0x5f, 0x32, 0x30, 0x32, 0x34, 0x5f, 0x4f, 0x4b,
];

/// Length of the random nonce that leads an encrypted payload.
pub const NONCE_LEN: usize = 24;

/// Largest plaintext accepted for sealing.
pub const MAX_PLAINTEXT: usize = 0xFFFF_FFFF;

/// Ciphertext and tag that XChaCha20-Poly1305 produces for a key, nonce and plaintext.
pub uninterp spec fn aead_seal(key: Seq<u8>, nonce: Seq<u8>, plain: Seq<u8>) -> Seq<u8>;

/// What XChaCha20-Poly1305 decryption gives for a key, nonce and ciphertext with tag:
/// the plaintext, or nothing when authentication fails.
pub uninterp spec fn aead_open(key: Seq<u8>, nonce: Seq<u8>, sealed: Seq<u8>) -> Option<Seq<u8>>;

/// The plaintext of a payload in wire form `nonce || ciphertext+tag`, if it opens
/// under the network key.
pub open spec fn open_wire(wire: Seq<u8>) -> Option<Seq<u8>> {
    if wire.len() < NONCE_LEN {
        None
    } else {
        aead_open(NETWORK_KEY@, wire.subrange(0, NONCE_LEN as int), wire.subrange(NONCE_LEN as int, wire.len() as int))
    }
}

pub open spec fn opt_bytes(r: Option<Vec<u8>>) -> Option<Seq<u8>> {
    match r {
        Some(v) => Some(v@),
        None => None,
    }
}

/// Relies on rand's `OsRng::fill_bytes`: 24 bytes from the operating system's
/// random source. Nothing is known of their value.
#[verifier::external_body]
fn random_nonce() -> (r: [u8; 24]) {
    let mut nonce = [0u8; 24];
    OsRng.fill_bytes(&mut nonce);
    nonce
}

/// Relies on `XChaCha20Poly1305::encrypt` (chacha20poly1305): it fails only for
/// a plaintext of 2^32 - 1 blocks or more; its output is the ciphertext, as long
/// as the plaintext, followed by a 16-byte tag, and opens again under the same key
/// and nonce to the plaintext.
#[verifier::external_body]
fn seal(key: &[u8; 32], nonce: &[u8; 24], plain: &[u8]) -> (r: Vec<u8>)
    requires
        plain@.len() <= MAX_PLAINTEXT,
    ensures
        r@ == aead_seal(key@, nonce@, plain@),
        r@.len() == plain@.len() + 16,
        aead_open(key@, nonce@, r@) == Some(plain@),
{
    let cipher = XChaCha20Poly1305::new(key.into());
    cipher.encrypt(XNonce::from_slice(nonce), plain).unwrap()
}

/// Relies on `XChaCha20Poly1305::decrypt` (chacha20poly1305): the plaintext when
/// the tag authenticates, an error otherwise.
#[verifier::external_body]
fn open(key: &[u8; 32], nonce: &[u8; 24], sealed: &[u8]) -> (r: Option<Vec<u8>>)
    ensures
        opt_bytes(r) == aead_open(key@, nonce@, sealed@),
{
    let cipher = XChaCha20Poly1305::new(key.into());
    cipher.decrypt(XNonce::from_slice(nonce), sealed).ok()
}

/// Seals `plaintext` under the network key with a fresh random nonce and returns
/// `nonce || ciphertext+tag`.
pub fn encrypt(plaintext: &[u8]) -> (r: Vec<u8>)
    requires
        plaintext@.len() <= MAX_PLAINTEXT,
    ensures
        r@.len() == plaintext@.len() + NONCE_LEN + 16,
        r@.subrange(NONCE_LEN as int, r@.len() as int) == aead_seal(
            NETWORK_KEY@,
            r@.subrange(0, NONCE_LEN as int),
            plaintext@,
        ),
        open_wire(r@) == Some(plaintext@),
{
    let key = NETWORK_KEY;
    let nonce = random_nonce();
    let sealed = seal(&key, &nonce, plaintext);
    let mut packet: Vec<u8> = Vec::new();
    push_all(&mut packet, nonce.as_slice());
    push_all(&mut packet, sealed.as_slice());
    proof {
        assert(packet@.subrange(0, 24) =~= nonce@);
        assert(packet@.subrange(24, packet@.len() as int) =~= sealed@);
    }
    packet
}

/// Opens a payload in wire form; `None` when it is shorter than a nonce or does
/// not authenticate under the network key.
pub fn decrypt(data: &[u8]) -> (r: Option<Vec<u8>>)
    ensures
        opt_bytes(r) == open_wire(data@),
{
    if data.len() < NONCE_LEN {
        return None;
    }
    let mut nonce = [0u8; 24];
    let mut i: usize = 0;
    while i < NONCE_LEN
        invariant
            i <= NONCE_LEN,
            NONCE_LEN <= data@.len(),
            forall|j: int| 0 <= j < i ==> nonce@[j] == data@[j],
        decreases NONCE_LEN - i,
    {
        nonce[i] = data[i];
        i = i + 1;
    }
    assert(nonce@ =~= data@.subrange(0, 24));
    let key = NETWORK_KEY;
    open(&key, &nonce, slice_subrange(data, NONCE_LEN, data.len()))
}

} // verus!
