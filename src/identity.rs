use vstd::prelude::*;
use ed25519_dalek::{Signature, Signer, SigningKey, Verifier, VerifyingKey};
use crate::wire::push_all;

verus! {

/// The Ed25519 public key of a 32-byte secret key.
pub uninterp spec fn ed25519_public(secret: Seq<u8>) -> Seq<u8>;

/// The Ed25519 signature of `msg` under a 32-byte secret key.
pub uninterp spec fn ed25519_signature(secret: Seq<u8>, msg: Seq<u8>) -> Seq<u8>;

/// Whether Ed25519 verification accepts `sig` on `msg` for the public key `public`.
pub uninterp spec fn ed25519_accepts(public: Seq<u8>, msg: Seq<u8>, sig: Seq<u8>) -> bool;

/// Relies on ed25519-dalek's `SigningKey::from_bytes(..).verifying_key()`: the
/// public key that belongs to the secret key.
#[verifier::external_body]
fn derive_public(secret: &[u8; 32]) -> (r: [u8; 32])
    ensures
        r@ == ed25519_public(secret@),
{
    SigningKey::from_bytes(secret).verifying_key().to_bytes()
}

/// Relies on ed25519-dalek's `SigningKey::sign`: deterministic Ed25519, whose
/// signatures verify under the matching public key.
#[verifier::external_body]
fn sign_raw(secret: &[u8; 32], msg: &[u8]) -> (r: [u8; 64])
    ensures
        r@ == ed25519_signature(secret@, msg@),
        ed25519_accepts(ed25519_public(secret@), msg@, r@),
{
    SigningKey::from_bytes(secret).sign(msg).to_bytes()
}

/// Relies on ed25519-dalek's `VerifyingKey::verify`; a public key that is not a
/// valid curve point (`VerifyingKey::from_bytes` fails) accepts nothing.
#[verifier::external_body]
fn verify_raw(public: &[u8; 32], msg: &[u8], sig: &[u8; 64]) -> (r: bool)
    ensures
        r == ed25519_accepts(public@, msg@, sig@),
{
    match VerifyingKey::from_bytes(public) {
        Ok(key) => key.verify(msg, &Signature::from_bytes(sig)).is_ok(),
        Err(_) => false,
    }
}

/// A node's long-term signing identity.
#[derive(Clone, Copy, Debug)]
pub struct Identity {
    pub secret: [u8; 32],
    pub public: [u8; 32],
}

impl Identity {
    pub open spec fn wf(&self) -> bool {
        self.public@ == ed25519_public(self.secret@)
    }

    /// The identity of a secret key.
    pub fn from_secret(secret: [u8; 32]) -> (r: Identity)
        ensures
            r.wf(),
            r.secret == secret,
    {
        let public = derive_public(&secret);
        Identity { secret, public }
    }

    /// The node id: the first 8 bytes of the public key.
    pub fn node_id(&self) -> (r: [u8; 8])
        ensures
            r@ == self.public@.subrange(0, 8),
    {
        let mut id = [0u8; 8];
        let mut i: usize = 0;
        while i < 8
            invariant
                i <= 8,
                forall|j: int| 0 <= j < i ==> id@[j] == self.public@[j],
            decreases 8 - i,
        {
            id[i] = self.public[i];
            i = i + 1;
        }
        assert(id@ =~= self.public@.subrange(0, 8));
        id
    }

    /// Signs `msg`; the signature verifies under this identity's public key.
    pub fn sign(&self, msg: &[u8]) -> (r: Vec<u8>)
        requires
            self.wf(),
        ensures
            r@ == ed25519_signature(self.secret@, msg@),
            r@.len() == 64,
            ed25519_accepts(self.public@, msg@, r@),
    {
        let sig = sign_raw(&self.secret, msg);
        let mut out: Vec<u8> = Vec::new();
        push_all(&mut out, sig.as_slice());
        out
    }
}

/// Checks a signature: false unless it is 64 bytes long and Ed25519 accepts it.
pub fn verify(public: &[u8; 32], msg: &[u8], sig: &[u8]) -> (r: bool)
    ensures
        r == (sig@.len() == 64 && ed25519_accepts(public@, msg@, sig@)),
{
    if sig.len() != 64 {
        return false;
    }
    let mut s = [0u8; 64];
    let mut i: usize = 0;
    while i < 64
        invariant
            i <= 64,
            sig@.len() == 64,
            forall|j: int| 0 <= j < i ==> s@[j] == sig@[j],
        decreases 64 - i,
    {
        s[i] = sig[i];
        i = i + 1;
    }
    assert(s@ =~= sig@);
    verify_raw(public, msg, &s)
}

} // verus!
