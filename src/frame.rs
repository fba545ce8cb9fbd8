use vstd::prelude::*;
use crate::identity::{ed25519_accepts, verify, Identity};
use crate::send::random_u64;
use crate::wire::{push_all, push_u64, u64_le};

verus! {

/// A payload signed together with its sender id and a random message id.
pub struct SignedFrame {
    pub src_id: [u8; 8],
    pub msg_id: u64,
    pub payload: Vec<u8>,
    pub signature: Vec<u8>,
    pub pubkey: Vec<u8>,
}

/// The bytes a `SignedFrame` signature covers.
pub open spec fn signed_data(src_id: Seq<u8>, msg_id: u64, payload: Seq<u8>) -> Seq<u8> {
    src_id + u64_le(msg_id) + payload
}

fn signed_bytes(src_id: &[u8; 8], msg_id: u64, payload: &[u8]) -> (r: Vec<u8>)
    ensures
        r@ == signed_data(src_id@, msg_id, payload@),
{
    let mut data: Vec<u8> = Vec::new();
    push_all(&mut data, src_id.as_slice());
    push_u64(&mut data, msg_id);
    push_all(&mut data, payload);
    data
}

impl SignedFrame {
    /// Signs `payload` as sent by `src_id` under a fresh random message id.
    pub fn sign(src_id: [u8; 8], payload: Vec<u8>, signing: &Identity) -> (r: Self)
        requires
            signing.wf(),
        ensures
            r.src_id == src_id,
            r.payload@ == payload@,
            r.pubkey@ == signing.public@,
            r.signature@.len() == 64,
            ed25519_accepts(r.pubkey@, signed_data(src_id@, r.msg_id, payload@), r.signature@),
    {
        let msg_id = random_u64();
        let data = signed_bytes(&src_id, msg_id, payload.as_slice());
        let signature = signing.sign(data.as_slice());
        let mut pubkey: Vec<u8> = Vec::new();
        push_all(&mut pubkey, signing.public.as_slice());
        SignedFrame { src_id, msg_id, payload, signature, pubkey }
    }

    /// Whether the signature is 64 bytes, the key 32, and Ed25519 accepts it.
    pub fn verify(&self) -> (r: bool)
        ensures
            r == (self.signature@.len() == 64 && self.pubkey@.len() == 32 && ed25519_accepts(
                self.pubkey@,
                signed_data(self.src_id@, self.msg_id, self.payload@),
                self.signature@,
            )),
    {
        if self.signature.len() != 64 || self.pubkey.len() != 32 {
            return false;
        }
        let mut key = [0u8; 32];
        let mut i: usize = 0;
        while i < 32
            invariant
                i <= 32,
                self.pubkey@.len() == 32,
                forall|j: int| 0 <= j < i ==> key@[j] == self.pubkey@[j],
            decreases 32 - i,
        {
            key[i] = self.pubkey[i];
            i = i + 1;
        }
        assert(key@ =~= self.pubkey@);
        let data = signed_bytes(&self.src_id, self.msg_id, self.payload.as_slice());
        verify(&key, data.as_slice(), self.signature.as_slice())
    }
}

} // verus!
