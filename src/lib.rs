//! A node of an encrypted peer-to-peer mesh over datagrams: the frame codec,
//! payload encryption, signatures, replay suppression, neighbor liveness,
//! fragmentation and reassembly, and the per-frame engine that decides what to
//! report, acknowledge and forward.

use vstd::prelude::*;

pub mod chunker;
pub mod crypto;
pub mod frame;
pub mod identity;
pub mod neighbors;
pub mod node;
pub mod payload;
pub mod protocol;
pub mod rate_limiter;
pub mod replay_cache;
pub mod seen;
pub mod send;
pub mod wire;

verus! {

} // verus!
