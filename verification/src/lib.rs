//! A Chord-style peer ring: identifiers on a 160-bit circle, a bounded
//! successor list, a predecessor slot, and the stabilization rounds that
//! keep them right while peers come and go. Beside the ring stand the
//! decisions of two services that run on top of it: the shaping of circuit
//! inputs and outputs for recursive proofs, and the handling of tunnels to
//! local TCP services.

pub mod did;
pub mod ring;
pub mod theorems;
pub mod stabilize;
pub mod snapshot;
pub mod storage;
pub mod circuit;
pub mod tunnel;
