//! The ring as bytes: how a node writes down what it knows, and how it
//! takes it up again when it starts.

use vstd::prelude::*;
use vstd::slice::slice_subrange;
use crate::did::{did_bytes, did_of_bytes, lemma_bytes_round_trip, Did, DID_BYTES};
use crate::ring::{PeerRing, RingView};
use crate::stabilize::merged;

verus! {

/// A list of identifiers as bytes: 20 for each, one after the other.
pub open spec fn encoded(ids: Seq<Did>) -> Seq<u8> {
    Seq::new(20 * ids.len(), |j: int| did_bytes(ids[j / 20])[j % 20])
}

/// The identifiers that bytes stand for, 20 bytes each; bytes left over at
/// the end stand for nothing.
pub open spec fn decoded(bytes: Seq<u8>) -> Seq<Did> {
    Seq::new(bytes.len() / 20, |i: int| did_of_bytes(bytes.subrange(20 * i, 20 * i + 20)))
}

/// A predecessor slot as a list of one identifier or none.
pub open spec fn slot_list(p: Option<Did>) -> Seq<Did> {
    match p {
        Some(d) => seq![d],
        None => Seq::empty(),
    }
}

/// What is written down of a ring: its successors and its predecessor.
#[derive(Clone, Debug, PartialEq, Eq)]
pub struct Snapshot {
    pub successors: Vec<u8>,
    pub predecessor: Vec<u8>,
}

/// Why a ring could not be taken up again.
#[derive(Clone, Copy, Debug, PartialEq, Eq, Structural)]
pub enum RestoreError {
    /// What was written down is not a whole number of identifiers, or holds
    /// more than one predecessor.
    Corrupt,
}

/// The bytes can be read: the successors are a whole number of identifiers,
/// the predecessor is one identifier or none.
pub open spec fn readable(successors: Seq<u8>, predecessor: Seq<u8>) -> bool {
    successors.len() % 20 == 0 && (predecessor.len() == 0 || predecessor.len() == 20)
}

/// The ring of node `did` that is built from what was written down: each
/// successor is offered in turn, then the predecessor announces itself.
pub open spec fn restored(
    did: Did,
    capacity: nat,
    successors: Seq<Did>,
    predecessor: Seq<Did>,
) -> RingView {
    let fresh = RingView { did, capacity, successors: Seq::empty(), predecessor: None };
    let filled = merged(fresh, successors);
    if predecessor.len() > 0 {
        filled.notified(predecessor[0])
    } else {
        filled
    }
}

/// Written down and read again, a list of identifiers is what it was.
pub proof fn lemma_decoded_encoded(ids: Seq<Did>)
    ensures
        encoded(ids).len() == 20 * ids.len(),
        decoded(encoded(ids)) == ids,
{
    let b = encoded(ids);
    assert(b.len() / 20 == ids.len());
    assert forall|i: int| 0 <= i < ids.len() implies decoded(b)[i] == ids[i] by {
        let chunk = b.subrange(20 * i, 20 * i + 20);
        lemma_bytes_round_trip(ids[i], chunk);
        assert forall|k: int| 0 <= k < 20 implies chunk[k] == did_bytes(ids[i])[k] by {
            assert((20 * i + k) / 20 == i);
            assert((20 * i + k) % 20 == k);
        }
        assert(chunk =~= did_bytes(ids[i]));
    }
    assert(decoded(b) =~= ids);
}

/// Writes a list of identifiers down.
pub fn encode(ids: &Vec<Did>) -> (r: Vec<u8>)
    ensures
        r@ == encoded(ids@),
{
    let mut out: Vec<u8> = Vec::new();
    let mut i: usize = 0;
    while i < ids.len()
        invariant
            0 <= i <= ids.len(),
            out@ == encoded(ids@.take(i as int)),
        decreases ids.len() - i,
    {
        let mut chunk = ids[i].to_bytes();
        let ghost before = out@;
        out.append(&mut chunk);
        proof {
            let now = encoded(ids@.take(i + 1));
            assert(out@.len() == now.len());
            assert forall|j: int| 0 <= j < now.len() implies out@[j] == now[j] by {
                if j < 20 * i {
                    assert(j / 20 < i);
                    assert(ids@.take(i as int)[j / 20] == ids@.take(i + 1)[j / 20]);
                } else {
                    assert(j / 20 == i);
                    assert(j % 20 == j - 20 * i);
                }
            }
            assert(out@ =~= now);
        }
        i += 1;
    }
    assert(ids@.take(i as int) =~= ids@);
    out
}

/// Reads a list of identifiers, if the bytes are a whole number of them.
pub fn decode(bytes: &[u8]) -> (r: Option<Vec<Did>>)
    ensures
        bytes@.len() % 20 == 0 ==> (r matches Some(ids) && ids@ == decoded(bytes@)),
        bytes@.len() % 20 != 0 ==> r is None,
{
    if bytes.len() % DID_BYTES != 0 {
        return None;
    }
    let total: usize = bytes.len();
    let count: usize = total / DID_BYTES;
    let mut out: Vec<Did> = Vec::new();
    let mut i: usize = 0;
    while i < count
        invariant
            0 <= i <= count,
            total == bytes@.len(),
            count == total / 20,
            total % 20 == 0,
            out@ == decoded(bytes@).take(i as int),
        decreases count - i,
    {
        assert(20 * i + 20 <= bytes@.len());
        let start: usize = 20 * i;
        let chunk = slice_subrange(bytes, start, start + 20);
        match Did::from_bytes(chunk) {
            Some(d) => {
                out.push(d);
            },
            None => {
                assert(false);
            },
        }
        assert(out@ =~= decoded(bytes@).take(i + 1));
        i += 1;
    }
    assert(decoded(bytes@).take(i as int) =~= decoded(bytes@));
    Some(out)
}

impl PeerRing {
    /// Writes down the successors and the predecessor.
    pub fn snapshot(&self) -> (r: Snapshot)
        ensures
            r.successors@ == encoded(self@.successors),
            r.predecessor@ == encoded(slot_list(self@.predecessor)),
            readable(r.successors@, r.predecessor@),
    {
        let list = self.successor_list();
        let mut slot: Vec<Did> = Vec::new();
        match self.predecessor() {
            Some(p) => {
                slot.push(p);
            },
            None => {},
        }
        assert(slot@ =~= slot_list(self@.predecessor));
        Snapshot { successors: encode(&list), predecessor: encode(&slot) }
    }

    /// Takes up the ring of node `did` from what was written down. Bytes
    /// that cannot be read are refused. What can be read goes through `join`
    /// and `notify`, so that the ring is sound whatever the bytes hold.
    pub fn from_snapshot(did: Did, capacity: usize, written: &Snapshot) -> (r: Result<
        PeerRing,
        RestoreError,
    >)
        ensures
            readable(written.successors@, written.predecessor@) ==> (r matches Ok(ring) && ring.wf()
                && ring@ == restored(
                did,
                capacity as nat,
                decoded(written.successors@),
                decoded(written.predecessor@),
            )),
            !readable(written.successors@, written.predecessor@) ==> r == Err::<
                PeerRing,
                RestoreError,
            >(RestoreError::Corrupt),
    {
        if written.predecessor.len() != 0 && written.predecessor.len() != DID_BYTES {
            return Err(RestoreError::Corrupt);
        }
        let successors = match decode(written.successors.as_slice()) {
            Some(ids) => ids,
            None => {
                return Err(RestoreError::Corrupt);
            },
        };
        let predecessor = match decode(written.predecessor.as_slice()) {
            Some(ids) => ids,
            None => {
                return Err(RestoreError::Corrupt);
            },
        };
        let mut ring = PeerRing::new(did, capacity);
        ring.join_all(&successors);
        if predecessor.len() > 0 {
            let _ = ring.notify(predecessor[0]);
        }
        Ok(ring)
    }
}

} // verus!
