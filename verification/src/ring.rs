//! The ring as one node sees it: its own identifier, a bounded list of the
//! successors it knows, nearest first, and the predecessor it knows, if any.

use vstd::prelude::*;
use crate::did::{dist, in_half_open_arc, lemma_distance_injective, Did};

verus! {

/// The list is ordered by growing clockwise distance from `local`, with no two
/// entries at one distance.
pub open spec fn sorted_from(local: Did, s: Seq<Did>) -> bool {
    forall|i: int, j: int|
        0 <= i < j < s.len() ==> dist(local, #[trigger] s[i]) < dist(local, #[trigger] s[j])
}

/// `p` is the place of `c` in the list: what stands before it is nearer to
/// `local` than `c`, what stands from it on is farther.
pub open spec fn is_slot(s: Seq<Did>, local: Did, c: Did, p: int) -> bool {
    &&& 0 <= p <= s.len()
    &&& forall|i: int| 0 <= i < p ==> dist(local, #[trigger] s[i]) < dist(local, c)
    &&& forall|i: int| p <= i < s.len() ==> dist(local, c) < dist(local, #[trigger] s[i])
}

/// The place of `c` in the list.
pub open spec fn slot(s: Seq<Did>, local: Did, c: Did) -> int {
    choose|p: int| is_slot(s, local, c, p)
}

/// What a ring operation refuses.
#[derive(Clone, Copy, Debug, PartialEq, Eq, Structural)]
pub enum RingError {
    /// The node's own identifier was offered as its successor or predecessor.
    SelfReference,
}

/// Where a key is to be looked for.
#[derive(Clone, Copy, Debug, PartialEq, Eq, Structural)]
pub enum RingLookup {
    /// This node answers for the key.
    Local,
    /// The query goes on to this successor.
    Remote(Did),
}

/// The ring as a value: what `PeerRing` stands for in contracts.
pub struct RingView {
    pub did: Did,
    pub capacity: nat,
    pub successors: Seq<Did>,
    pub predecessor: Option<Did>,
}

impl RingView {
    /// What holds of every ring: the list keeps to its capacity, is ordered by
    /// distance from the node, and names the node itself nowhere; nor is the
    /// node its own predecessor.
    pub open spec fn wf(self) -> bool {
        &&& self.successors.len() <= self.capacity
        &&& sorted_from(self.did, self.successors)
        &&& !self.successors.contains(self.did)
        &&& self.predecessor != Some(self.did)
    }

    /// The ring after `c` was offered as a successor: `c` stands at its place
    /// by distance, and what no longer fits the capacity has left at the far
    /// end. The node itself and a known successor change nothing.
    pub open spec fn joined(self, c: Did) -> RingView {
        if c == self.did || self.successors.contains(c) {
            self
        } else {
            let grown = self.successors.insert(slot(self.successors, self.did, c), c);
            let kept = if grown.len() <= self.capacity {
                grown
            } else {
                grown.take(self.capacity as int)
            };
            RingView { successors: kept, ..self }
        }
    }

    /// The ring after `peer` was found gone: it has left the list, the others
    /// keep their order, and it is no longer the predecessor.
    pub open spec fn removed(self, peer: Did) -> RingView {
        let successors = if self.successors.contains(peer) {
            self.successors.remove(self.successors.index_of(peer))
        } else {
            self.successors
        };
        let predecessor = if self.predecessor == Some(peer) {
            None
        } else {
            self.predecessor
        };
        RingView { successors, predecessor, ..self }
    }

    /// `c` is nearer to the node, counter-clockwise, than the predecessor it
    /// has; any peer is nearer than none.
    pub open spec fn closer_predecessor(self, c: Did) -> bool {
        c != self.did && match self.predecessor {
            None => true,
            Some(p) => dist(c, self.did) < dist(p, self.did),
        }
    }

    /// The ring after `c` announced itself as predecessor.
    pub open spec fn notified(self, c: Did) -> RingView {
        if self.closer_predecessor(c) {
            RingView { predecessor: Some(c), ..self }
        } else {
            self
        }
    }

    /// The node answers for `key`: it knows no successor, or the key lies
    /// after the node and not after its first successor.
    pub open spec fn owns(self, key: Did) -> bool {
        self.successors.len() == 0 || in_half_open_arc(self.did, key, self.successors[0])
    }

    /// Entry `i` is where a query for `key` goes on to: the farthest entry
    /// that does not lie beyond the key, or the nearest one where all do.
    pub open spec fn is_hop(self, key: Did, i: int) -> bool {
        &&& 0 <= i < self.successors.len()
        &&& if dist(self.did, key) < dist(self.did, self.successors[0]) {
            i == 0
        } else {
            &&& dist(self.did, self.successors[i]) <= dist(self.did, key)
            &&& i + 1 < self.successors.len() ==> dist(self.did, key) < dist(
                self.did,
                self.successors[i + 1],
            )
        }
    }

    /// The answer to a lookup of `key`.
    pub open spec fn lookup(self, key: Did) -> RingLookup {
        if self.owns(key) {
            RingLookup::Local
        } else {
            RingLookup::Remote(self.successors[choose|i: int| self.is_hop(key, i)])
        }
    }
}

/// A list has one place for an identifier at most.
pub proof fn lemma_slot_unique(s: Seq<Did>, local: Did, c: Did, p: int, q: int)
    requires
        is_slot(s, local, c, p),
        is_slot(s, local, c, q),
    ensures
        p == q,
{
    if p < q {
        assert(dist(local, s[p]) < dist(local, c));
    } else if q < p {
        assert(dist(local, s[q]) < dist(local, c));
    }
}

/// An ordered list has a place for every identifier that it does not hold.
pub proof fn lemma_slot_exists(s: Seq<Did>, local: Did, c: Did)
    requires
        sorted_from(local, s),
        !s.contains(c),
    ensures
        is_slot(s, local, c, slot(s, local, c)),
    decreases s.len(),
{
    if s.len() == 0 {
        assert(is_slot(s, local, c, 0));
    } else {
        let last = s.last();
        let t = s.drop_last();
        assert(s[s.len() - 1] == last);
        assert(s.contains(last));
        lemma_distance_injective(local, c, last);
        if dist(local, last) < dist(local, c) {
            assert forall|i: int| 0 <= i < s.len() implies dist(local, #[trigger] s[i]) < dist(
                local,
                c,
            ) by {
                if i < s.len() - 1 {
                    assert(dist(local, s[i]) < dist(local, s[s.len() - 1]));
                }
            }
            assert(is_slot(s, local, c, s.len() as int));
        } else {
            assert forall|i: int, j: int| 0 <= i < j < t.len() implies dist(
                local,
                #[trigger] t[i],
            ) < dist(local, #[trigger] t[j]) by {
                assert(t[i] == s[i] && t[j] == s[j]);
            }
            assert forall|x: Did| t.contains(x) implies s.contains(x) by {
                let k = choose|k: int| 0 <= k < t.len() && t[k] == x;
                assert(s[k] == x);
            }
            lemma_slot_exists(t, local, c);
            let p = slot(t, local, c);
            assert forall|i: int| 0 <= i < p implies dist(local, #[trigger] s[i]) < dist(
                local,
                c,
            ) by {
                assert(t[i] == s[i]);
            }
            assert forall|i: int| p <= i < s.len() implies dist(local, c) < dist(
                local,
                #[trigger] s[i],
            ) by {
                if i < t.len() {
                    assert(t[i] == s[i]);
                }
            }
            assert(is_slot(s, local, c, p));
        }
    }
}

/// Putting an identifier at its place keeps the list ordered.
pub proof fn lemma_insert_keeps_order(s: Seq<Did>, local: Did, c: Did, p: int)
    requires
        sorted_from(local, s),
        is_slot(s, local, c, p),
    ensures
        sorted_from(local, s.insert(p, c)),
{
    let g = s.insert(p, c);
    assert forall|i: int, j: int| 0 <= i < j < g.len() implies dist(local, #[trigger] g[i])
        < dist(local, #[trigger] g[j]) by {
        let a = if i < p { i } else { i - 1 };
        let b = if j < p { j } else { j - 1 };
        if i != p {
            assert(g[i] == s[a]);
        }
        if j != p {
            assert(g[j] == s[b]);
        }
        if i != p && j != p {
            assert(dist(local, s[a]) < dist(local, s[b]));
        }
    }
}

/// The ring this node holds.
pub struct PeerRing {
    did: Did,
    capacity: usize,
    successors: Vec<Did>,
    predecessor: Option<Did>,
}

impl View for PeerRing {
    type V = RingView;

    closed spec fn view(&self) -> RingView {
        RingView {
            did: self.did,
            capacity: self.capacity as nat,
            successors: self.successors@,
            predecessor: self.predecessor,
        }
    }
}

impl PeerRing {
    /// What holds of every ring that this library hands out.
    pub open spec fn wf(&self) -> bool {
        self@.wf()
    }

    /// The ring of a node that knows nobody yet, with room for `capacity`
    /// successors.
    pub fn new(did: Did, capacity: usize) -> (r: PeerRing)
        ensures
            r.wf(),
            r@ == (RingView {
                did,
                capacity: capacity as nat,
                successors: Seq::empty(),
                predecessor: None,
            }),
    {
        PeerRing { did, capacity, successors: Vec::new(), predecessor: None }
    }

    /// The node's own identifier.
    pub fn did(&self) -> (r: Did)
        ensures
            r == self@.did,
    {
        self.did
    }

    /// How many successors the list holds at most.
    pub fn capacity(&self) -> (r: usize)
        ensures
            r == self@.capacity,
    {
        self.capacity
    }

    /// The predecessor, if one is known.
    pub fn predecessor(&self) -> (r: Option<Did>)
        ensures
            r == self@.predecessor,
    {
        self.predecessor
    }

    /// The successors, nearest first.
    pub fn successor_list(&self) -> (r: Vec<Did>)
        ensures
            r@ == self@.successors,
    {
        let mut out: Vec<Did> = Vec::new();
        let mut i: usize = 0;
        while i < self.successors.len()
            invariant
                0 <= i <= self.successors.len(),
                out@ == self.successors@.take(i as int),
            decreases self.successors.len() - i,
        {
            out.push(self.successors[i]);
            i += 1;
            assert(out@ =~= self.successors@.take(i as int));
        }
        assert(self.successors@.take(i as int) =~= self.successors@);
        out
    }

    /// The nearest successor, if one is known.
    pub fn successor(&self) -> (r: Option<Did>)
        ensures
            self@.successors.len() == 0 ==> r.is_none(),
            self@.successors.len() > 0 ==> r == Some(self@.successors[0]),
    {
        if self.successors.len() == 0 {
            None
        } else {
            Some(self.successors[0])
        }
    }

    /// Where `candidate` stands in the list, or where it would.
    fn locate(&self, candidate: &Did) -> (r: (usize, bool))
        requires
            self.wf(),
        ensures
            r.1 ==> r.0 < self@.successors.len() && self@.successors[r.0 as int] == *candidate,
            !r.1 ==> is_slot(self@.successors, self@.did, *candidate, r.0 as int)
                && !self@.successors.contains(*candidate),
    {
        let wanted = self.did.distance(candidate);
        let mut i: usize = 0;
        while i < self.successors.len()
            invariant
                0 <= i <= self.successors.len(),
                self.wf(),
                wanted@ == dist(self.did, *candidate),
                forall|j: int|
                    0 <= j < i ==> dist(self.did, #[trigger] self.successors@[j]) < dist(
                        self.did,
                        *candidate,
                    ),
            decreases self.successors.len() - i,
        {
            let here = self.did.distance(&self.successors[i]);
            proof {
                lemma_distance_injective(self.did, self.successors@[i as int], *candidate);
            }
            if self.successors[i] == *candidate {
                return (i, true);
            }
            if wanted.less_than(&here) {
                proof {
                    assert forall|j: int| i <= j < self.successors@.len() implies dist(
                        self.did,
                        *candidate,
                    ) < dist(self.did, #[trigger] self.successors@[j]) by {
                        if i < j {
                            assert(dist(self.did, self.successors@[i as int]) < dist(
                                self.did,
                                self.successors@[j],
                            ));
                        }
                    }
                    self.lemma_absent(*candidate, i as int);
                }
                return (i, false);
            }
            i += 1;
        }
        proof {
            self.lemma_absent(*candidate, i as int);
        }
        (i, false)
    }

    /// What has a place in the list is not in it.
    proof fn lemma_absent(&self, c: Did, p: int)
        requires
            is_slot(self@.successors, self@.did, c, p),
        ensures
            !self@.successors.contains(c),
    {
        if self@.successors.contains(c) {
            let k = choose|k: int| 0 <= k < self@.successors.len() && self@.successors[k] == c;
            assert(dist(self@.did, self@.successors[k]) == dist(self@.did, c));
        }
    }

    /// Offers `candidate` as a successor. The node's own identifier is
    /// refused and nothing changes; any other is put at its place by
    /// distance, and the list is cut back to its capacity.
    pub fn join(&mut self, candidate: Did) -> (r: Result<(), RingError>)
        requires
            old(self).wf(),
        ensures
            final(self).wf(),
            candidate == old(self)@.did ==> r == Err::<(), RingError>(RingError::SelfReference)
                && final(self)@ == old(self)@,
            candidate != old(self)@.did ==> r == Ok::<(), RingError>(()) && final(self)@ == old(
                self,
            )@.joined(candidate),
    {
        if candidate == self.did {
            return Err(RingError::SelfReference);
        }
        let (place, known) = self.locate(&candidate);
        if known {
            assert(self@.successors.contains(candidate));
            return Ok(());
        }
        proof {
            lemma_slot_exists(self@.successors, self@.did, candidate);
            lemma_slot_unique(
                self@.successors,
                self@.did,
                candidate,
                place as int,
                slot(self@.successors, self@.did, candidate),
            );
            lemma_joined_wf(self@, candidate);
        }
        self.successors.insert(place, candidate);
        self.successors.truncate(self.capacity);
        assert(self@.successors =~= old(self)@.joined(candidate).successors);
        Ok(())
    }

    /// Takes `peer` out: it leaves the successor list, where the others keep
    /// their order, and the predecessor slot if it held it.
    pub fn remove(&mut self, peer: Did)
        requires
            old(self).wf(),
        ensures
            final(self).wf(),
            final(self)@ == old(self)@.removed(peer),
    {
        proof {
            lemma_removed_wf(self@, peer);
        }
        let (place, known) = self.locate(&peer);
        if known {
            proof {
                let s = self@.successors;
                assert(s.contains(peer));
                let k = s.index_of(peer);
                lemma_distance_injective(self@.did, s[k], s[place as int]);
                if k < place {
                    assert(dist(self@.did, s[k]) < dist(self@.did, s[place as int]));
                } else if place < k {
                    assert(dist(self@.did, s[place as int]) < dist(self@.did, s[k]));
                }
            }
            self.successors.remove(place);
        }
        if self.predecessor == Some(peer) {
            self.predecessor = None;
        }
    }

    /// Hears `candidate` announce itself as predecessor. It takes the slot if
    /// the slot is empty or if it is nearer than the one who holds it; the
    /// node's own identifier is refused and nothing changes.
    pub fn notify(&mut self, candidate: Did) -> (r: Result<(), RingError>)
        requires
            old(self).wf(),
        ensures
            final(self).wf(),
            candidate == old(self)@.did ==> r == Err::<(), RingError>(RingError::SelfReference)
                && final(self)@ == old(self)@,
            candidate != old(self)@.did ==> r == Ok::<(), RingError>(()) && final(self)@ == old(
                self,
            )@.notified(candidate),
    {
        if candidate == self.did {
            return Err(RingError::SelfReference);
        }
        let closer = match self.predecessor {
            None => true,
            Some(p) => {
                let offered = candidate.distance(&self.did);
                let held = p.distance(&self.did);
                offered.less_than(&held)
            },
        };
        if closer {
            self.predecessor = Some(candidate);
        }
        Ok(())
    }

    /// Says where `key` is to be looked for: here, or at the successor that
    /// lies farthest along the way without lying beyond the key.
    pub fn find_successor(&self, key: Did) -> (r: RingLookup)
        requires
            self.wf(),
        ensures
            r == self@.lookup(key),
            r is Local <==> self@.owns(key),
            r matches RingLookup::Remote(d) ==> exists|i: int|
                self@.is_hop(key, i) && self@.successors[i] == d,
    {
        if self.successors.len() == 0 {
            return RingLookup::Local;
        }
        let to_key = self.did.distance(&key);
        let to_first = self.did.distance(&self.successors[0]);
        proof {
            lemma_distance_injective(self.did, key, self.did);
        }
        if !(key == self.did) && !to_first.less_than(&to_key) {
            return RingLookup::Local;
        }
        let mut i: usize = 0;
        let mut settled: bool = to_key.less_than(&to_first);
        while !settled && i + 1 < self.successors.len()
            invariant
                0 <= i < self.successors.len(),
                self.wf(),
                to_key@ == dist(self.did, key),
                settled ==> self@.is_hop(key, i as int),
                !settled ==> dist(self.did, self.successors@[i as int]) <= dist(self.did, key),
            decreases self.successors.len() - i, if settled { 0int } else { 1int },
        {
            let next = self.did.distance(&self.successors[i + 1]);
            if to_key.less_than(&next) {
                settled = true;
            } else {
                i += 1;
            }
        }
        proof {
            assert(self@.is_hop(key, i as int));
            lemma_hop_unique(self@, key, i as int, choose|h: int| self@.is_hop(key, h));
        }
        RingLookup::Remote(self.successors[i])
    }
}

/// A lookup that goes on has one entry to go on to.
pub proof fn lemma_hop_unique(r: RingView, key: Did, i: int, j: int)
    requires
        r.wf(),
        r.is_hop(key, i),
        r.is_hop(key, j),
    ensures
        i == j,
{
    let s = r.successors;
    if !(dist(r.did, key) < dist(r.did, s[0])) {
        if i < j {
            if i + 1 < j {
                assert(dist(r.did, s[i + 1]) < dist(r.did, s[j]));
            }
        } else if j < i {
            if j + 1 < i {
                assert(dist(r.did, s[j + 1]) < dist(r.did, s[i]));
            }
        }
    }
}

/// A join leaves a ring a ring.
pub proof fn lemma_joined_wf(r: RingView, c: Did)
    requires
        r.wf(),
    ensures
        r.joined(c).wf(),
        r.joined(c).did == r.did,
        r.joined(c).capacity == r.capacity,
        r.joined(c).predecessor == r.predecessor,
{
    if c != r.did && !r.successors.contains(c) {
        let s = r.successors;
        lemma_slot_exists(s, r.did, c);
        let p = slot(s, r.did, c);
        let g = s.insert(p, c);
        lemma_insert_keeps_order(s, r.did, c, p);
        let kept = r.joined(c).successors;
        assert forall|i: int| 0 <= i < kept.len() implies #[trigger] kept[i] == g[i] by {}
        assert forall|i: int, j: int| 0 <= i < j < kept.len() implies dist(
            r.did,
            #[trigger] kept[i],
        ) < dist(r.did, #[trigger] kept[j]) by {
            assert(dist(r.did, g[i]) < dist(r.did, g[j]));
        }
        if kept.contains(r.did) {
            let k = choose|k: int| 0 <= k < kept.len() && kept[k] == r.did;
            assert(g[k] == r.did);
            if k < p {
                assert(s[k] == r.did);
            } else if k > p {
                assert(s[k - 1] == r.did);
            }
            assert(false);
        }
    }
}

/// A removal leaves a ring a ring.
pub proof fn lemma_removed_wf(r: RingView, peer: Did)
    requires
        r.wf(),
    ensures
        r.removed(peer).wf(),
        r.removed(peer).did == r.did,
        r.removed(peer).capacity == r.capacity,
{
    if r.successors.contains(peer) {
        let s = r.successors;
        let k = s.index_of(peer);
        let t = s.remove(k);
        assert forall|i: int, j: int| 0 <= i < j < t.len() implies dist(r.did, #[trigger] t[i])
            < dist(r.did, #[trigger] t[j]) by {
            let a = if i < k { i } else { i + 1 };
            let b = if j < k { j } else { j + 1 };
            assert(t[i] == s[a] && t[j] == s[b]);
            assert(dist(r.did, s[a]) < dist(r.did, s[b]));
        }
        if t.contains(r.did) {
            let m = choose|m: int| 0 <= m < t.len() && t[m] == r.did;
            let a = if m < k { m } else { m + 1 };
            assert(s[a] == r.did);
            assert(false);
        }
    }
}

} // verus!
