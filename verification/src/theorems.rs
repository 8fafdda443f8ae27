//! What holds of every ring, whatever is done to it.

use vstd::prelude::*;
use crate::did::{dist, in_half_open_arc, lemma_distance_injective, Did};
use crate::ring::{
    is_slot, lemma_joined_wf, lemma_removed_wf, lemma_slot_exists, slot, sorted_from, RingLookup,
    RingView,
};
use crate::stabilize::{next, Action, Event, Phase};

verus! {

/// One change to the successor list.
pub enum RingOp {
    /// A peer is offered as successor.
    Join(Did),
    /// A peer is taken out.
    Remove(Did),
}

/// The ring after one change.
pub open spec fn applied(r: RingView, op: RingOp) -> RingView {
    match op {
        RingOp::Join(c) => r.joined(c),
        RingOp::Remove(p) => r.removed(p),
    }
}

/// The ring after a run of changes, the first of them first.
pub open spec fn applied_all(r: RingView, ops: Seq<RingOp>) -> RingView
    decreases ops.len(),
{
    if ops.len() == 0 {
        r
    } else {
        applied(applied_all(r, ops.drop_last()), ops.last())
    }
}

/// A second notify by the same peer changes nothing.
pub proof fn theorem_notify_idempotent(r: RingView, x: Did)
    requires
        r.wf(),
    ensures
        r.notified(x).notified(x) == r.notified(x),
{
}

/// A notify leaves a ring a ring, and touches the predecessor only.
pub proof fn theorem_notify_keeps_ring(r: RingView, x: Did)
    requires
        r.wf(),
    ensures
        r.notified(x).wf(),
        r.notified(x).successors == r.successors,
        r.notified(x).did == r.did,
        r.notified(x).capacity == r.capacity,
{
}

/// A notify puts a peer in the predecessor's place only where the place was
/// empty or the peer is strictly nearer, counter-clockwise, than the one who
/// held it; in every other case the predecessor stays.
pub proof fn theorem_notify_only_closer(r: RingView, x: Did)
    requires
        r.wf(),
    ensures
        r.notified(x).predecessor == r.predecessor || r.notified(x).predecessor == Some(x),
        r.notified(x).predecessor != r.predecessor ==> x != r.did && (r.predecessor matches Some(
            p,
        ) ==> dist(x, r.did) < dist(p, r.did)),
        r.predecessor matches Some(p) ==> (r.notified(x).predecessor matches Some(q) && dist(
            q,
            r.did,
        ) <= dist(p, r.did)),
        r.predecessor is None && x != r.did ==> r.notified(x).predecessor == Some(x),
{
}

/// However many peers join and leave, in whatever order, the successor
/// list keeps to its capacity, holds no identifier twice, never holds the
/// node's own, and stays ordered by growing distance from the node.
pub proof fn theorem_successor_list_invariant(r: RingView, ops: Seq<RingOp>)
    requires
        r.wf(),
    ensures
        applied_all(r, ops).wf(),
        applied_all(r, ops).did == r.did,
        applied_all(r, ops).capacity == r.capacity,
        applied_all(r, ops).successors.len() <= r.capacity,
        applied_all(r, ops).successors.no_duplicates(),
        !applied_all(r, ops).successors.contains(r.did),
        sorted_from(r.did, applied_all(r, ops).successors),
    decreases ops.len(),
{
    if ops.len() > 0 {
        let before = applied_all(r, ops.drop_last());
        theorem_successor_list_invariant(r, ops.drop_last());
        match ops.last() {
            RingOp::Join(c) => lemma_joined_wf(before, c),
            RingOp::Remove(p) => lemma_removed_wf(before, p),
        }
    }
    lemma_ordered_is_distinct(r.did, applied_all(r, ops).successors);
}

/// A list ordered by distance holds no identifier twice.
pub proof fn lemma_ordered_is_distinct(local: Did, s: Seq<Did>)
    requires
        sorted_from(local, s),
    ensures
        s.no_duplicates(),
{
    assert forall|i: int, j: int| 0 <= i < s.len() && 0 <= j < s.len() && i != j implies s[i]
        != s[j] by {
        if i < j {
            assert(dist(local, s[i]) < dist(local, s[j]));
        } else {
            assert(dist(local, s[j]) < dist(local, s[i]));
        }
    }
}

/// A node that knows a successor answers for a key itself exactly when the
/// key lies after the node and not after that successor.
pub proof fn theorem_local_iff_in_arc(r: RingView, key: Did)
    requires
        r.wf(),
        r.successors.len() > 0,
    ensures
        r.lookup(key) is Local <==> in_half_open_arc(r.did, key, r.successors[0]),
{
}

/// After a join the list holds the nearest of the peers it has heard of:
/// each entry was there before or is the one who joined, and whoever was
/// left out lies farther than every entry, the list then being full.
pub proof fn theorem_join_keeps_nearest(r: RingView, c: Did, d: Did)
    requires
        r.wf(),
        c != r.did,
        r.successors.contains(d) || d == c,
    ensures
        forall|e: Did| #[trigger]
            r.joined(c).successors.contains(e) ==> r.successors.contains(e) || e == c,
        !r.joined(c).successors.contains(d) ==> r.joined(c).successors.len() == r.capacity
            && forall|e: Did| #[trigger]
            r.joined(c).successors.contains(e) ==> dist(r.did, e) < dist(r.did, d),
        r.capacity > 0 ==> r.joined(c).successors.len() > 0,
{
    let s = r.successors;
    let kept = r.joined(c).successors;
    if !s.contains(c) {
        lemma_slot_exists(s, r.did, c);
        let p = slot(s, r.did, c);
        let g = s.insert(p, c);
        crate::ring::lemma_insert_keeps_order(s, r.did, c, p);
        assert(is_slot(s, r.did, c, p));
        assert forall|e: Did| #[trigger] kept.contains(e) implies s.contains(e) || e == c by {
            let k = choose|k: int| 0 <= k < kept.len() && kept[k] == e;
            assert(g[k] == e);
            if k < p {
                assert(s[k] == e);
            } else if k > p {
                assert(s[k - 1] == e);
            }
        }
        // where `d` stands in the grown list
        let at = if d == c {
            p
        } else {
            let k = s.index_of(d);
            if k < p {
                k
            } else {
                k + 1
            }
        };
        assert(0 <= at < g.len() && g[at] == d);
        if !kept.contains(d) {
            if at < kept.len() {
                assert(kept[at] == d);
            }
            assert forall|e: Did| #[trigger] kept.contains(e) implies dist(r.did, e) < dist(
                r.did,
                d,
            ) by {
                let k = choose|k: int| 0 <= k < kept.len() && kept[k] == e;
                assert(g[k] == e);
                assert(dist(r.did, g[k]) < dist(r.did, g[at]));
            }
        }
    } else {
        assert(kept == s);
        let k = s.index_of(c);
        assert(s.len() > 0);
    }
}

/// A full list whose entries all lie nearer than `d` stays so when a peer
/// joins.
pub proof fn lemma_full_list_stays_nearer(r: RingView, c: Did, d: Did)
    requires
        r.wf(),
        r.successors.len() == r.capacity,
        forall|e: Did| #[trigger] r.successors.contains(e) ==> dist(r.did, e) < dist(r.did, d),
    ensures
        r.joined(c).successors.len() == r.capacity,
        forall|e: Did| #[trigger]
            r.joined(c).successors.contains(e) ==> dist(r.did, e) < dist(r.did, d),
{
    let s = r.successors;
    let kept = r.joined(c).successors;
    if c != r.did && !s.contains(c) {
        lemma_slot_exists(s, r.did, c);
        let p = slot(s, r.did, c);
        let g = s.insert(p, c);
        assert forall|e: Did| #[trigger] kept.contains(e) implies dist(r.did, e) < dist(
            r.did,
            d,
        ) by {
            let k = choose|k: int| 0 <= k < kept.len() && kept[k] == e;
            assert(g[k] == e);
            if k < p {
                assert(s.contains(s[k]));
            } else if k > p {
                assert(s.contains(s[k - 1]));
            } else {
                assert(s.contains(s[p]));
                assert(dist(r.did, c) < dist(r.did, s[p]));
            }
        }
    }
}

/// After any run of joins the list holds the nearest of all the peers that
/// were offered or were there before: whoever of them is not in it lies
/// farther than every entry, and the list is full.
pub proof fn theorem_merge_keeps_nearest(r: RingView, peers: Seq<Did>, d: Did)
    requires
        r.wf(),
        d != r.did,
        r.successors.contains(d) || peers.contains(d),
    ensures
        !crate::stabilize::merged(r, peers).successors.contains(d) ==> crate::stabilize::merged(
            r,
            peers,
        ).successors.len() == r.capacity && forall|e: Did| #[trigger]
            crate::stabilize::merged(r, peers).successors.contains(e) ==> dist(r.did, e) < dist(
                r.did,
                d,
            ),
    decreases peers.len(),
{
    if peers.len() > 0 {
        let c = peers.last();
        let rest = peers.drop_last();
        let before = crate::stabilize::merged(r, rest);
        crate::stabilize::lemma_merged_wf(r, rest);
        let earlier = r.successors.contains(d) || rest.contains(d);
        if !earlier {
            let k = choose|k: int| 0 <= k < peers.len() && peers[k] == d;
            if k < rest.len() {
                assert(rest[k] == d);
            }
            assert(d == c);
            theorem_join_keeps_nearest(before, c, d);
        } else {
            theorem_merge_keeps_nearest(r, rest, d);
            if before.successors.contains(d) {
                if c != r.did {
                    theorem_join_keeps_nearest(before, c, d);
                }
            } else {
                lemma_full_list_stays_nearer(before, c, d);
            }
        }
    }
}

/// The ring after each of `peers` announced itself as predecessor, the
/// first of them first.
pub open spec fn notified_all(r: RingView, peers: Seq<Did>) -> RingView
    decreases peers.len(),
{
    if peers.len() == 0 {
        r
    } else {
        notified_all(r, peers.drop_last()).notified(peers.last())
    }
}

/// After any run of notifies the predecessor is the nearest,
/// counter-clockwise, of all the peers that announced themselves, unless
/// the one that was there before is nearer still.
pub proof fn theorem_notify_keeps_nearest(r: RingView, peers: Seq<Did>, d: Did)
    requires
        r.wf(),
        d != r.did,
        peers.contains(d) || r.predecessor == Some(d),
    ensures
        notified_all(r, peers).wf(),
        notified_all(r, peers).successors == r.successors,
        notified_all(r, peers).predecessor matches Some(p) && dist(p, r.did) <= dist(d, r.did),
        notified_all(r, peers).did == r.did,
    decreases peers.len(),
{
    if peers.len() > 0 {
        let c = peers.last();
        let rest = peers.drop_last();
        let before = notified_all(r, rest);
        lemma_notified_all_wf(r, rest);
        theorem_notify_only_closer(before, c);
        let earlier = rest.contains(d) || r.predecessor == Some(d);
        if earlier {
            theorem_notify_keeps_nearest(r, rest, d);
        } else {
            let k = choose|k: int| 0 <= k < peers.len() && peers[k] == d;
            if k < rest.len() {
                assert(rest[k] == d);
            }
            assert(d == c);
        }
    }
}

/// A run of notifies leaves a ring a ring, and touches the predecessor
/// only.
pub proof fn lemma_notified_all_wf(r: RingView, peers: Seq<Did>)
    requires
        r.wf(),
    ensures
        notified_all(r, peers).wf(),
        notified_all(r, peers).successors == r.successors,
        notified_all(r, peers).did == r.did,
        notified_all(r, peers).capacity == r.capacity,
    decreases peers.len(),
{
    if peers.len() > 0 {
        lemma_notified_all_wf(r, peers.drop_last());
    }
}

/// The ring after a round that began between rounds and whose question was
/// not answered in time.
pub open spec fn failed_round(r: RingView) -> RingView {
    let asked = next(Phase::Idle, r, Event::Tick);
    match asked.action {
        Action::Query { peer } => next(asked.phase, asked.ring, Event::TimedOut { peer }).ring,
        _ => asked.ring,
    }
}

/// The ring after `n` such rounds.
pub open spec fn failed_rounds(r: RingView, n: nat) -> RingView
    decreases n,
{
    if n == 0 {
        r
    } else {
        failed_round(failed_rounds(r, (n - 1) as nat))
    }
}

/// A round whose question is not answered takes the first successor out,
/// and leaves the others in their order; the node ends between rounds.
pub proof fn theorem_failed_round_evicts_head(r: RingView)
    requires
        r.wf(),
        r.successors.len() > 0,
    ensures
        next(Phase::Idle, r, Event::Tick).action == (Action::Query { peer: r.successors[0] }),
        failed_round(r).successors == r.successors.drop_first(),
        failed_round(r).wf(),
        failed_round(r).did == r.did,
        failed_round(r).capacity == r.capacity,
        next(
            Phase::Querying(r.successors[0]),
            r,
            Event::TimedOut { peer: r.successors[0] },
        ).phase is Idle,
{
    let s = r.successors;
    let head = s[0];
    assert(s.contains(head));
    lemma_ordered_is_distinct(r.did, s);
    assert(s.index_of(head) == 0);
    assert(s.remove(0) =~= s.drop_first());
    lemma_removed_wf(r, head);
}

/// Where the first `n` successors have gone and the one after them is
/// alive, `n` rounds bring that one to the head of the list: fewer rounds
/// than the list has room for, with the order of those that stay kept.
pub proof fn theorem_live_successor_recovered(r: RingView, n: nat)
    requires
        r.wf(),
        n < r.successors.len(),
    ensures
        failed_rounds(r, n).wf(),
        failed_rounds(r, n).did == r.did,
        failed_rounds(r, n).capacity == r.capacity,
        failed_rounds(r, n).successors == r.successors.skip(n as int),
        failed_rounds(r, n).successors[0] == r.successors[n as int],
        n < r.capacity,
    decreases n,
{
    if n == 0 {
        assert(r.successors.skip(0) =~= r.successors);
    } else {
        let before = failed_rounds(r, (n - 1) as nat);
        theorem_live_successor_recovered(r, (n - 1) as nat);
        theorem_failed_round_evicts_head(before);
        assert(r.successors.skip(n - 1).drop_first() =~= r.successors.skip(n as int));
    }
}

/// Entry `j` is the first whose peer is alive.
pub open spec fn is_first_live(s: Seq<Did>, live: Set<Did>, j: int) -> bool {
    &&& 0 <= j < s.len()
    &&& live.contains(s[j])
    &&& forall|k: int| 0 <= k < j ==> !live.contains(#[trigger] s[k])
}

/// A list that holds a live peer holds a first one.
pub proof fn lemma_first_live_exists(s: Seq<Did>, live: Set<Did>, i: int)
    requires
        0 <= i < s.len(),
        live.contains(s[i]),
    ensures
        exists|j: int| 0 <= j <= i && is_first_live(s, live, j),
    decreases i,
{
    if exists|k: int| 0 <= k < i && live.contains(#[trigger] s[k]) {
        let k = choose|k: int| 0 <= k < i && live.contains(#[trigger] s[k]);
        lemma_first_live_exists(s, live, k);
        let j = choose|j: int| 0 <= j <= k && is_first_live(s, live, j);
        assert(0 <= j <= i && is_first_live(s, live, j));
    } else {
        assert(is_first_live(s, live, i));
    }
}

/// A node whose list holds at least one live peer has a live first
/// successor again after fewer rounds than the list has room for: each of
/// those rounds meets a peer that is gone and takes it out, and the round
/// after them meets a live one.
pub proof fn theorem_self_healing(r: RingView, live: Set<Did>)
    requires
        r.wf(),
        exists|i: int| 0 <= i < r.successors.len() && live.contains(#[trigger] r.successors[i]),
    ensures
        exists|n: nat|
            {
                &&& n < r.capacity
                &&& (#[trigger] failed_rounds(r, n)).successors.len() > 0
                &&& live.contains(failed_rounds(r, n).successors[0])
                &&& forall|m: nat|
                    m < n ==> (#[trigger] failed_rounds(r, m)).successors.len() > 0
                        && !live.contains(failed_rounds(r, m).successors[0])
            },
{
    let s = r.successors;
    let i = choose|i: int| 0 <= i < s.len() && live.contains(#[trigger] s[i]);
    lemma_first_live_exists(s, live, i);
    let j = choose|j: int| 0 <= j <= i && is_first_live(s, live, j);
    let n = j as nat;
    theorem_live_successor_recovered(r, n);
    assert forall|m: nat| m < n implies (#[trigger] failed_rounds(r, m)).successors.len() > 0
        && !live.contains(failed_rounds(r, m).successors[0]) by {
        theorem_live_successor_recovered(r, m);
        assert(failed_rounds(r, m).successors[0] == s[m as int]);
    }
    assert(failed_rounds(r, n).successors.len() > 0);
}

/// A round whose question is answered leaves the node between rounds, with
/// the nearest of the peers it has heard of as successors, and with a notify
/// on its way to the first of them.
pub proof fn theorem_answered_round_notifies_head(
    r: RingView,
    predecessor: Option<Did>,
    successors: Vec<Did>,
)
    requires
        r.wf(),
        r.successors.len() > 0,
    ensures
        ({
            let first = r.successors[0];
            let out = next(
                Phase::Querying(first),
                r,
                Event::Answer { from: first, predecessor, successors },
            );
            &&& out.phase is Idle
            &&& out.ring.wf()
            &&& out.ring.successors.len() > 0
            &&& out.action == (Action::Notify { peer: out.ring.successors[0], candidate: r.did })
        }),
{
    let first = r.successors[0];
    let event = Event::Answer { from: first, predecessor, successors };
    crate::stabilize::lemma_next_wf(Phase::Querying(first), r, event);
    let adopted = match predecessor {
        Some(p) => if crate::did::in_open_arc(r.did, p, first) {
            r.joined(p)
        } else {
            r
        },
        None => r,
    };
    match predecessor {
        Some(p) => {
            lemma_joined_wf(r, p);
            lemma_join_never_shrinks(r, p);
        },
        None => {},
    }
    lemma_merge_never_shrinks(adopted, successors@);
}

/// A join takes nothing from the length of the list.
pub proof fn lemma_join_never_shrinks(r: RingView, c: Did)
    requires
        r.wf(),
    ensures
        r.joined(c).successors.len() >= r.successors.len(),
{
    if c != r.did && !r.successors.contains(c) {
        lemma_slot_exists(r.successors, r.did, c);
    }
}

/// Nor does a run of joins.
pub proof fn lemma_merge_never_shrinks(r: RingView, peers: Seq<Did>)
    requires
        r.wf(),
    ensures
        crate::stabilize::merged(r, peers).successors.len() >= r.successors.len(),
    decreases peers.len(),
{
    if peers.len() > 0 {
        lemma_merge_never_shrinks(r, peers.drop_last());
        crate::stabilize::lemma_merged_wf(r, peers.drop_last());
        lemma_join_never_shrinks(crate::stabilize::merged(r, peers.drop_last()), peers.last());
    }
}

/// A ring taken up from what was written down is a ring of the node it
/// was taken up for, whatever was written.
pub proof fn lemma_restored_wf(did: Did, capacity: nat, successors: Seq<Did>, predecessor: Seq<Did>)
    ensures
        crate::snapshot::restored(did, capacity, successors, predecessor).wf(),
        crate::snapshot::restored(did, capacity, successors, predecessor).did == did,
        crate::snapshot::restored(did, capacity, successors, predecessor).capacity == capacity,
{
    let fresh = RingView { did, capacity, successors: Seq::empty(), predecessor: None };
    crate::stabilize::lemma_merged_wf(fresh, successors);
}

/// Taking in, nearest first, the successors of a ring gives that list
/// again.
pub proof fn lemma_merge_of_ordered(r: RingView, n: int)
    requires
        r.wf(),
        0 <= n <= r.successors.len(),
    ensures
        crate::stabilize::merged(
            RingView {
                did: r.did,
                capacity: r.capacity,
                successors: Seq::empty(),
                predecessor: None,
            },
            r.successors.take(n),
        ).successors == r.successors.take(n),
    decreases n,
{
    let fresh = RingView {
        did: r.did,
        capacity: r.capacity,
        successors: Seq::empty(),
        predecessor: None,
    };
    let s = r.successors;
    if n > 0 {
        lemma_merge_of_ordered(r, n - 1);
        assert(s.take(n).drop_last() =~= s.take(n - 1));
        assert(s.take(n).last() == s[n - 1]);
        let before = crate::stabilize::merged(fresh, s.take(n - 1));
        crate::stabilize::lemma_merged_wf(fresh, s.take(n - 1));
        let c = s[n - 1];
        let t = before.successors;
        assert(s.contains(c));
        if t.contains(c) {
            let k = choose|k: int| 0 <= k < t.len() && t[k] == c;
            assert(dist(r.did, s[k]) < dist(r.did, s[n - 1]));
        }
        assert(is_slot(t, r.did, c, n - 1)) by {
            assert forall|i: int| 0 <= i < n - 1 implies dist(r.did, #[trigger] t[i]) < dist(
                r.did,
                c,
            ) by {
                assert(dist(r.did, s[i]) < dist(r.did, s[n - 1]));
            }
        }
        lemma_slot_exists(t, r.did, c);
        crate::ring::lemma_slot_unique(t, r.did, c, n - 1, slot(t, r.did, c));
        assert(t.insert(n - 1, c) =~= s.take(n));
    } else {
        assert(s.take(0) =~= Seq::<Did>::empty());
    }
}

/// Written down and taken up again, a ring is what it was.
pub proof fn theorem_snapshot_round_trip(r: RingView)
    requires
        r.wf(),
    ensures
        crate::snapshot::restored(
            r.did,
            r.capacity,
            crate::snapshot::decoded(crate::snapshot::encoded(r.successors)),
            crate::snapshot::decoded(
                crate::snapshot::encoded(crate::snapshot::slot_list(r.predecessor)),
            ),
        ) == r,
{
    crate::snapshot::lemma_decoded_encoded(r.successors);
    crate::snapshot::lemma_decoded_encoded(crate::snapshot::slot_list(r.predecessor));
    lemma_merge_of_ordered(r, r.successors.len() as int);
    assert(r.successors.take(r.successors.len() as int) =~= r.successors);
    let fresh = RingView {
        did: r.did,
        capacity: r.capacity,
        successors: Seq::empty(),
        predecessor: None,
    };
    crate::stabilize::lemma_merged_wf(fresh, r.successors);
}

/// Two nodes that know each other as successors, and nobody else: one
/// round of the first leaves its list as it is and makes it the predecessor
/// of the second; a round of the second then does the same the other way.
pub proof fn theorem_two_nodes_converge(a: RingView, b: RingView, told: Vec<Did>)
    requires
        a.wf(),
        b.wf(),
        a.did != b.did,
        a.successors == seq![b.did],
        b.successors == seq![a.did],
        b.predecessor is None || b.predecessor == Some(a.did),
        told@ == b.successors,
    ensures
        ({
            let asked = next(Phase::Idle, a, Event::Tick);
            let answered = next(
                asked.phase,
                asked.ring,
                Event::Answer { from: b.did, predecessor: b.predecessor, successors: told },
            );
            let heard = next(Phase::Idle, b, Event::Notify { candidate: a.did });
            &&& asked.action == (Action::Query { peer: b.did })
            &&& answered.ring == a
            &&& answered.phase is Idle
            &&& answered.action == (Action::Notify { peer: b.did, candidate: a.did })
            &&& heard.ring.predecessor == Some(a.did)
            &&& heard.ring.successors == b.successors
        }),
{
    lemma_distance_injective(a.did, a.did, b.did);
    assert(told@.drop_last() =~= Seq::<Did>::empty());
    assert(told@.last() == a.did);
    assert(crate::stabilize::merged(a, told@.drop_last()) == a);
    assert(crate::stabilize::merged(a, told@) == a);
}

} // verus!
