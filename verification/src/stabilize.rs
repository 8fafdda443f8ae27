//! Stabilization: the rounds by which a node checks its first successor,
//! learns of nearer ones, announces itself, and drops a successor that no
//! longer answers. The decisions are one transition from a phase, a ring and
//! an event to the next phase, the next ring and what is to be sent.

use vstd::prelude::*;
use crate::did::{in_open_arc, Did};
use crate::ring::{PeerRing, RingError, RingLookup, RingView};

verus! {

/// Where a node stands in its round.
#[derive(Clone, Copy, Debug, PartialEq, Eq, Structural)]
pub enum Phase {
    /// Between two rounds.
    Idle,
    /// A question to this successor is under way.
    Querying(Did),
    /// Shut down: nothing is done any more.
    Stopped,
}

/// What can happen to a node.
#[derive(Clone, Debug, PartialEq, Eq)]
pub enum Event {
    /// The timer asks for a round.
    Tick,
    /// A successor told its predecessor and its own successors.
    Answer { from: Did, predecessor: Option<Did>, successors: Vec<Did> },
    /// The question to `peer` was not answered in time.
    TimedOut { peer: Did },
    /// The transport found `peer` gone.
    Unreachable { peer: Did },
    /// `candidate` announces itself as predecessor.
    Notify { candidate: Did },
    /// Somebody asks where `key` is kept.
    FindSuccessor { key: Did },
    /// `candidate` asks to be taken into the ring.
    Join { candidate: Did },
    /// The node is to stop.
    Shutdown,
}

/// What the node asks its transport to do.
#[derive(Clone, Copy, Debug, PartialEq, Eq, Structural)]
pub enum Action {
    /// Nothing is to be sent.
    Nothing,
    /// Ask `peer` for its predecessor and its successors.
    Query { peer: Did },
    /// Tell `peer` that `candidate` takes itself for its predecessor.
    Notify { peer: Did, candidate: Did },
    /// Answer a lookup.
    Reply { result: RingLookup },
    /// Tell `peer` that it was taken into the ring.
    Welcome { peer: Did },
    /// Tell the sender that what it asked was refused, and why.
    Refuse { error: RingError },
    /// No successor is left: the node stands alone until somebody joins.
    Disconnected,
}

/// What one transition leaves behind.
pub struct Outcome {
    pub phase: Phase,
    pub ring: RingView,
    pub action: Action,
}

/// The ring after each of `peers` was offered as a successor, the first of
/// them first.
pub open spec fn merged(r: RingView, peers: Seq<Did>) -> RingView
    decreases peers.len(),
{
    if peers.len() == 0 {
        r
    } else {
        merged(r, peers.drop_last()).joined(peers.last())
    }
}

/// The ring after the successor `from` told its predecessor and successors:
/// the predecessor is taken in where it lies between the node and `from`,
/// then each of the successors.
pub open spec fn reconciled(
    r: RingView,
    from: Did,
    predecessor: Option<Did>,
    successors: Seq<Did>,
) -> RingView {
    let adopted = match predecessor {
        Some(p) => if in_open_arc(r.did, p, from) {
            r.joined(p)
        } else {
            r
        },
        None => r,
    };
    merged(adopted, successors)
}

/// What is to be sent once the ring was brought up to date: a notify to the
/// first successor, or word that none is left.
pub open spec fn announcement(r: RingView) -> Action {
    if r.successors.len() > 0 {
        Action::Notify { peer: r.successors[0], candidate: r.did }
    } else {
        Action::Disconnected
    }
}

/// What follows when `peer` is lost.
pub open spec fn after_loss(phase: Phase, r: RingView, peer: Did) -> Outcome {
    let ring = r.removed(peer);
    Outcome {
        phase: if phase == Phase::Querying(peer) {
            Phase::Idle
        } else {
            phase
        },
        ring,
        action: if ring.successors.len() == 0 {
            Action::Disconnected
        } else {
            Action::Nothing
        },
    }
}

/// The transition.
///
/// A stopped node does nothing. A tick starts a round with the first
/// successor, unless none is known or a round is under way. An answer counts
/// only while its sender is being asked; a late one is dropped. A time-out
/// counts only for the peer being asked, which then leaves the ring; a peer
/// found gone leaves it at any time. Notifies, lookups and joins from outside
/// are applied to the ring as they come; one that names the node itself is
/// refused, and the ring stays as it is.
pub open spec fn next(phase: Phase, r: RingView, event: Event) -> Outcome {
    let unchanged = Outcome { phase, ring: r, action: Action::Nothing };
    if phase is Stopped {
        unchanged
    } else {
        match event {
            Event::Shutdown => Outcome { phase: Phase::Stopped, ring: r, action: Action::Nothing },
            Event::Tick => if phase is Idle && r.successors.len() > 0 {
                Outcome {
                    phase: Phase::Querying(r.successors[0]),
                    ring: r,
                    action: Action::Query { peer: r.successors[0] },
                }
            } else {
                unchanged
            },
            Event::Answer { from, predecessor, successors } => if phase == Phase::Querying(from) {
                let ring = reconciled(r, from, predecessor, successors@);
                Outcome { phase: Phase::Idle, ring, action: announcement(ring) }
            } else {
                unchanged
            },
            Event::TimedOut { peer } => if phase == Phase::Querying(peer) {
                after_loss(phase, r, peer)
            } else {
                unchanged
            },
            Event::Unreachable { peer } => after_loss(phase, r, peer),
            Event::Notify { candidate } => if candidate == r.did {
                Outcome {
                    phase,
                    ring: r,
                    action: Action::Refuse { error: RingError::SelfReference },
                }
            } else {
                Outcome { phase, ring: r.notified(candidate), action: Action::Nothing }
            },
            Event::FindSuccessor { key } => Outcome {
                phase,
                ring: r,
                action: Action::Reply { result: r.lookup(key) },
            },
            Event::Join { candidate } => if candidate == r.did {
                Outcome {
                    phase,
                    ring: r,
                    action: Action::Refuse { error: RingError::SelfReference },
                }
            } else {
                Outcome {
                    phase,
                    ring: r.joined(candidate),
                    action: Action::Welcome { peer: candidate },
                }
            },
        }
    }
}

/// Taking in a run of peers leaves a ring a ring.
pub proof fn lemma_merged_wf(r: RingView, peers: Seq<Did>)
    requires
        r.wf(),
    ensures
        merged(r, peers).wf(),
        merged(r, peers).did == r.did,
        merged(r, peers).capacity == r.capacity,
        merged(r, peers).predecessor == r.predecessor,
    decreases peers.len(),
{
    if peers.len() > 0 {
        lemma_merged_wf(r, peers.drop_last());
        crate::ring::lemma_joined_wf(merged(r, peers.drop_last()), peers.last());
    }
}

/// Every transition leaves a ring a ring, with the identifier and the
/// capacity it had.
pub proof fn lemma_next_wf(phase: Phase, r: RingView, event: Event)
    requires
        r.wf(),
    ensures
        next(phase, r, event).ring.wf(),
        next(phase, r, event).ring.did == r.did,
        next(phase, r, event).ring.capacity == r.capacity,
{
    match event {
        Event::Answer { from, predecessor, successors } => {
            match predecessor {
                Some(p) => {
                    crate::ring::lemma_joined_wf(r, p);
                    lemma_merged_wf(r.joined(p), successors@);
                },
                None => {},
            }
            lemma_merged_wf(r, successors@);
        },
        Event::TimedOut { peer } => crate::ring::lemma_removed_wf(r, peer),
        Event::Unreachable { peer } => crate::ring::lemma_removed_wf(r, peer),
        Event::Join { candidate } => crate::ring::lemma_joined_wf(r, candidate),
        _ => {},
    }
}

/// Why a question to a peer got no answer.
#[derive(Clone, Copy, Debug, PartialEq, Eq, Structural)]
pub enum TransportError {
    /// No answer came in time.
    Timeout,
    /// The peer cannot be reached.
    Unreachable,
}

/// What a successor tells of itself when asked.
#[derive(Clone, Debug, PartialEq, Eq)]
pub struct Neighbours {
    pub predecessor: Option<Did>,
    pub successor_list: Vec<Did>,
}

/// The way to other peers, as the ring needs it: a question that waits for
/// its answer, and a message that waits for none. Nothing is promised of
/// what a transport gives back.
pub trait IceTransport {
    /// Asks `peer` for its predecessor and its successors, and waits for the
    /// answer no longer than the transport's time-out.
    fn send_request(&mut self, peer: Did) -> Result<Neighbours, TransportError>;

    /// Tells `peer` that `candidate` takes itself for its predecessor.
    fn send_fire_and_forget(&mut self, peer: Did, candidate: Did) -> Result<(), TransportError>;
}

/// A transport that also hands over what came in from other peers, one
/// event after the other, in the order of arrival.
pub trait IceTransportCallback: IceTransport {
    /// The next event that waits, if there is one.
    fn poll_event(&mut self) -> Option<Event>;
}

/// The event that the end of a question to `peer` amounts to.
pub fn reply_event(peer: Did, reply: Result<Neighbours, TransportError>) -> (r: Event)
    ensures
        r == match reply {
            Ok(n) => Event::Answer {
                from: peer,
                predecessor: n.predecessor,
                successors: n.successor_list,
            },
            Err(TransportError::Timeout) => Event::TimedOut { peer },
            Err(TransportError::Unreachable) => Event::Unreachable { peer },
        },
{
    match reply {
        Ok(n) => Event::Answer {
            from: peer,
            predecessor: n.predecessor,
            successors: n.successor_list,
        },
        Err(TransportError::Timeout) => Event::TimedOut { peer },
        Err(TransportError::Unreachable) => Event::Unreachable { peer },
    }
}

/// What the end of a question is worth: the neighbours that the peer told,
/// the failure of the transport, or, where the peer answered something that
/// is no answer to the question, that it cannot be reached as a successor.
pub fn expect_neighbours(answered: Result<Option<Neighbours>, TransportError>) -> (r: Result<
    Neighbours,
    TransportError,
>)
    ensures
        r == (match answered {
            Ok(Some(n)) => Ok::<Neighbours, TransportError>(n),
            Ok(None) => Err::<Neighbours, TransportError>(TransportError::Unreachable),
            Err(e) => Err::<Neighbours, TransportError>(e),
        }),
{
    match answered {
        Ok(Some(n)) => Ok(n),
        Ok(None) => Err(TransportError::Unreachable),
        Err(e) => Err(e),
    }
}

/// `event` ends a question to `peer`.
pub open spec fn ends_question(event: Event, peer: Did) -> bool {
    match event {
        Event::Answer { from, .. } => from == peer,
        Event::TimedOut { peer: p } => p == peer,
        Event::Unreachable { peer: p } => p == peer,
        _ => false,
    }
}

/// How a node is timed: the seconds between two rounds, and the seconds it
/// waits for an answer. A round must be over before the next begins, so the
/// first is the longer.
#[derive(Clone, Copy, Debug, PartialEq, Eq, Structural)]
pub struct Timing {
    interval: usize,
    request_timeout: usize,
}

impl Timing {
    /// The seconds between two rounds.
    pub closed spec fn interval_of(self) -> usize {
        self.interval
    }

    /// The seconds a question may stay without answer.
    pub closed spec fn request_timeout_of(self) -> usize {
        self.request_timeout
    }

    /// The timing with these two spans, where the interval is the longer;
    /// none where rounds would overlap.
    pub fn new(interval: usize, request_timeout: usize) -> (r: Option<Timing>)
        ensures
            interval > request_timeout ==> (r matches Some(t) && t.interval_of() == interval
                && t.request_timeout_of() == request_timeout),
            interval <= request_timeout ==> r is None,
    {
        if interval > request_timeout {
            Some(Timing { interval, request_timeout })
        } else {
            None
        }
    }

    /// The seconds between two rounds.
    pub fn interval(&self) -> (r: usize)
        ensures
            r == self.interval_of(),
            r > self.request_timeout_of(),
    {
        proof {
            use_type_invariant(self);
        }
        self.interval
    }

    /// The seconds a question may stay without answer.
    pub fn request_timeout(&self) -> (r: usize)
        ensures
            r == self.request_timeout_of(),
            r < self.interval_of(),
    {
        proof {
            use_type_invariant(self);
        }
        self.request_timeout
    }

    #[verifier::type_invariant]
    spec fn rounds_apart(self) -> bool {
        self.interval > self.request_timeout
    }
}

/// The stabilization of one node: its phase, and the seconds it lets pass
/// between two rounds.
pub struct Stabilization {
    phase: Phase,
    timeout: usize,
}

impl PeerRing {
    /// Offers each of `peers` as a successor, the first of them first. The
    /// node's own identifier among them is passed over.
    pub fn join_all(&mut self, peers: &Vec<Did>)
        requires
            old(self).wf(),
        ensures
            final(self).wf(),
            final(self)@ == merged(old(self)@, peers@),
    {
        let mut i: usize = 0;
        while i < peers.len()
            invariant
                0 <= i <= peers.len(),
                self.wf(),
                self@ == merged(old(self)@, peers@.take(i as int)),
            decreases peers.len() - i,
        {
            let _ = self.join(peers[i]);
            proof {
                assert(peers@.take(i + 1).drop_last() =~= peers@.take(i as int));
            }
            i += 1;
        }
        assert(peers@.take(i as int) =~= peers@);
    }
}

impl Stabilization {
    /// The phase the node is in.
    pub closed spec fn phase_of(&self) -> Phase {
        self.phase
    }

    /// The seconds between two rounds.
    pub closed spec fn timeout_of(&self) -> usize {
        self.timeout
    }

    /// A stabilization that has not begun a round, with `timeout` seconds
    /// between rounds.
    pub fn new(timeout: usize) -> (r: Stabilization)
        ensures
            r.phase_of() is Idle,
            r.timeout_of() == timeout,
    {
        Stabilization { phase: Phase::Idle, timeout }
    }

    /// A stabilization that has not begun a round, timed by `timing`: it
    /// lets the interval pass between two rounds, which is longer than any
    /// question stays open.
    pub fn with_timing(timing: Timing) -> (r: Stabilization)
        ensures
            r.phase_of() is Idle,
            r.timeout_of() == timing.interval_of(),
            r.timeout_of() > timing.request_timeout_of(),
    {
        Stabilization { phase: Phase::Idle, timeout: timing.interval() }
    }

    /// What the node tells a peer that asks for its neighbours: its
    /// predecessor and its successors; nothing once it is stopped.
    pub fn neighbours(&self, ring: &PeerRing) -> (r: Option<Neighbours>)
        ensures
            self.phase_of() is Stopped ==> r is None,
            !(self.phase_of() is Stopped) ==> (r matches Some(n) && n.predecessor
                == ring@.predecessor && n.successor_list@ == ring@.successors),
    {
        if self.phase == Phase::Stopped {
            None
        } else {
            Some(
                Neighbours {
                    predecessor: ring.predecessor(),
                    successor_list: ring.successor_list(),
                },
            )
        }
    }

    /// The seconds between two rounds.
    pub fn get_timeout(&self) -> (r: usize)
        ensures
            r == self.timeout_of(),
    {
        self.timeout
    }

    /// The phase the node is in.
    pub fn phase(&self) -> (r: Phase)
        ensures
            r == self.phase_of(),
    {
        self.phase
    }

    /// What is to be sent once the ring was brought up to date.
    fn announce(ring: &PeerRing) -> (r: Action)
        ensures
            r == announcement(ring@),
    {
        match ring.successor() {
            Some(first) => Action::Notify { peer: first, candidate: ring.did() },
            None => Action::Disconnected,
        }
    }

    /// Takes `peer` out of the ring and ends the round that asked it.
    fn lose(&mut self, ring: &mut PeerRing, peer: Did) -> (r: Action)
        requires
            old(ring).wf(),
        ensures
            final(ring).wf(),
            final(self).timeout_of() == old(self).timeout_of(),
            (Outcome { phase: final(self).phase_of(), ring: final(ring)@, action: r })
                == after_loss(old(self).phase_of(), old(ring)@, peer),
    {
        ring.remove(peer);
        if self.phase == Phase::Querying(peer) {
            self.phase = Phase::Idle;
        }
        match ring.successor() {
            Some(_) => Action::Nothing,
            None => Action::Disconnected,
        }
    }

    /// Applies one event to the ring and says what is to be sent.
    pub fn step(&mut self, ring: &mut PeerRing, event: &Event) -> (action: Action)
        requires
            old(ring).wf(),
        ensures
            final(ring).wf(),
            final(self).timeout_of() == old(self).timeout_of(),
            (Outcome { phase: final(self).phase_of(), ring: final(ring)@, action }) == next(
                old(self).phase_of(),
                old(ring)@,
                *event,
            ),
    {
        if self.phase == Phase::Stopped {
            return Action::Nothing;
        }
        match event {
            Event::Shutdown => {
                self.phase = Phase::Stopped;
                Action::Nothing
            },
            Event::Tick => {
                if self.phase == Phase::Idle {
                    match ring.successor() {
                        Some(first) => {
                            self.phase = Phase::Querying(first);
                            Action::Query { peer: first }
                        },
                        None => Action::Nothing,
                    }
                } else {
                    Action::Nothing
                }
            },
            Event::Answer { from, predecessor, successors } => {
                if self.phase == Phase::Querying(*from) {
                    let local = ring.did();
                    match predecessor {
                        Some(p) => {
                            if Did::between(&local, p, from) {
                                let _ = ring.join(*p);
                            }
                        },
                        None => {},
                    }
                    ring.join_all(successors);
                    self.phase = Phase::Idle;
                    Stabilization::announce(ring)
                } else {
                    Action::Nothing
                }
            },
            Event::TimedOut { peer } => {
                if self.phase == Phase::Querying(*peer) {
                    self.lose(ring, *peer)
                } else {
                    Action::Nothing
                }
            },
            Event::Unreachable { peer } => self.lose(ring, *peer),
            Event::Notify { candidate } => match ring.notify(*candidate) {
                Ok(()) => Action::Nothing,
                Err(error) => Action::Refuse { error },
            },
            Event::FindSuccessor { key } => Action::Reply { result: ring.find_successor(*key) },
            Event::Join { candidate } => match ring.join(*candidate) {
                Ok(()) => Action::Welcome { peer: *candidate },
                Err(error) => Action::Refuse { error },
            },
        }
    }

    /// Runs one round over `transport`: asks the first successor, brings the
    /// ring up to date with what came back, and notifies the first successor
    /// there is then. Returns the event that the transport's answer amounted
    /// to, or nothing where no round was due: no successor is known, a round
    /// is under way, or the node is stopped. A notify that cannot be sent is
    /// let go.
    pub fn stabilize<T: IceTransport>(&mut self, ring: &mut PeerRing, transport: &mut T) -> (r:
        Option<Event>)
        requires
            old(ring).wf(),
        ensures
            final(ring).wf(),
            final(self).timeout_of() == old(self).timeout_of(),
            r is None <==> !(old(self).phase_of() is Idle && old(ring)@.successors.len() > 0),
            r is None ==> final(ring)@ == old(ring)@ && final(self).phase_of() == old(
                self,
            ).phase_of(),
            r matches Some(event) ==> {
                let first = old(ring)@.successors[0];
                &&& ends_question(event, first)
                &&& final(ring)@ == next(Phase::Querying(first), old(ring)@, event).ring
                &&& final(self).phase_of() is Idle
            },
            r matches Some(event) ==> exists|
                asked: &mut T,
                reply: Result<Neighbours, TransportError>,
            |
                {
                    &&& mut_ref_current(asked) == *old(transport)
                    &&& #[trigger] call_ensures(
                        T::send_request,
                        (asked, old(ring)@.successors[0]),
                        reply,
                    )
                    &&& event == (match reply {
                        Ok(n) => Event::Answer {
                            from: old(ring)@.successors[0],
                            predecessor: n.predecessor,
                            successors: n.successor_list,
                        },
                        Err(TransportError::Timeout) => Event::TimedOut {
                            peer: old(ring)@.successors[0],
                        },
                        Err(TransportError::Unreachable) => Event::Unreachable {
                            peer: old(ring)@.successors[0],
                        },
                    })
                },
            (r matches Some(event) && event is Answer && final(ring)@.successors.len() > 0)
                ==> exists|told: &mut T, sent: Result<(), TransportError>|
                {
                    &&& mut_ref_future(told) == *final(transport)
                    &&& #[trigger] call_ensures(
                        T::send_fire_and_forget,
                        (told, final(ring)@.successors[0], final(ring)@.did),
                        sent,
                    )
                },
            r is None ==> *final(transport) == *old(transport),
    {
        let asked = self.step(ring, &Event::Tick);
        match asked {
            Action::Query { peer } => {
                let reply = transport.send_request(peer);
                let event = reply_event(peer, reply);
                let action = self.step(ring, &event);
                match action {
                    Action::Notify { peer: first, candidate } => {
                        let _ = transport.send_fire_and_forget(first, candidate);
                    },
                    _ => {},
                }
                Some(event)
            },
            _ => None,
        }
    }

    /// Takes the next event that waits at `transport`, by one call of its
    /// `poll_event`, applies it to the ring, and returns it with what is to
    /// be sent. Returns nothing, and changes nothing, where that call gives
    /// no event.
    pub fn dispatch_next<T: IceTransportCallback>(
        &mut self,
        ring: &mut PeerRing,
        transport: &mut T,
    ) -> (r: Option<(Event, Action)>)
        requires
            old(ring).wf(),
        ensures
            final(ring).wf(),
            final(self).timeout_of() == old(self).timeout_of(),
            r is None ==> final(ring)@ == old(ring)@ && final(self).phase_of() == old(
                self,
            ).phase_of(),
            r matches Some(pair) ==> (Outcome {
                phase: final(self).phase_of(),
                ring: final(ring)@,
                action: pair.1,
            }) == next(old(self).phase_of(), old(ring)@, pair.0),
            exists|asked: &mut T, polled: Option<Event>|
                {
                    &&& mut_ref_current(asked) == *old(transport)
                    &&& mut_ref_future(asked) == *final(transport)
                    &&& #[trigger] call_ensures(T::poll_event, (asked,), polled)
                    &&& polled is None ==> r is None
                    &&& polled matches Some(event) ==> (r matches Some(pair) && pair.0 == event)
                },
    {
        match transport.poll_event() {
            Some(event) => {
                let action = self.step(ring, &event);
                Some((event, action))
            },
            None => None,
        }
    }
}

} // verus!
