use rings_core::did::Did;
use rings_core::ring::{PeerRing, RingError, RingLookup};
use rings_core::stabilize::{
    reply_event, Action, Event, IceTransport, IceTransportCallback, Neighbours, Phase,
    Stabilization, TransportError,
};

fn id(n: u128) -> Did {
    Did::from_u128(n)
}

fn ids(ns: &[u128]) -> Vec<Did> {
    ns.iter().map(|n| id(*n)).collect()
}

/// A node of a network that lives in one process.
struct Node {
    ring: PeerRing,
    stabilization: Stabilization,
    alive: bool,
}

fn node(n: u128, capacity: usize) -> Node {
    Node { ring: PeerRing::new(id(n), capacity), stabilization: Stabilization::new(5), alive: true }
}

/// What one node can see of the others while it runs a round.
struct Wire {
    known: Vec<(Did, Option<Neighbours>)>,
    sent: Vec<(Did, Did)>,
    inbox: Vec<Event>,
    timeouts: bool,
}

impl IceTransport for Wire {
    fn send_request(&mut self, peer: Did) -> Result<Neighbours, TransportError> {
        for (d, n) in self.known.iter() {
            if *d == peer {
                if let Some(n) = n {
                    return Ok(n.clone());
                }
            }
        }
        if self.timeouts {
            Err(TransportError::Timeout)
        } else {
            Err(TransportError::Unreachable)
        }
    }

    fn send_fire_and_forget(&mut self, peer: Did, candidate: Did) -> Result<(), TransportError> {
        self.sent.push((peer, candidate));
        Ok(())
    }
}

impl IceTransportCallback for Wire {
    fn poll_event(&mut self) -> Option<Event> {
        if self.inbox.is_empty() {
            None
        } else {
            Some(self.inbox.remove(0))
        }
    }
}

fn wire_for(nodes: &[Node], timeouts: bool) -> Wire {
    let known = nodes
        .iter()
        .map(|n| {
            let told = if n.alive {
                Some(Neighbours {
                    predecessor: n.ring.predecessor(),
                    successor_list: n.ring.successor_list(),
                })
            } else {
                None
            };
            (n.ring.did(), told)
        })
        .collect();
    Wire { known, sent: vec![], inbox: vec![], timeouts }
}

/// One round of node `i`, with the notifies delivered at once.
fn run_round(nodes: &mut Vec<Node>, i: usize) -> Option<Event> {
    let mut wire = wire_for(nodes, true);
    let happened = {
        let n = &mut nodes[i];
        n.stabilization.stabilize(&mut n.ring, &mut wire)
    };
    for (peer, candidate) in wire.sent {
        for n in nodes.iter_mut() {
            if n.alive && n.ring.did() == peer {
                let action = n.stabilization.step(&mut n.ring, &Event::Notify { candidate });
                assert_eq!(action, Action::Nothing);
            }
        }
    }
    happened
}

fn connect(nodes: &mut Vec<Node>, a: usize, b: usize) {
    let da = nodes[a].ring.did();
    let db = nodes[b].ring.did();
    nodes[a].ring.join(db).unwrap();
    nodes[b].ring.join(da).unwrap();
}

#[test]
fn test_stabilization_once() {
    // the first node has the larger identifier
    let mut nodes = vec![node(9000, 3), node(70, 3)];
    connect(&mut nodes, 0, 1);
    assert!(nodes[0].ring.successor_list().contains(&id(70)));
    assert!(nodes[1].ring.successor_list().contains(&id(9000)));
    let happened = run_round(&mut nodes, 0);
    assert!(matches!(happened, Some(Event::Answer { .. })));
    assert_eq!(nodes[1].ring.predecessor(), Some(id(9000)));
    assert!(nodes[0].ring.successor_list().contains(&id(70)));
}

#[test]
fn test_stabilization() {
    let mut nodes = vec![node(9000, 3), node(70, 3)];
    connect(&mut nodes, 0, 1);
    assert!(nodes[0].ring.successor_list().contains(&id(70)));
    assert!(nodes[1].ring.successor_list().contains(&id(9000)));
    for _ in 0..3 {
        run_round(&mut nodes, 0);
        run_round(&mut nodes, 1);
    }
    assert_eq!(nodes[1].ring.predecessor(), Some(id(9000)));
    assert_eq!(nodes[0].ring.predecessor(), Some(id(70)));
    assert_eq!(nodes[0].ring.successor_list(), ids(&[70]));
    assert_eq!(nodes[1].ring.successor_list(), ids(&[9000]));
}

#[test]
fn test_online_stabilization() {
    let names: [u128; 6] = [40, 900, 17, 30000, 512, 6];
    let mut nodes: Vec<Node> = names.iter().map(|n| node(*n, 3)).collect();
    for other in 1..nodes.len() {
        connect(&mut nodes, 0, other);
    }
    for _ in 0..30 {
        for i in 0..nodes.len() {
            run_round(&mut nodes, i);
        }
    }
    for n in nodes.iter() {
        let mut expected = PeerRing::new(n.ring.did(), 3);
        for other in names.iter() {
            if id(*other) != n.ring.did() {
                expected.join(id(*other)).unwrap();
                expected.notify(id(*other)).unwrap();
            }
        }
        assert_eq!(n.ring.successor_list(), expected.successor_list());
        assert_eq!(n.ring.predecessor(), expected.predecessor());
    }
}

#[test]
fn unreachable_head_is_evicted_and_the_rest_keep_their_order() {
    let mut nodes = vec![node(100, 3), node(110, 3), node(120, 3), node(130, 3)];
    for other in 1..4 {
        connect(&mut nodes, 0, other);
    }
    assert_eq!(nodes[0].ring.successor_list(), ids(&[110, 120, 130]));
    nodes[1].alive = false;
    let happened = run_round(&mut nodes, 0);
    assert_eq!(happened, Some(Event::TimedOut { peer: id(110) }));
    assert_eq!(nodes[0].ring.successor_list(), ids(&[120, 130]));
    assert_eq!(nodes[0].stabilization.phase(), Phase::Idle);
}

#[test]
fn live_successor_comes_back_within_as_many_rounds_as_the_list_is_long() {
    let mut nodes =
        vec![node(100, 3), node(110, 3), node(120, 3), node(130, 3), node(140, 3), node(150, 3)];
    for other in 1..4 {
        connect(&mut nodes, 0, other);
    }
    connect(&mut nodes, 3, 4);
    connect(&mut nodes, 4, 5);
    nodes[1].alive = false;
    nodes[2].alive = false;
    let mut rounds = 0;
    loop {
        let head = nodes[0].ring.successor().unwrap();
        if nodes.iter().any(|n| n.alive && n.ring.did() == head) {
            break;
        }
        run_round(&mut nodes, 0);
        rounds += 1;
        assert!(rounds <= 3);
    }
    assert_eq!(rounds, 2);
    assert_eq!(nodes[0].ring.successor(), Some(id(130)));
    // the next round learns from the live successor
    run_round(&mut nodes, 0);
    assert_eq!(nodes[0].ring.successor_list(), ids(&[130, 140]));
    assert_eq!(nodes[3].ring.predecessor(), Some(id(100)));
}

#[test]
fn round_without_successor_is_skipped() {
    let mut nodes = vec![node(100, 3)];
    assert_eq!(run_round(&mut nodes, 0), None);
    assert_eq!(nodes[0].stabilization.phase(), Phase::Idle);
    let n = &mut nodes[0];
    assert_eq!(n.stabilization.step(&mut n.ring, &Event::Tick), Action::Nothing);
    assert_eq!(n.stabilization.phase(), Phase::Idle);
}

#[test]
fn losing_the_last_successor_is_reported() {
    let mut ring = PeerRing::new(id(100), 3);
    ring.join(id(200)).unwrap();
    let mut st = Stabilization::new(5);
    assert_eq!(st.step(&mut ring, &Event::Tick), Action::Query { peer: id(200) });
    assert_eq!(st.phase(), Phase::Querying(id(200)));
    assert_eq!(st.step(&mut ring, &Event::Unreachable { peer: id(200) }), Action::Disconnected);
    assert_eq!(st.phase(), Phase::Idle);
    assert_eq!(ring.successor_list(), Vec::<Did>::new());
    // the node keeps ticking, and a join heals it
    assert_eq!(st.step(&mut ring, &Event::Tick), Action::Nothing);
    assert_eq!(
        st.step(&mut ring, &Event::Join { candidate: id(300) }),
        Action::Welcome { peer: id(300) }
    );
    assert_eq!(st.step(&mut ring, &Event::Tick), Action::Query { peer: id(300) });
}

#[test]
fn answer_takes_in_a_predecessor_that_lies_between() {
    let mut ring = PeerRing::new(id(100), 3);
    ring.join(id(200)).unwrap();
    let mut st = Stabilization::new(5);
    assert_eq!(st.step(&mut ring, &Event::Tick), Action::Query { peer: id(200) });
    let answer =
        Event::Answer { from: id(200), predecessor: Some(id(150)), successors: ids(&[300, 100]) };
    assert_eq!(
        st.step(&mut ring, &answer),
        Action::Notify { peer: id(150), candidate: id(100) }
    );
    assert_eq!(ring.successor_list(), ids(&[150, 200, 300]));
    assert_eq!(st.phase(), Phase::Idle);
}

#[test]
fn answer_passes_over_a_predecessor_that_lies_outside() {
    for outside in [50u128, 100, 200, 250] {
        let mut ring = PeerRing::new(id(100), 3);
        ring.join(id(200)).unwrap();
        let mut st = Stabilization::new(5);
        st.step(&mut ring, &Event::Tick);
        let answer =
            Event::Answer { from: id(200), predecessor: Some(id(outside)), successors: vec![] };
        assert_eq!(
            st.step(&mut ring, &answer),
            Action::Notify { peer: id(200), candidate: id(100) }
        );
        assert_eq!(ring.successor_list(), ids(&[200]));
    }
}

#[test]
fn late_answer_is_dropped() {
    let mut ring = PeerRing::new(id(100), 3);
    ring.join(id(200)).unwrap();
    let mut st = Stabilization::new(5);
    let answer =
        Event::Answer { from: id(200), predecessor: Some(id(150)), successors: ids(&[300]) };
    // nothing was asked
    assert_eq!(st.step(&mut ring, &answer), Action::Nothing);
    assert_eq!(ring.successor_list(), ids(&[200]));
    // somebody else was asked
    st.step(&mut ring, &Event::Tick);
    let other = Event::Answer { from: id(300), predecessor: None, successors: ids(&[400]) };
    assert_eq!(st.step(&mut ring, &other), Action::Nothing);
    assert_eq!(ring.successor_list(), ids(&[200]));
    assert_eq!(st.phase(), Phase::Querying(id(200)));
    // a time-out for somebody else counts for nothing either
    assert_eq!(st.step(&mut ring, &Event::TimedOut { peer: id(300) }), Action::Nothing);
    assert_eq!(st.phase(), Phase::Querying(id(200)));
}

#[test]
fn tick_during_a_round_starts_no_second_one() {
    let mut ring = PeerRing::new(id(100), 3);
    ring.join(id(200)).unwrap();
    let mut st = Stabilization::new(5);
    assert_eq!(st.step(&mut ring, &Event::Tick), Action::Query { peer: id(200) });
    assert_eq!(st.step(&mut ring, &Event::Tick), Action::Nothing);
    assert_eq!(st.phase(), Phase::Querying(id(200)));
}

#[test]
fn peer_found_gone_leaves_at_any_time() {
    let mut ring = PeerRing::new(id(100), 3);
    ring.join_all(&ids(&[200, 300]));
    ring.notify(id(300)).unwrap();
    let mut st = Stabilization::new(5);
    st.step(&mut ring, &Event::Tick);
    assert_eq!(st.step(&mut ring, &Event::Unreachable { peer: id(300) }), Action::Nothing);
    assert_eq!(ring.successor_list(), ids(&[200]));
    assert_eq!(ring.predecessor(), None);
    assert_eq!(st.phase(), Phase::Querying(id(200)));
}

#[test]
fn inbound_lookup_is_answered() {
    let mut ring = PeerRing::new(id(100), 3);
    ring.join_all(&ids(&[200, 300]));
    let mut st = Stabilization::new(5);
    assert_eq!(
        st.step(&mut ring, &Event::FindSuccessor { key: id(150) }),
        Action::Reply { result: RingLookup::Local }
    );
    assert_eq!(
        st.step(&mut ring, &Event::FindSuccessor { key: id(350) }),
        Action::Reply { result: RingLookup::Remote(id(300)) }
    );
}

#[test]
fn inbound_notify_sets_the_predecessor() {
    let mut ring = PeerRing::new(id(100), 3);
    let mut st = Stabilization::new(5);
    assert_eq!(st.step(&mut ring, &Event::Notify { candidate: id(50) }), Action::Nothing);
    assert_eq!(ring.predecessor(), Some(id(50)));
    assert_eq!(
        st.step(&mut ring, &Event::Notify { candidate: id(100) }),
        Action::Refuse { error: RingError::SelfReference }
    );
    assert_eq!(ring.predecessor(), Some(id(50)));
}

#[test]
fn stopped_node_does_nothing() {
    let mut ring = PeerRing::new(id(100), 3);
    ring.join(id(200)).unwrap();
    let mut st = Stabilization::new(5);
    st.step(&mut ring, &Event::Tick);
    assert_eq!(st.step(&mut ring, &Event::Shutdown), Action::Nothing);
    assert_eq!(st.phase(), Phase::Stopped);
    // the answer to the question that was under way is dropped
    let answer = Event::Answer { from: id(200), predecessor: None, successors: ids(&[300]) };
    assert_eq!(st.step(&mut ring, &answer), Action::Nothing);
    assert_eq!(st.step(&mut ring, &Event::Tick), Action::Nothing);
    assert_eq!(st.step(&mut ring, &Event::Join { candidate: id(300) }), Action::Nothing);
    assert_eq!(st.step(&mut ring, &Event::Notify { candidate: id(50) }), Action::Nothing);
    assert_eq!(st.step(&mut ring, &Event::Unreachable { peer: id(200) }), Action::Nothing);
    assert_eq!(ring.successor_list(), ids(&[200]));
    assert_eq!(ring.predecessor(), None);
    assert_eq!(st.phase(), Phase::Stopped);
    let mut nodes = vec![Node { ring, stabilization: st, alive: true }];
    assert_eq!(run_round(&mut nodes, 0), None);
}

#[test]
fn timeout_is_kept() {
    let st = Stabilization::new(5);
    assert_eq!(st.get_timeout(), 5);
    assert_eq!(st.phase(), Phase::Idle);
}

#[test]
fn reply_becomes_the_event_it_stands_for() {
    let told = Neighbours { predecessor: Some(id(3)), successor_list: ids(&[4, 5]) };
    assert_eq!(
        reply_event(id(9), Ok(told)),
        Event::Answer { from: id(9), predecessor: Some(id(3)), successors: ids(&[4, 5]) }
    );
    assert_eq!(reply_event(id(9), Err(TransportError::Timeout)), Event::TimedOut { peer: id(9) });
    assert_eq!(
        reply_event(id(9), Err(TransportError::Unreachable)),
        Event::Unreachable { peer: id(9) }
    );
}

#[test]
fn explicit_unreachability_evicts_like_a_timeout() {
    let mut nodes = vec![node(100, 3), node(110, 3), node(120, 3)];
    connect(&mut nodes, 0, 1);
    connect(&mut nodes, 0, 2);
    nodes[1].alive = false;
    let mut wire = wire_for(&nodes, false);
    let n = &mut nodes[0];
    let happened = n.stabilization.stabilize(&mut n.ring, &mut wire);
    assert_eq!(happened, Some(Event::Unreachable { peer: id(110) }));
    assert_eq!(n.ring.successor_list(), ids(&[120]));
    assert!(wire.sent.is_empty());
}

#[test]
fn waiting_events_are_dispatched_in_order() {
    let mut ring = PeerRing::new(id(100), 3);
    let mut st = Stabilization::new(5);
    let mut wire = Wire {
        known: vec![],
        sent: vec![],
        inbox: vec![
            Event::Join { candidate: id(200) },
            Event::Notify { candidate: id(50) },
            Event::FindSuccessor { key: id(300) },
        ],
        timeouts: true,
    };
    assert_eq!(
        st.dispatch_next(&mut ring, &mut wire),
        Some((Event::Join { candidate: id(200) }, Action::Welcome { peer: id(200) }))
    );
    assert_eq!(
        st.dispatch_next(&mut ring, &mut wire),
        Some((Event::Notify { candidate: id(50) }, Action::Nothing))
    );
    assert_eq!(
        st.dispatch_next(&mut ring, &mut wire),
        Some((
            Event::FindSuccessor { key: id(300) },
            Action::Reply { result: RingLookup::Remote(id(200)) }
        ))
    );
    assert_eq!(st.dispatch_next(&mut ring, &mut wire), None);
    assert_eq!(ring.successor_list(), ids(&[200]));
    assert_eq!(ring.predecessor(), Some(id(50)));
}

#[test]
fn interval_must_be_longer_than_the_request_timeout() {
    let t = rings_core::stabilize::Timing::new(5, 3).unwrap();
    assert_eq!(t.interval(), 5);
    assert_eq!(t.request_timeout(), 3);
    assert_eq!(rings_core::stabilize::Timing::new(3, 3), None);
    assert_eq!(rings_core::stabilize::Timing::new(2, 3), None);
    assert!(rings_core::stabilize::Timing::new(1, 0).is_some());
}

#[test]
fn inbound_join_is_welcomed_or_refused() {
    let mut ring = PeerRing::new(id(100), 2);
    let mut st = Stabilization::new(5);
    assert_eq!(
        st.step(&mut ring, &Event::Join { candidate: id(300) }),
        Action::Welcome { peer: id(300) }
    );
    assert_eq!(
        st.step(&mut ring, &Event::Join { candidate: id(100) }),
        Action::Refuse { error: RingError::SelfReference }
    );
    assert_eq!(ring.successor_list(), ids(&[300]));
    // a peer that is known already is welcome again
    assert_eq!(
        st.step(&mut ring, &Event::Join { candidate: id(300) }),
        Action::Welcome { peer: id(300) }
    );
    assert_eq!(ring.successor_list(), ids(&[300]));
}

#[test]
fn stabilization_takes_its_interval_from_the_timing() {
    let timing = rings_core::stabilize::Timing::new(7, 2).unwrap();
    let st = Stabilization::with_timing(timing);
    assert_eq!(st.get_timeout(), 7);
    assert_eq!(st.phase(), Phase::Idle);
}

#[test]
fn answer_of_the_wrong_kind_counts_as_unreachable() {
    let told = Neighbours { predecessor: None, successor_list: ids(&[4]) };
    assert_eq!(rings_core::stabilize::expect_neighbours(Ok(Some(told.clone()))), Ok(told));
    assert_eq!(
        rings_core::stabilize::expect_neighbours(Ok(None)),
        Err(TransportError::Unreachable)
    );
    assert_eq!(
        rings_core::stabilize::expect_neighbours(Err(TransportError::Timeout)),
        Err(TransportError::Timeout)
    );
}

#[test]
fn node_tells_its_neighbours_until_it_is_stopped() {
    let mut ring = PeerRing::new(id(100), 3);
    ring.join_all(&ids(&[200, 300]));
    ring.notify(id(50)).unwrap();
    let mut st = Stabilization::new(5);
    assert_eq!(
        st.neighbours(&ring),
        Some(Neighbours { predecessor: Some(id(50)), successor_list: ids(&[200, 300]) })
    );
    st.step(&mut ring, &Event::Shutdown);
    assert_eq!(st.neighbours(&ring), None);
}
