use kadnode::node::{Action, Event, Node};
use kadnode::routing::{Outcome, RejectReason};

#[test]
fn discovery_feeds_table() {
    let mut n = Node::new(0, 2);
    let a = n.handle(Event::Discovered { id: 4, addr: vec![1] });
    assert_eq!(a, Action::Observed(Outcome::Inserted));
    let a = n.handle(Event::Responded { id: 4, addr: vec![2] });
    assert_eq!(a, Action::Observed(Outcome::Refreshed));
    assert!(n.table.has_peer(4));
}

#[test]
fn full_bucket_asks_for_probe_then_failed_probe_frees_room() {
    let mut n = Node::new(0, 2);
    n.handle(Event::Discovered { id: 4, addr: vec![1] });
    n.handle(Event::Discovered { id: 5, addr: vec![1] });
    let a = n.handle(Event::Discovered { id: 6, addr: vec![1] });
    assert_eq!(a, Action::Probe { stale: 4, candidate: 6 });
    assert_eq!(n.handle(Event::ProbeFailed { id: 4 }), Action::Removed(true));
    let a = n.handle(Event::Discovered { id: 6, addr: vec![1] });
    assert_eq!(a, Action::Observed(Outcome::Inserted));
}

#[test]
fn zero_capacity_rejects_without_probe() {
    let mut n = Node::new(0, 0);
    let a = n.handle(Event::Discovered { id: 4, addr: vec![1] });
    assert_eq!(a, Action::Observed(Outcome::Rejected(RejectReason::BucketFull)));
}

#[test]
fn listen_address_changes_nothing() {
    let mut n = Node::new(0, 2);
    assert_eq!(n.handle(Event::ListenAddr { addr: vec![1, 2] }), Action::Idle);
    assert!(n.table.peers().is_empty());
}

#[test]
fn shutdown_stops_the_loop() {
    let mut n = Node::new(0, 2);
    assert_eq!(n.handle(Event::Shutdown), Action::Stop);
    assert!(!n.running);
    assert_eq!(n.handle(Event::Discovered { id: 4, addr: vec![1] }), Action::Idle);
    assert!(!n.table.has_peer(4));
}

#[test]
fn query_is_seeded_from_table() {
    let mut n = Node::new(0, 2);
    for id in [1u64, 2, 3, 8, 9] {
        n.handle(Event::Discovered { id, addr: vec![0] });
    }
    let q = n.start_query(1, 3, 500);
    let ids: Vec<u64> = q.candidates.iter().map(|c| c.id).collect();
    assert_eq!(ids, vec![1, 3]);
    assert_eq!(q.k, 2);
    assert_eq!(q.alpha, 3);
}
