use kadnode::distance::distance;
use kadnode::node::Node;
use kadnode::query::{PeerState, Query};

#[test]
fn empty_table_query_ends_at_once_with_nothing() {
    let node = Node::new(0, 20);
    let mut q = node.start_query(77, 3, 1000);
    assert!(q.candidates.is_empty());
    assert!(q.next_round(0).is_empty());
    assert!(q.is_finished());
    assert!(q.result().is_empty());
}

#[test]
fn query_where_every_peer_times_out_returns_nothing() {
    let mut q = Query::new(0, &vec![1, 2, 3], 20, 2, 100);
    loop {
        let sent = q.next_round(10);
        if sent.is_empty() {
            break;
        }
        for p in sent {
            assert!(q.on_failure(p));
        }
    }
    assert!(q.is_finished());
    assert!(q.result().is_empty());
}

#[test]
fn query_stops_at_deadline() {
    let mut q = Query::new(0, &vec![1, 2, 3], 20, 2, 100);
    assert_eq!(q.next_round(10), vec![1, 2]);
    assert!(q.next_round(20).is_empty());
    assert!(!q.is_finished());
    assert!(q.next_round(100).is_empty());
    assert!(q.is_finished());
    // Late answers no longer count.
    assert!(!q.on_response(1, &vec![9]));
    assert!(q.result().is_empty());
}

#[test]
fn expire_ends_query() {
    let mut q = Query::new(0, &vec![1], 20, 2, 50);
    assert!(!q.expire(49));
    assert!(q.expire(50));
    assert!(q.next_round(0).is_empty());
}

#[test]
fn shared_further_peer_is_merged_once() {
    let d: u64 = 0x80;
    let mut q = Query::new(d, &vec![1, 2, 3, 4, 5], 20, 2, 1_000);
    let mut rounds = 0;
    loop {
        let sent = q.next_round(0);
        if sent.is_empty() {
            break;
        }
        assert!(sent.len() <= 2);
        rounds += 1;
        for p in sent {
            assert!(q.on_response(p, &vec![d]));
        }
    }
    assert_eq!(rounds, 2);
    let r = q.result();
    assert_eq!(r.iter().filter(|&&x| x == d).count(), 1);
    assert!(r.len() <= 20);
    for w in r.windows(2) {
        assert!(distance(w[0], d) < distance(w[1], d));
    }
    assert_eq!(r, vec![d, 1, 2, 3]);
    assert_eq!(q.candidates.iter().filter(|c| c.id == d).count(), 1);
}

#[test]
fn round_picks_nearest_waiting_peers() {
    let mut q = Query::new(0, &vec![9, 3, 5, 1], 20, 2, 1_000);
    let ids: Vec<u64> = q.candidates.iter().map(|c| c.id).collect();
    assert_eq!(ids, vec![1, 3, 5, 9]);
    assert_eq!(q.next_round(0), vec![1, 3]);
    assert_eq!(q.candidates[0].state, PeerState::InFlight);
    assert_eq!(q.candidates[2].state, PeerState::Waiting);
    assert!(q.on_response(1, &vec![]));
    assert!(!q.on_response(1, &vec![]));
    assert!(q.on_failure(3));
    assert!(!q.on_failure(5));
    assert_eq!(q.candidates[0].state, PeerState::Succeeded);
    assert_eq!(q.candidates[1].state, PeerState::Failed);
    // Nothing nearer was found in the first round: the query ends.
    assert!(q.next_round(0).is_empty());
    assert!(q.is_finished());
    assert_eq!(q.result(), vec![1]);
}

#[test]
fn round_draws_only_from_first_k() {
    let mut q = Query::new(0, &vec![1, 2, 3, 4], 2, 3, 1_000);
    assert_eq!(q.next_round(0), vec![1, 2]);
}

#[test]
fn improving_answer_keeps_query_going() {
    let mut q = Query::new(0, &vec![8, 9], 20, 1, 1_000);
    assert_eq!(q.next_round(0), vec![8]);
    assert!(q.on_response(8, &vec![2, 9, 12]));
    assert!(q.improved);
    assert_eq!(q.next_round(0), vec![2]);
    assert!(q.on_response(2, &vec![]));
    assert!(!q.improved);
    assert!(q.next_round(0).is_empty());
    assert_eq!(q.result(), vec![2, 8]);
}

#[test]
fn result_is_capped_at_k() {
    let mut q = Query::new(0, &vec![1, 2, 3], 2, 3, 1_000);
    assert_eq!(q.next_round(0), vec![1, 2]);
    assert!(q.on_response(1, &vec![]));
    assert!(q.on_response(2, &vec![]));
    assert_eq!(q.result(), vec![1, 2]);
}
