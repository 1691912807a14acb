use kadnode::distance::{bucket_index, distance, nearest};
use kadnode::routing::{Outcome, RejectReason, RoutingTable};

fn addr(n: u8) -> Vec<u8> {
    vec![4, 127, 0, 0, n]
}

#[test]
fn distance_is_xor() {
    assert_eq!(distance(0b0101, 0b0011), 0b0110);
    assert_eq!(distance(7, 7), 0);
    assert_eq!(distance(u64::MAX, 0), u64::MAX);
}

#[test]
fn bucket_index_is_highest_set_bit() {
    assert_eq!(bucket_index(1), 0);
    assert_eq!(bucket_index(2), 1);
    assert_eq!(bucket_index(3), 1);
    assert_eq!(bucket_index(0b0001_0000), 4);
    assert_eq!(bucket_index(u64::MAX), 63);
}

#[test]
fn closest_sorts_three_peers() {
    let mut t = RoutingTable::new(0b0000_0000, 20);
    assert_eq!(t.observe(0b0000_0001, addr(1)), Outcome::Inserted);
    assert_eq!(t.observe(0b0000_0010, addr(2)), Outcome::Inserted);
    assert_eq!(t.observe(0b0001_0000, addr(3)), Outcome::Inserted);
    assert_eq!(t.bucket_len(0b0000_0001), 1);
    assert_eq!(t.bucket_len(0b0000_0010), 1);
    assert_eq!(t.bucket_len(0b0001_0000), 1);
    // XOR with 0b11: 0b01 -> 2, 0b10 -> 1, 0b1_0000 -> 19.
    assert_eq!(distance(0b0000_0001, 0b0000_0011), 2);
    assert_eq!(distance(0b0000_0010, 0b0000_0011), 1);
    assert_eq!(t.closest(0b0000_0011, 2), vec![0b0000_0010, 0b0000_0001]);
}

#[test]
fn full_bucket_rejects_newcomer() {
    let mut t = RoutingTable::new(0, 2);
    // 4, 5 and 6 share bucket 2 as seen from 0.
    assert_eq!(t.observe(4, addr(1)), Outcome::Inserted);
    assert_eq!(t.observe(5, addr(2)), Outcome::Inserted);
    assert_eq!(t.observe(6, addr(3)), Outcome::Rejected(RejectReason::BucketFull));
    let mut held = t.peers();
    held.sort();
    assert_eq!(held, vec![4, 5]);
    assert_eq!(t.oldest_in_bucket(6), Some(4));
}

#[test]
fn buckets_stay_bounded_and_unique() {
    let mut t = RoutingTable::new(0x55, 3);
    for round in 0..3u64 {
        for id in 0..200u64 {
            t.observe(id.wrapping_mul(2654435761) ^ round, addr((id % 250) as u8));
        }
    }
    for probe in 0..300u64 {
        if probe != 0x55 {
            assert!(t.bucket_len(probe) <= 3);
        }
    }
    let mut held = t.peers();
    let n = held.len();
    held.sort();
    held.dedup();
    assert_eq!(held.len(), n);
    assert!(!t.has_peer(0x55));
}

#[test]
fn repeated_observe_only_refreshes() {
    let mut t = RoutingTable::new(0, 4);
    assert_eq!(t.observe(9, addr(1)), Outcome::Inserted);
    assert_eq!(t.observe(10, addr(2)), Outcome::Inserted);
    for _ in 0..5 {
        assert_eq!(t.observe(9, addr(1)), Outcome::Refreshed);
        assert_eq!(t.peers().len(), 2);
    }
    // 9 and 10 share bucket 3; 9 is now the most recently seen.
    assert_eq!(t.oldest_in_bucket(9), Some(10));
    let b = bucket_index(9);
    assert_eq!(t.buckets[b][1].id, 9);
    assert_eq!(t.buckets[b][1].addrs, vec![addr(1)]);
}

#[test]
fn refresh_merges_a_new_address() {
    let mut t = RoutingTable::new(0, 4);
    t.observe(9, addr(1));
    assert_eq!(t.observe(9, addr(2)), Outcome::Refreshed);
    let b = bucket_index(9);
    assert_eq!(t.buckets[b][0].addrs, vec![addr(1), addr(2)]);
}

#[test]
fn local_identity_is_never_held() {
    let mut t = RoutingTable::new(42, 4);
    assert_eq!(t.observe(42, addr(1)), Outcome::Rejected(RejectReason::LocalIdentity));
    assert!(!t.has_peer(42));
    assert!(t.peers().is_empty());
    assert_eq!(t.oldest_in_bucket(42), None);
}

#[test]
fn closest_returns_at_most_n_in_distance_order() {
    let mut t = RoutingTable::new(0, 20);
    for id in [3u64, 17, 200, 64, 65, 1000, 7] {
        t.observe(id, addr(1));
    }
    let r = t.closest(66, 4);
    assert_eq!(r.len(), 4);
    for w in r.windows(2) {
        assert!(distance(w[0], 66) < distance(w[1], 66));
    }
    assert_eq!(r, vec![64, 65, 3, 7]);
    let all = t.closest(66, 50);
    assert_eq!(all.len(), 7);
    assert!(t.closest(66, 0).is_empty());
}

#[test]
fn closest_on_empty_table_is_empty() {
    let t = RoutingTable::new(0, 20);
    assert!(t.closest(5, 3).is_empty());
}

#[test]
fn remove_drops_a_peer() {
    let mut t = RoutingTable::new(0, 2);
    t.observe(4, addr(1));
    t.observe(5, addr(2));
    assert!(t.remove(4));
    assert!(!t.remove(4));
    assert!(!t.has_peer(4));
    assert_eq!(t.observe(6, addr(3)), Outcome::Inserted);
    let mut held = t.peers();
    held.sort();
    assert_eq!(held, vec![5, 6]);
}

#[test]
fn nearest_ignores_duplicates_in_pool() {
    assert_eq!(nearest(&vec![8, 1, 8, 2, 1], 0, 5), vec![1, 2, 8]);
}
