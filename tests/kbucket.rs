use ipfs_simulator::bucket::KBucketsTable;
use ipfs_simulator::key::Key;

const K: usize = 20;
const REFRESH: u64 = 600_000;

fn table_with_five_peers() -> KBucketsTable {
    let local_key = Key::from_sha256(b"bytes");
    let mut table = KBucketsTable::new(&local_key, K, REFRESH);
    table.add_peer(1, 0);
    table.add_peer(2, 0);
    table.add_peer(3, 0);
    table.add_peer(4, 0);
    table.add_peer(5, 0);
    table
}

#[test]
fn test_local_closest_peers_approximate() {
    let table = table_with_five_peers();

    // Test with count = 3
    let closest_peers = table.local_closest_peers_approximate(&Key::from_sha256(b"first"), 3);
    assert!([2, 3, 4].iter().any(|id| closest_peers.contains(id)));

    // Test with count = 5
    let closest_peers = table.local_closest_peers_approximate(&Key::from_sha256(b"all"), 5);
    assert_eq!(closest_peers.len(), 5);

    // Test with count = 10 (more than available peers)
    let closest_peers = table.local_closest_peers_approximate(&Key::from_sha256(b"all"), 10);
    assert_eq!(closest_peers.len(), 5);
}

#[test]
fn test_local_closest_peers_precise() {
    let table = table_with_five_peers();

    // Test with count = 3
    let closest_peers = table.local_closest_peers_precise(&Key::from_sha256(b"first"), 3);
    assert_eq!(closest_peers, vec![2, 3, 4]);

    // Test with count = 5
    let closest_peers = table.local_closest_peers_precise(&Key::from_sha256(b"all"), 5);
    assert_eq!(closest_peers.len(), 5);

    // Test with count = 10 (more than available peers)
    let closest_peers = table.local_closest_peers_precise(&Key::from_sha256(b"all"), 10);
    assert_eq!(closest_peers.len(), 5);
}

#[test]
fn test_add_peer() {
    let local_key = Key::from_sha256(&2u32.to_le_bytes());
    let mut table = KBucketsTable::new(&local_key, K, REFRESH);

    // Add a peer to an empty table
    assert_eq!(table.add_peer(1, 0), true);

    // Add a peer with the same key as the local key
    assert_eq!(table.add_peer(2, 0), false);

    assert_eq!(table.add_peer(3, 0), true);
    assert_eq!(table.add_peer(4, 0), true);
    assert_eq!(table.add_peer(3, 1), true);
    assert_eq!(table.add_peer(5, 2), true);
}

#[test]
fn buckets_follow_the_distance_from_the_local_key() {
    let table = table_with_five_peers();
    let local = table.local_key();
    // peers 3 and 4 share no leading bit with the local key, 1 shares one,
    // 5 six and 2 seven
    assert_eq!(table.buckets_count(), 8);
    for (peer, bucket) in [(1u32, 1u32), (2, 7), (3, 0), (4, 0), (5, 6)] {
        assert_eq!(local.distance(&Key::from_peer_id(peer)).leading_zeros(), bucket);
    }
}

#[test]
fn approximate_lookup_starts_from_the_matching_bucket() {
    let table = table_with_five_peers();
    // bucket 0 holds 3 then 4; "first" falls past the last bucket for none
    // of them, so with two wanted it returns that bucket as it is when sizes match
    let local = table.local_key();
    let target = local.for_distance(&ipfs_simulator::key::Distance { w0: 1 << 63, w1: 0, w2: 0, w3: 0 });
    let r = table.local_closest_peers_approximate(&target, 2);
    assert_eq!(r.len(), 2);
    assert!(r.contains(&3) && r.contains(&4));
    // one wanted from a bucket of two: the closer one
    let r = table.local_closest_peers_approximate(&target, 1);
    let d3 = Key::from_peer_id(3).distance(&target);
    let d4 = Key::from_peer_id(4).distance(&target);
    let expected = if d3.is_less(&d4) { 3 } else { 4 };
    assert_eq!(r, vec![expected]);
    // three wanted: bucket 0, then outward to bucket 1
    let r = table.local_closest_peers_approximate(&target, 3);
    assert_eq!(r.len(), 3);
    assert_eq!(r[2], 1);
}

#[test]
fn re_adding_a_present_peer_moves_it_without_growing() {
    let local_key = Key::from_sha256(b"bytes");
    let mut table = KBucketsTable::new(&local_key, K, REFRESH);
    table.add_peer(3, 0);
    table.add_peer(4, 0);
    // both in bucket 0: re-adding 3 keeps two peers, 3 last
    table.add_peer(3, 5);
    let target = local_key.for_distance(&ipfs_simulator::key::Distance { w0: 1 << 63, w1: 0, w2: 0, w3: 0 });
    let r = table.local_closest_peers_approximate(&target, 2);
    assert_eq!(r, vec![4, 3]);
}

#[test]
fn a_full_bucket_drops_newcomers_unless_an_entry_is_stale() {
    let local_key = Key::from_sha256(b"bytes");
    let mut table = KBucketsTable::new(&local_key, 1, 10);
    table.add_peer(3, 0);
    // bucket 0 is full with 3, seen at 0: at time 5 it is fresh
    assert!(table.add_peer(4, 5));
    let target = local_key.for_distance(&ipfs_simulator::key::Distance { w0: 1 << 63, w1: 0, w2: 0, w3: 0 });
    assert_eq!(table.local_closest_peers_approximate(&target, 1), vec![3]);
    // at time 11 it is stale and 4 replaces it
    assert!(table.add_peer(4, 11));
    assert_eq!(table.local_closest_peers_approximate(&target, 1), vec![4]);
}

#[test]
fn an_empty_table_knows_no_peers() {
    let table = KBucketsTable::new(&Key::from_sha256(b"bytes"), K, REFRESH);
    assert_eq!(table.buckets_count(), 0);
    assert!(table.local_closest_peers_approximate(&Key::from_sha256(b"x"), 5).is_empty());
    assert!(table.local_closest_peers_precise(&Key::from_sha256(b"x"), 5).is_empty());
    let full = table_with_five_peers();
    assert!(full.local_closest_peers_precise(&Key::from_sha256(b"x"), 0).is_empty());
}

#[test]
fn precise_lookup_keeps_the_closest() {
    let local_key = Key::from_sha256(b"bytes");
    let mut table = KBucketsTable::new(&local_key, K, REFRESH);
    for p in 1..60u32 {
        table.add_peer(p, 0);
    }
    let target = Key::from_sha256(b"target");
    let mut all: Vec<u32> = (1..60u32).filter(|p| Key::from_peer_id(*p) != local_key).collect();
    // keep only the peers the table holds: those of full buckets may be dropped
    let held = table.local_closest_peers_precise(&target, 1000);
    all.retain(|p| held.contains(p));
    all.sort_by(|a, b| {
        let (da, db) = (Key::from_peer_id(*a).distance(&target), Key::from_peer_id(*b).distance(&target));
        if da.is_less(&db) { std::cmp::Ordering::Less } else { std::cmp::Ordering::Greater }
    });
    let mut got = table.local_closest_peers_precise(&target, 7);
    got.sort_by(|a, b| {
        let (da, db) = (Key::from_peer_id(*a).distance(&target), Key::from_peer_id(*b).distance(&target));
        if da.is_less(&db) { std::cmp::Ordering::Less } else { std::cmp::Ordering::Greater }
    });
    assert_eq!(got, all[..7].to_vec());
}
