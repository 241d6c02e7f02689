use ipfs_simulator::find_node::{count_contained, evaluate_closest_peers, FindNodeQuery};
use ipfs_simulator::key::Key;
use ipfs_simulator::keys_tree::KeysTree;
use ipfs_simulator::pool::QueriesPool;
use ipfs_simulator::query::{QueryId, QueryState, QueryTrigger};
use ipfs_simulator::storage::{LocalDHTStorage, LocalFileStorage, Record};
use ipfs_simulator::value_query::{GetValueQuery, PutValueQuery};

fn by_distance(peers: &[u32], target: &Key) -> Vec<u32> {
    let mut v = peers.to_vec();
    v.sort_by(|a, b| {
        let (da, db) = (Key::from_peer_id(*a).distance(target), Key::from_peer_id(*b).distance(target));
        if da.is_less(&db) {
            std::cmp::Ordering::Less
        } else if db.is_less(&da) {
            std::cmp::Ordering::Greater
        } else {
            std::cmp::Ordering::Equal
        }
    });
    v
}

#[test]
fn find_node_starts_with_a_request_to_itself() {
    let target = Key::from_sha256(b"target");
    let (query, request) = FindNodeQuery::new(QueryId(7), QueryTrigger::Bootstrap, target, 0, 2, 1);
    assert_eq!(request.query_id, QueryId(7));
    assert_eq!(request.key, target);
    assert_eq!(query.trigger(), QueryTrigger::Bootstrap);
    assert_eq!(query.target_key(), target);
}

#[test]
fn find_node_ignores_peers_it_does_not_wait_for() {
    let target = Key::from_sha256(b"target");
    let (mut query, _) = FindNodeQuery::new(QueryId(0), QueryTrigger::Manual, target, 0, 2, 1);
    match query.on_response(5, QueryId(0), vec![1, 2, 3]) {
        QueryState::InProgress(reqs) => assert!(reqs.is_empty()),
        QueryState::Completed(_) => panic!("completed on a foreign response"),
    }
}

#[test]
fn find_node_asks_the_closest_candidates_and_stops_on_k() {
    let target = Key::from_sha256(b"target");
    let (mut query, _) = FindNodeQuery::new(QueryId(3), QueryTrigger::Manual, target, 0, 2, 2);
    let order = by_distance(&[1, 2, 3, 4], &target);
    // the self response brings four candidates: the two closest are asked
    let asked: Vec<u32> = match query.on_response(0, QueryId(3), vec![1, 2, 3, 4, 2]) {
        QueryState::InProgress(reqs) => {
            assert!(reqs.iter().all(|(_, r)| r.query_id == QueryId(3) && r.key == target));
            reqs.iter().map(|(p, _)| *p).collect()
        }
        QueryState::Completed(_) => panic!("completed too early"),
    };
    assert_eq!(asked, vec![order[0], order[1]]);
    // a response with nothing new frees a slot for the third closest
    match query.on_response(order[0], QueryId(3), vec![]) {
        QueryState::InProgress(reqs) => {
            assert_eq!(reqs.iter().map(|(p, _)| *p).collect::<Vec<_>>(), vec![order[2]]);
        }
        QueryState::Completed(_) => panic!("completed too early"),
    }
    // with the two responded peers, a farther candidate remains: done
    let result = query.on_response(order[1], QueryId(3), vec![]);
    let responded = by_distance(&[0, order[0], order[1]], &target);
    match result {
        QueryState::Completed((key, peers)) => {
            assert_eq!(key, target);
            assert_eq!(peers, responded[..2].to_vec());
        }
        QueryState::InProgress(_) => panic!("the candidate left is farther than the 2nd closest"),
    }
}

#[test]
fn find_node_with_nobody_else_returns_itself() {
    let target = Key::from_sha256(b"target");
    let (mut query, _) = FindNodeQuery::new(QueryId(1), QueryTrigger::Manual, target, 9, 20, 3);
    match query.on_response(9, QueryId(1), vec![]) {
        QueryState::Completed((key, peers)) => {
            assert_eq!(key, target);
            assert_eq!(peers, vec![9]);
        }
        QueryState::InProgress(_) => panic!("nothing left to ask"),
    }
}

#[test]
fn evaluation_counts_the_true_closest() {
    let keys: Vec<Key> = (0..50u32).map(Key::from_peer_id).collect();
    let tree = KeysTree::new(&keys);
    let target = Key::from_sha256(b"t");
    let truth = tree.find_closest_peers(&target, 3);
    assert_eq!(evaluate_closest_peers(&tree, &target, &truth), 3);
    let mut wrong = truth.clone();
    wrong[0] = (0..50u32).find(|p| !truth.contains(p)).unwrap();
    assert_eq!(evaluate_closest_peers(&tree, &target, &wrong), 2);
    assert_eq!(count_contained(&[1, 2, 3, 4], &vec![4, 2, 9]), 2);
}

#[test]
fn get_value_caches_on_misses_and_completes_on_a_record() {
    let key = Key::from_sha256(b"data");
    let mut q = GetValueQuery::new(key, 2);
    assert_eq!(q.key(), key);
    for peer in [4, 5, 6] {
        assert!(matches!(q.on_response(peer, None), QueryState::InProgress(())));
    }
    let record = Record::new_provider_record(1, key, 100, 50);
    match q.on_response(8, Some(record)) {
        QueryState::Completed((found, reqs)) => {
            assert_eq!(found.key(), key);
            assert_eq!(found.expires_at, 150);
            assert_eq!(reqs.iter().map(|(p, _)| *p).collect::<Vec<_>>(), vec![4, 5]);
            assert!(reqs.iter().all(|(_, r)| r.key == key && r.record.providers() == &vec![1]));
        }
        QueryState::InProgress(_) => panic!("record found"),
    }
}

#[test]
fn put_value_keeps_its_record() {
    let key = Key::from_sha256(b"data");
    let q = PutValueQuery::new(Record::new_provider_record(3, key, 0, 10));
    assert_eq!(q.key(), key);
    assert_eq!(q.record().providers(), &vec![3]);
    let refreshed = q.record().refreshed(20, 10);
    assert_eq!(refreshed.expires_at, 30);
    assert_eq!(refreshed.key(), key);
    assert_eq!(Record::new_provider_record(3, key, u64::MAX - 1, 10).expires_at, u64::MAX);
}

#[test]
fn dht_storage_puts_replaces_and_expires() {
    let mut s = LocalDHTStorage::new();
    let a = Key::from_sha256(b"a");
    let b = Key::from_sha256(b"b");
    s.put(a, Record::new_provider_record(1, a, 0, 10));
    s.put(b, Record::new_provider_record(2, b, 0, 30));
    s.put(a, Record::new_provider_record(3, a, 5, 10));
    assert_eq!(s.get(&a).unwrap().providers(), &vec![3]);
    s.remove_expired(15);
    assert!(s.get(&a).is_none());
    assert!(s.get(&b).is_some());
    assert!(s.remove(&b));
    assert!(!s.remove(&b));
    s.put(a, Record::new_provider_record(1, a, 0, 10));
    s.clear();
    assert!(s.get(&a).is_none());
}

#[test]
fn file_storage_holds_content_by_key() {
    let mut s = LocalFileStorage::new();
    let a = Key::from_sha256(b"a");
    s.put(a, "hello".to_string());
    assert_eq!(s.get(&a), Some("hello".to_string()));
    assert!(s.remove(&a));
    assert_eq!(s.get(&a), None);
}

#[test]
fn pool_hands_out_increasing_ids_and_tracks_queries() {
    let mut pool = QueriesPool::new();
    assert_eq!(pool.next_query_id(), QueryId(0));
    assert_eq!(pool.next_query_id(), QueryId(1));
    pool.add_retrieve_data_query(QueryId(1));
    assert!(pool.remove_retrieve_data_query(QueryId(1)));
    assert!(!pool.remove_retrieve_data_query(QueryId(1)));
    let key = Key::from_sha256(b"k");
    pool.add_get_value_query(QueryId(4), GetValueQuery::new(key, 1));
    assert_eq!(pool.remove_get_value_query(QueryId(4)).map(|q| q.key()), Some(key));
    assert!(pool.remove_get_value_query(QueryId(4)).is_none());
    let (q, _) = FindNodeQuery::new(QueryId(5), QueryTrigger::Manual, key, 0, 20, 3);
    pool.add_find_node_query(QueryId(5), q);
    assert!(pool.remove_find_node_query(QueryId(5)).is_some());
    assert!(pool.remove_put_value_query(QueryId(5)).is_none());
}
