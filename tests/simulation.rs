use std::cmp::Reverse;
use std::collections::{BinaryHeap, HashMap};

use ipfs_simulator::key::Key;
use ipfs_simulator::keys_tree::KeysTree;
use ipfs_simulator::message::Message;
use ipfs_simulator::peer::{ilog2, Outgoing, Peer, PeerConfig};
use ipfs_simulator::query::QueryTrigger;
use ipfs_simulator::stats::QueriesStats;
use ipfs_simulator::topology::Topology;

struct Rng(u64);

impl Rng {
    fn next(&mut self) -> u64 {
        self.0 = self.0.wrapping_mul(6364136223846793005).wrapping_add(1442695040888963407);
        self.0 >> 11 ^ self.0
    }

    fn key(&mut self) -> Key {
        Key { w0: self.next(), w1: self.next(), w2: self.next(), w3: self.next() }
    }
}

/// A small event queue that delivers what the peers leave in their outboxes.
struct Sim {
    peers: Vec<Peer>,
    oracle: KeysTree,
    topology: Topology,
    delay: u64,
    now: u64,
    seq: u64,
    queue: BinaryHeap<Reverse<(u64, u64)>>,
    events: HashMap<u64, (u32, u32, Message)>,
}

impl Sim {
    fn new(n: u32, config: PeerConfig, topology: Topology, delay: u64, seed: u64) -> Sim {
        let keys: Vec<Key> = (0..n).map(Key::from_peer_id).collect();
        let oracle = KeysTree::new(&keys);
        let mut rng = Rng(seed);
        let mut peers: Vec<Peer> = (0..n).map(|i| Peer::new(i, config)).collect();
        for p in peers.iter_mut() {
            let draws = ilog2(n) * config.k;
            let entropy: Vec<Key> = (0..draws).map(|_| rng.key()).collect();
            p.fill_kbuckets_unfair(&oracle, n, &entropy);
        }
        Sim { peers, oracle, topology, delay, now: 0, seq: 0, queue: BinaryHeap::new(), events: HashMap::new() }
    }

    fn flush(&mut self, src: u32) {
        let out: Vec<Outgoing> = self.peers[src as usize].drain_outbox();
        for o in out {
            let delay = match o.delay {
                Some(d) => d,
                None if o.dst == src => 0,
                None if self.topology.check_access(src, o.dst) => self.delay,
                None => continue,
            };
            self.seq += 1;
            self.queue.push(Reverse((self.now + delay, self.seq)));
            self.events.insert(self.seq, (src, o.dst, o.message));
        }
    }

    fn step_until(&mut self, until: u64) {
        while let Some(Reverse((time, id))) = self.queue.peek().cloned() {
            if time > until {
                break;
            }
            self.queue.pop();
            self.now = time;
            let (src, dst, message) = self.events.remove(&id).unwrap();
            let peer = &mut self.peers[dst as usize];
            peer.set_time(time);
            peer.on_event(src, message, &vec![], &self.oracle);
            self.flush(dst);
        }
        if until > self.now {
            self.now = until;
        }
    }

    fn with_peer<T>(&mut self, id: u32, f: impl FnOnce(&mut Peer) -> T) -> T {
        let now = self.now;
        let peer = &mut self.peers[id as usize];
        peer.set_time(now);
        let r = f(peer);
        self.flush(id);
        r
    }

    fn stats(&mut self) -> QueriesStats {
        let mut s = QueriesStats::new();
        for p in self.peers.iter_mut() {
            s.merge(&p.stats());
        }
        s
    }
}

fn config() -> PeerConfig {
    PeerConfig {
        k: 20,
        alpha: 3,
        query_timeout: 60_000,
        record_expiration_interval: 3_600_000,
        record_publication_interval: 1_800_000,
        kbuckets_refresh_interval: 600_000,
        caching_max_peers: 20,
        enable_republishing: false,
    }
}

#[test]
fn every_completed_lookup_finds_the_true_closest() {
    let mut sim = Sim::new(100, config(), Topology::Full, 1_000, 42);
    let mut rng = Rng(7);
    for id in 0..100 {
        let key = rng.key();
        sim.with_peer(id, |p| p.find_random_node(QueryTrigger::Manual, &key));
    }
    sim.step_until(u64::MAX);
    let s = sim.stats();
    assert_eq!(s.find_node_queries_started, 100);
    assert!(s.find_node_queries_completed > 0);
    assert_eq!(s.closest_peers_total, 20 * s.find_node_queries_completed as u64);
    // a lookup stops once no candidate can improve on the k closest that
    // responded, so a closer peer still awaited can be missed
    assert!(s.closest_peers_correct * 100 >= s.closest_peers_total * 99);
}

#[test]
fn published_data_is_retrieved() {
    let mut sim = Sim::new(1000, config(), Topology::Full, 50, 1);
    let key = sim.with_peer(0, |p| p.publish_data("hello".to_string()));
    assert_eq!(key, Key::from_sha256(b"hello"));
    sim.step_until(10_000);
    sim.with_peer(7, |p| p.retrieve_data(key));
    sim.step_until(u64::MAX);
    let s = sim.stats();
    assert_eq!(s.retrieve_data_queries_started, 1);
    assert_eq!(s.retrieve_data_queries_completed, 1);
    assert_eq!(s.retrieve_data_queries_failed, 0);
}

#[test]
fn data_is_retrieved_over_a_ring() {
    let mut sim = Sim::new(50, config(), Topology::Ring { first_id: 0, last_id: 49 }, 10, 3);
    let key = sim.with_peer(0, |p| p.publish_data("ring".to_string()));
    sim.step_until(10_000);
    sim.with_peer(25, |p| p.retrieve_data(key));
    sim.step_until(u64::MAX);
    let s = sim.stats();
    assert_eq!(s.retrieve_data_queries_started, 1);
    // messages between peers that are not neighbours on the ring are
    // dropped, so the retrieval ends, but by a timeout
    assert_eq!(s.retrieve_data_queries_completed + s.retrieve_data_queries_failed, 1);
}

#[test]
fn expired_records_are_not_found() {
    let mut c = config();
    c.record_expiration_interval = 10_000;
    c.kbuckets_refresh_interval = 15_000;
    let mut sim = Sim::new(100, c, Topology::Full, 50, 5);
    let key = sim.with_peer(0, |p| p.publish_data("short-lived".to_string()));
    sim.step_until(20_000);
    // a refresh drops what has expired everywhere
    for id in 0..100 {
        sim.with_peer(id, |p| p.refresh_kbuckets_table(&vec![]));
    }
    sim.step_until(20_000);
    sim.with_peer(3, |p| p.retrieve_data(key));
    // refreshes go on forever: stop once every query has timed out
    sim.step_until(20_000 + 3 * 60_000);
    let s = sim.stats();
    assert_eq!(s.retrieve_data_queries_completed, 0);
    assert_eq!(s.retrieve_data_queries_failed, 1);
}

#[test]
fn retrieving_before_publishing_fails() {
    let mut sim = Sim::new(200, config(), Topology::Full, 50, 11);
    let key = Key::from_sha256(b"later");
    sim.with_peer(4, |p| p.retrieve_data(key));
    sim.step_until(200);
    sim.with_peer(9, |p| p.publish_data("later".to_string()));
    sim.step_until(u64::MAX);
    let s = sim.stats();
    assert_eq!(s.retrieve_data_queries_completed, 0);
    assert_eq!(s.retrieve_data_queries_failed, 1);
}

#[test]
fn a_peer_answers_requests_from_its_stores() {
    let mut peer = Peer::new(3, config());
    let key = peer.publish_data("content".to_string());
    let _ = peer.drain_outbox();
    peer.on_retrieve_data_request(8, ipfs_simulator::query::QueryId(2), key);
    let out = peer.drain_outbox();
    assert_eq!(out.len(), 1);
    assert_eq!(out[0].dst, 8);
    match &out[0].message {
        Message::RetrieveDataResponse(m) => assert_eq!(m.data, Some("content".to_string())),
        _ => panic!("expected content"),
    }
    peer.on_retrieve_data_request(8, ipfs_simulator::query::QueryId(2), Key::from_sha256(b"none"));
    assert!(peer.drain_outbox().is_empty());
    peer.remove_data(key);
    peer.on_get_value_request(8, ipfs_simulator::query::QueryId(5), key);
    match &peer.drain_outbox()[0].message {
        Message::GetValueResponse(m) => assert!(m.record.is_none()),
        _ => panic!("expected a GetValue response"),
    }
}

fn race(timedelta_ms: i64, blocks: usize, seed: u64) -> QueriesStats {
    let mut sim = Sim::new(1000, config(), Topology::Full, 50, seed);
    let mut rng = Rng(seed ^ 0x5eed);
    let data: Vec<String> = (0..blocks).map(|i| format!("file_{}", i)).collect();
    let keys: Vec<Key> = data.iter().map(|d| Key::from_sha256(d.as_bytes())).collect();
    let publish = |sim: &mut Sim, rng: &mut Rng| {
        for d in data.iter() {
            let id = (rng.next() % 1000) as u32;
            let d = d.clone();
            sim.with_peer(id, |p| p.publish_data(d));
        }
    };
    let retrieve = |sim: &mut Sim, rng: &mut Rng| {
        for k in keys.iter() {
            let id = (rng.next() % 1000) as u32;
            let k = *k;
            sim.with_peer(id, |p| p.retrieve_data(k));
        }
    };
    if timedelta_ms >= 0 {
        publish(&mut sim, &mut rng);
        sim.step_until(timedelta_ms as u64);
        retrieve(&mut sim, &mut rng);
    } else {
        retrieve(&mut sim, &mut rng);
        sim.step_until((-timedelta_ms) as u64);
        publish(&mut sim, &mut rng);
    }
    sim.step_until(u64::MAX);
    sim.stats()
}

#[test]
fn publishing_first_mostly_succeeds() {
    let s = race(200, 100, 21);
    assert_eq!(s.retrieve_data_queries_started, 100);
    assert!(s.retrieve_data_queries_completed >= 9 * s.retrieve_data_queries_failed);
    assert!(s.retrieve_data_queries_completed > 0);
}

#[test]
fn retrieving_first_mostly_fails() {
    let s = race(-200, 100, 22);
    assert_eq!(s.retrieve_data_queries_started, 100);
    assert!(s.retrieve_data_queries_failed >= 9 * s.retrieve_data_queries_completed);
}

#[test]
fn identical_runs_give_identical_stats() {
    let a = race(100, 20, 33);
    let b = race(100, 20, 33);
    assert_eq!(a, b);
}
