use ipfs_simulator::bitarray::BitArray;
use ipfs_simulator::key::{Distance, Key};
use ipfs_simulator::keys_tree::KeysTree;
use ipfs_simulator::stats::QueriesStats;
use ipfs_simulator::topology::Topology;

fn lcg_keys(seed: u64, n: usize) -> Vec<Key> {
    let mut x = seed;
    let mut next = || {
        x = x.wrapping_mul(6364136223846793005).wrapping_add(1442695040888963407);
        x
    };
    (0..n).map(|_| Key { w0: next(), w1: next(), w2: next(), w3: next() }).collect()
}

#[test]
fn sha256_key_reads_the_digest_big_endian() {
    let k = Key::from_sha256(b"hello");
    assert_eq!(k.w0, 0x2cf24dba5fb0a30e);
    assert_eq!(k.w1, 0x26e83b2ac5b9e29e);
    assert_eq!(k.w2, 0x1b161e5c1fa7425e);
    assert_eq!(k.w3, 0x73043362938b9824);
    let e = Key::from_sha256(b"");
    assert_eq!(e.w0, 0xe3b0c44298fc1c14);
    assert_eq!(e.w3, 0xa495991b7852b855);
}

#[test]
fn sha256_key_is_deterministic() {
    assert_eq!(Key::from_sha256(b"abc"), Key::from_sha256(b"abc"));
    assert_ne!(Key::from_sha256(b"abc"), Key::from_sha256(b"abd"));
    assert_eq!(Key::from_peer_id(7), Key::from_sha256(&7u32.to_le_bytes()));
}

#[test]
fn distance_is_symmetric_and_zero_on_itself() {
    let a = Key::from_sha256(b"a");
    let b = Key::from_sha256(b"b");
    assert_eq!(a.distance(&b), b.distance(&a));
    assert_eq!(a.distance(&a), Distance { w0: 0, w1: 0, w2: 0, w3: 0 });
    assert_eq!(a.distance(&a).leading_zeros(), 256);
    assert_eq!(a.for_distance(&a.distance(&b)), b);
}

#[test]
fn leading_zeros_counts_across_words() {
    assert_eq!(Distance { w0: 1 << 63, w1: 0, w2: 0, w3: 0 }.leading_zeros(), 0);
    assert_eq!(Distance { w0: 1, w1: 0, w2: 0, w3: 0 }.leading_zeros(), 63);
    assert_eq!(Distance { w0: 0, w1: 1 << 60, w2: 0, w3: 5 }.leading_zeros(), 67);
    assert_eq!(Distance { w0: 0, w1: 0, w2: 0, w3: 1 }.leading_zeros(), 255);
}

#[test]
fn distances_compare_as_unsigned_integers() {
    let small = Distance { w0: 0, w1: u64::MAX, w2: u64::MAX, w3: u64::MAX };
    let big = Distance { w0: 1, w1: 0, w2: 0, w3: 0 };
    assert!(small.is_less(&big));
    assert!(!big.is_less(&small));
    assert!(!big.is_less(&big));
    assert!(big.not().is_less(&small.not()));
}

#[test]
fn random_in_bucket_lands_in_the_bucket() {
    let local = Key::from_sha256(b"local");
    for (i, r) in lcg_keys(1, 256).iter().enumerate() {
        let k = Key::random_in_bucket(&local, r, i);
        assert_eq!(local.distance(&k).leading_zeros() as usize, i);
    }
}

#[test]
fn keys_tree_finds_the_closest_keys() {
    let keys: Vec<Key> = (0..200u32).map(Key::from_peer_id).collect();
    let tree = KeysTree::new(&keys);
    for target in lcg_keys(9, 10) {
        for count in [1usize, 5, 20] {
            let found = tree.find_closest_keys(&target, count);
            let mut all: Vec<(Key, u32)> = keys.iter().cloned().zip(0u32..).collect();
            all.sort_by(|a, b| {
                let (da, db) = (a.0.distance(&target), b.0.distance(&target));
                if da.is_less(&db) {
                    std::cmp::Ordering::Less
                } else if db.is_less(&da) {
                    std::cmp::Ordering::Greater
                } else {
                    std::cmp::Ordering::Equal
                }
            });
            all.truncate(count);
            assert_eq!(found, all);
            let peers = tree.find_closest_peers(&target, count);
            assert_eq!(peers, all.iter().map(|e| e.1).collect::<Vec<_>>());
        }
    }
}

#[test]
fn keys_tree_of_one_key() {
    let keys = vec![Key::from_peer_id(0)];
    let tree = KeysTree::new(&keys);
    assert_eq!(tree.find_closest_peers(&Key::from_sha256(b"x"), 3), vec![0]);
    let empty = KeysTree::new(&[]);
    assert!(empty.find_closest_peers(&Key::from_sha256(b"x"), 3).is_empty());
}

#[test]
fn bit_array_reads_bits_from_the_low_end() {
    let a = BitArray::<2>([0b0000_0000, 0b0000_0100]);
    assert!(!a.get(0));
    assert!(a.get(10));
    assert_eq!(a.leading_zeros(), 10);
    assert_eq!(BitArray::<2>([0, 0]).leading_zeros(), 16);
    let x = a.bitxor(BitArray::<2>([1, 4]));
    assert_eq!(x.0, [1, 0]);
}

#[test]
fn topologies_allow_their_links() {
    assert!(Topology::Full.check_access(3, 90));
    let ring = Topology::Ring { first_id: 0, last_id: 49 };
    assert!(ring.check_access(4, 5));
    assert!(ring.check_access(5, 4));
    assert!(ring.check_access(49, 0));
    assert!(!ring.check_access(4, 6));
    assert!(!ring.check_access(7, 7));
    let star = Topology::Star { center_id: 0 };
    assert!(star.check_access(0, 8));
    assert!(star.check_access(8, 0));
    assert!(!star.check_access(8, 9));
}

#[test]
fn stats_merge_adds_every_counter() {
    let mut a = QueriesStats::new();
    a.find_node_queries_started = 2;
    a.closest_peers_total = 40;
    let mut b = QueriesStats::new();
    b.find_node_queries_started = 3;
    b.retrieve_data_queries_failed = 1;
    b.closest_peers_total = u64::MAX;
    a.merge(&b);
    assert_eq!(a.find_node_queries_started, 5);
    assert_eq!(a.retrieve_data_queries_failed, 1);
    assert_eq!(a.closest_peers_total, u64::MAX);
    assert_eq!(QueriesStats::new(), QueriesStats::default());
}

#[test]
fn keys_print_as_64_lowercase_hex_digits() {
    assert_eq!(
        Key::from_sha256(b"hello").to_hex(),
        "2cf24dba5fb0a30e26e83b2ac5b9e29e1b161e5c1fa7425e73043362938b9824"
    );
    let small = Key { w0: 0, w1: 0, w2: 0, w3: 0xab };
    assert_eq!(small.to_hex(), format!("{}ab", "0".repeat(62)));
}
