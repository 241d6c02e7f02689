//! The k-bucket routing table of a peer.
use vstd::prelude::*;
use vstd::pervasive::VecAdditionalExecFns;

use crate::key::{key_xor, lemma_distance_order, peer_key, Distance, Key};
use crate::order::{peer_dist, sort_by_distance, sorted_asc};
use crate::PeerId;

verus! {

/// A peer in a bucket, with the time it was last seen.
#[derive(Clone, Copy, PartialEq, Eq, Structural, Debug)]
pub struct KBucketEntry {
    pub peer_id: PeerId,
    pub last_seen: u64,
}

/// Represents a Kademlia buckets table.
#[derive(Debug)]
pub struct KBucketsTable {
    local_key: Key,
    buckets: Vec<Vec<KBucketEntry>>,
    k: usize,
    refresh_interval: u64,
}

/// The index of the bucket that a peer belongs in, seen from `local`.
pub open spec fn bucket_index(local: Key, p: PeerId) -> int {
    key_xor(local, peer_key(p)).spec_leading_zeros()
}

/// An entry last seen more than `interval` before `now`.
pub open spec fn is_stale(e: KBucketEntry, now: u64, interval: u64) -> bool {
    now > e.last_seen && now - e.last_seen > interval
}

/// The index of the last stale entry of `b`, or -1.
pub open spec fn last_stale(b: Seq<KBucketEntry>, now: u64, interval: u64) -> int
    decreases b.len(),
{
    if b.len() == 0 {
        -1
    } else if is_stale(b.last(), now, interval) {
        b.len() - 1
    } else {
        last_stale(b.drop_last(), now, interval)
    }
}

pub open spec fn holds_peer(b: Seq<KBucketEntry>, p: PeerId) -> bool {
    exists|i: int| 0 <= i < b.len() && b[i].peer_id == p
}

/// What a bucket becomes when `p` is acknowledged at `now`: a present peer
/// moves to the tail; a new one is appended while there is room, else it
/// replaces the last stale entry, else it is dropped.
pub open spec fn bucket_after_add(
    b: Seq<KBucketEntry>,
    p: PeerId,
    now: u64,
    k: nat,
    interval: u64,
) -> Seq<KBucketEntry> {
    let e = KBucketEntry { peer_id: p, last_seen: now };
    if holds_peer(b, p) {
        let i = choose|i: int| 0 <= i < b.len() && b[i].peer_id == p;
        b.remove(i).push(e)
    } else if b.len() < k {
        b.push(e)
    } else if last_stale(b, now, interval) >= 0 {
        b.remove(last_stale(b, now, interval)).push(e)
    } else {
        b
    }
}

/// The table `v` of the peer with key `local` after `p` is acknowledged at
/// `now`: unchanged for the local peer, else the bucket of `p` becomes
/// `bucket_after_add` of it, growing the table to reach that bucket.
pub open spec fn table_after_add(
    v: Seq<Seq<KBucketEntry>>,
    local: Key,
    p: PeerId,
    now: u64,
    k: nat,
    interval: u64,
) -> Seq<Seq<KBucketEntry>> {
    if peer_key(p) == local {
        v
    } else {
        let i = bucket_index(local, p);
        let n = if i < v.len() { v.len() as int } else { i + 1 };
        Seq::new(
            n as nat,
            |j: int|
                if j == i {
                    bucket_after_add(bucket_or_empty(v, i), p, now, k, interval)
                } else {
                    bucket_or_empty(v, j)
                },
        )
    }
}

/// Bucket `i` of `v`, or an empty bucket past the end.
pub open spec fn bucket_or_empty(v: Seq<Seq<KBucketEntry>>, i: int) -> Seq<KBucketEntry> {
    if 0 <= i < v.len() {
        v[i]
    } else {
        Seq::empty()
    }
}

pub open spec fn entry_ids(b: Seq<KBucketEntry>) -> Seq<PeerId> {
    b.map_values(|e: KBucketEntry| e.peer_id)
}

/// The ids of buckets `i`, `i + 1`, ... to the last, in that order.
pub open spec fn ids_upward(v: Seq<Seq<KBucketEntry>>, i: int) -> Seq<PeerId>
    decreases v.len() - i,
{
    if i < 0 || i >= v.len() {
        Seq::empty()
    } else {
        entry_ids(v[i]) + ids_upward(v, i + 1)
    }
}

/// The ids of buckets `i - 1`, `i - 2`, ..., `0`, in that order.
pub open spec fn ids_downward(v: Seq<Seq<KBucketEntry>>, i: int) -> Seq<PeerId>
    decreases i,
{
    if i <= 0 || i > v.len() {
        Seq::empty()
    } else {
        entry_ids(v[i - 1]) + ids_downward(v, i - 1)
    }
}

/// The first `n` items of `s`, or all of them if there are fewer.
pub open spec fn prefix<T>(s: Seq<T>, n: int) -> Seq<T> {
    if n <= s.len() {
        s.take(n)
    } else {
        s
    }
}

impl View for KBucketsTable {
    type V = Seq<Seq<KBucketEntry>>;

    closed spec fn view(&self) -> Seq<Seq<KBucketEntry>> {
        self.buckets@.map_values(|b: Vec<KBucketEntry>| b@)
    }
}

impl KBucketsTable {
    pub closed spec fn spec_local_key(&self) -> Key {
        self.local_key
    }

    pub closed spec fn spec_k(&self) -> nat {
        self.k as nat
    }

    pub closed spec fn spec_refresh_interval(&self) -> u64 {
        self.refresh_interval
    }

    /// Every entry sits in the bucket that its distance from the local key
    /// selects, no bucket holds more than `k` entries, and none holds a
    /// peer twice.
    pub open spec fn wf(&self) -> bool {
        &&& self.spec_k() >= 1
        &&& self@.len() <= 256
        &&& forall|i: int, j: int|
            0 <= i < self@.len() && 0 <= j < self@[i].len() ==> bucket_index(
                self.spec_local_key(),
                (#[trigger] self@[i][j]).peer_id,
            ) == i
        &&& forall|i: int| 0 <= i < self@.len() ==> (#[trigger] self@[i]).len() <= self.spec_k()
        &&& forall|i: int, a: int, b: int|
            0 <= i < self@.len() && 0 <= a < self@[i].len() && 0 <= b < self@[i].len() && a
                != b ==> (#[trigger] self@[i][a]).peer_id != (#[trigger] self@[i][b]).peer_id
    }

    /// Creates an empty table for the peer with `local_key`, with buckets of
    /// at most `k` peers; entries not seen for more than `refresh_interval`
    /// may be replaced.
    pub fn new(local_key: &Key, k: usize, refresh_interval: u64) -> (r: KBucketsTable)
        requires
            k >= 1,
        ensures
            r.wf(),
            r@.len() == 0,
            r.spec_local_key() == *local_key,
            r.spec_k() == k,
            r.spec_refresh_interval() == refresh_interval,
    {
        KBucketsTable { local_key: *local_key, buckets: Vec::new(), k, refresh_interval }
    }

    /// Returns the local key.
    pub fn local_key(&self) -> (r: Key)
        ensures
            r == self.spec_local_key(),
    {
        self.local_key
    }

    /// Returns the number of buckets in the table.
    pub fn buckets_count(&self) -> (r: usize)
        ensures
            r == self@.len(),
    {
        self.buckets.len()
    }

    /// Acknowledges `peer_id` at `curr_time`: it goes to the tail of the
    /// bucket that its distance from the local key selects, as
    /// `bucket_after_add` describes. Returns `false` for the local peer,
    /// which is never inserted, and `true` otherwise.
    pub fn add_peer(&mut self, peer_id: PeerId, curr_time: u64) -> (r: bool)
        requires
            old(self).wf(),
        ensures
            final(self).wf(),
            final(self).spec_local_key() == old(self).spec_local_key(),
            final(self).spec_k() == old(self).spec_k(),
            final(self).spec_refresh_interval() == old(self).spec_refresh_interval(),
            r == (peer_key(peer_id) != old(self).spec_local_key()),
            final(self)@ == table_after_add(
                old(self)@,
                old(self).spec_local_key(),
                peer_id,
                curr_time,
                old(self).spec_k(),
                old(self).spec_refresh_interval(),
            ),
            !r ==> final(self)@ == old(self)@,
            r ==> ({
                let i = bucket_index(old(self).spec_local_key(), peer_id);
                &&& final(self)@.len() == if i < old(self)@.len() {
                    old(self)@.len() as int
                } else {
                    i + 1
                }
                &&& forall|j: int|
                    0 <= j < final(self)@.len() && j != i ==> #[trigger] final(self)@[j]
                        == bucket_or_empty(old(self)@, j)
                &&& final(self)@[i] == bucket_after_add(
                    bucket_or_empty(old(self)@, i),
                    peer_id,
                    curr_time,
                    old(self).spec_k(),
                    old(self).spec_refresh_interval(),
                )
                &&& holds_peer(bucket_or_empty(old(self)@, i), peer_id) ==> {
                    &&& final(self)@[i].len() == old(self)@[i].len()
                    &&& final(self)@[i].last() == (KBucketEntry {
                        peer_id,
                        last_seen: curr_time,
                    })
                }
            }),
    {
        let key = Key::from_peer_id(peer_id);
        if key == self.local_key {
            return false;
        }
        let pos = self.local_key.distance(&key).leading_zeros() as usize;
        proof {
            crate::key::lemma_metric(self.local_key, key, Seq::empty(), Seq::empty());
        }
        let ghost old_v = self@;
        while self.buckets.len() <= pos
            invariant
                pos < 256,
                self.wf(),
                self.spec_local_key() == old(self).spec_local_key(),
                self.spec_k() == old(self).spec_k(),
                self.spec_refresh_interval() == old(self).spec_refresh_interval(),
                self@.len() >= old_v.len(),
                self@.len() <= old_v.len() || self@.len() <= pos + 1,
                forall|j: int| 0 <= j < self@.len() ==> #[trigger] self@[j] == bucket_or_empty(old_v, j),
            decreases pos + 1 - self.buckets.len(),
        {
            let ghost before = self@;
            self.buckets.push(Vec::new());
            assert(self@ =~= before.push(Seq::<KBucketEntry>::empty()));
            assert forall|j: int| 0 <= j < self@.len() implies #[trigger] self@[j] == bucket_or_empty(old_v, j) by {
                if j < before.len() {
                    assert(self@[j] == before[j]);
                }
            }
        }
        let ghost mid_v = self@;
        assert(mid_v[pos as int] == bucket_or_empty(old_v, pos as int));
        assert(mid_v[pos as int] == self.buckets@[pos as int]@);
        let mut bucket: Vec<KBucketEntry> = Vec::new();
        self.buckets.set_and_swap(pos, &mut bucket);
        let ghost b0 = bucket@;
        assert(b0 == bucket_or_empty(old_v, pos as int));
        let entry = KBucketEntry { peer_id, last_seen: curr_time };
        let mut found: Option<usize> = None;
        let mut i: usize = 0;
        while i < bucket.len()
            invariant
                bucket@ == b0,
                i <= bucket@.len(),
                found.is_none() ==> forall|j: int| 0 <= j < i ==> (#[trigger] bucket@[j]).peer_id != peer_id,
                found.is_some() ==> found.unwrap() < bucket@.len() && bucket@[found.unwrap() as int].peer_id == peer_id,
            decreases bucket@.len() - i,
        {
            if found.is_none() && bucket[i].peer_id == peer_id {
                found = Some(i);
            }
            i = i + 1;
        }
        match found {
            Some(idx) => {
                proof {
                    let c = choose|c: int| 0 <= c < b0.len() && b0[c].peer_id == peer_id;
                    assert(c == idx);
                }
                bucket.remove(idx);
                bucket.push(entry);
            },
            None => {
                if bucket.len() < self.k {
                    bucket.push(entry);
                } else {
                    let mut stale: Option<usize> = None;
                    let mut j: usize = 0;
                    while j < bucket.len()
                        invariant
                            bucket@ == b0,
                            j <= bucket@.len(),
                            match stale {
                                Some(s) => s as int == last_stale(b0.subrange(0, j as int), curr_time, self.refresh_interval),
                                None => last_stale(b0.subrange(0, j as int), curr_time, self.refresh_interval) == -1,
                            },
                        decreases bucket@.len() - j,
                    {
                        assert(b0.subrange(0, j + 1).drop_last() =~= b0.subrange(0, j as int));
                        let e = bucket[j];
                        if curr_time > e.last_seen && curr_time - e.last_seen > self.refresh_interval {
                            stale = Some(j);
                        }
                        j = j + 1;
                    }
                    assert(b0.subrange(0, b0.len() as int) =~= b0);
                    if let Some(s) = stale {
                        proof {
                            lemma_last_stale_range(b0, curr_time, self.refresh_interval);
                        }
                        bucket.remove(s);
                        bucket.push(entry);
                    }
                }
            },
        }
        proof {
            assert(bucket@ == bucket_after_add(b0, peer_id, curr_time, self.k as nat, self.refresh_interval));
            lemma_bucket_after_add_wf(b0, self.local_key, pos as int, peer_id, curr_time, self.k as nat, self.refresh_interval);
        }
        self.buckets.set(pos, bucket);
        proof {
            assert forall|j: int| 0 <= j < self@.len() && j != pos implies #[trigger] self@[j] == bucket_or_empty(old_v, j) by {
                assert(self@[j] == mid_v[j]);
            }
            assert(self@ =~= table_after_add(old_v, self.local_key, peer_id, curr_time, self.k as nat, self.refresh_interval));
        }
        true
    }

    /// All peers of the table, bucket by bucket.
    pub open spec fn all_ids(&self) -> Seq<PeerId> {
        ids_upward(self@, 0)
    }

    /// Returns the `count` peers of the table closest to `key` (all of them
    /// if there are fewer), scanning every entry and keeping the closest in
    /// a bounded max-heap keyed by distance; the peers come out in the
    /// heap's order.
    pub fn local_closest_peers_precise(&self, key: &Key, count: usize) -> (r: Vec<PeerId>)
        requires
            self.wf(),
        ensures
            r@.len() == if count < self.all_ids().len() { count as int } else { self.all_ids().len() as int },
            r@.no_duplicates(),
            forall|a: int| 0 <= a < r@.len() ==> self.all_ids().contains(#[trigger] r@[a]),
            forall|x: PeerId, a: int|
                self.all_ids().contains(x) && !r@.contains(x) && 0 <= a < r@.len()
                    ==> #[trigger] peer_dist(r@[a], *key).spec_le(#[trigger] peer_dist(x, *key)),
    {
        let ghost v = self@;
        proof {
            lemma_ids_upward(v, self.spec_local_key(), 0);
        }
        let mut heap: Vec<HeapItem> = Vec::new();
        let mut b: usize = 0;
        let ghost mut done: Seq<PeerId> = Seq::empty();
        while b < self.buckets.len()
            invariant
                self.wf(),
                v == self@,
                b <= v.len(),
                done + ids_upward(v, b as int) == ids_upward(v, 0),
                ids_upward(v, 0).no_duplicates(),
                heap_inv(heap@, done, *key, count as int),
            decreases v.len() - b,
        {
            let ids = self.bucket_ids(b);
            proof {
                assert(ids_upward(v, b as int) == entry_ids(v[b as int]) + ids_upward(v, b + 1));
            }
            let ghost done_b = done;
            let mut j: usize = 0;
            while j < ids.len()
                invariant
                    j <= ids@.len(),
                    done == done_b + ids@.subrange(0, j as int),
                    done_b + ids@ + ids_upward(v, b + 1) == ids_upward(v, 0),
                    ids_upward(v, 0).no_duplicates(),
                    heap_inv(heap@, done, *key, count as int),
                decreases ids@.len() - j,
            {
                let peer_id = ids[j];
                let dist = Key::from_peer_id(peer_id).distance(key);
                let ghost done_j = done;
                let ghost h0 = heap@;
                proof {
                    done = done_b + ids@.subrange(0, j + 1);
                    assert(done =~= done_j.push(peer_id));
                    let rest = ids@.subrange(j + 1, ids@.len() as int) + ids_upward(v, b + 1);
                    assert(done_j.push(peer_id) + rest =~= done_b + ids@ + ids_upward(v, b + 1));
                    lemma_prefix_fresh(done_j, peer_id, rest, ids_upward(v, 0));
                }
                if heap.len() < count {
                    proof {
                        assert(!h0.contains((dist, peer_id))) by {
                            if h0.contains((dist, peer_id)) {
                                let w = choose|w: int| 0 <= w < h0.len() && h0[w] == (dist, peer_id);
                                assert(done_j.contains(h0[w].1));
                            }
                        }
                    }
                    heap_push(&mut heap, (dist, peer_id));
                    proof {
                        lemma_heap_inv_push(h0, heap@, done_j, done, *key, count as int, (dist, peer_id));
                    }
                } else if heap.len() > 0 && dist.is_less(&heap[0].0) {
                    heap_pop(&mut heap);
                    let ghost h1 = heap@;
                    proof {
                        assert(!h1.contains((dist, peer_id))) by {
                            if h1.contains((dist, peer_id)) {
                                assert(h0.contains((dist, peer_id)));
                                let w = choose|w: int| 0 <= w < h0.len() && h0[w] == (dist, peer_id);
                                assert(done_j.contains(h0[w].1));
                            }
                        }
                    }
                    heap_push(&mut heap, (dist, peer_id));
                    proof {
                        lemma_heap_inv_replace(h0, h1, heap@, done_j, done, *key, count as int, (dist, peer_id));
                    }
                } else {
                    proof {
                        lemma_heap_inv_skip(h0, done_j, done, *key, count as int, (dist, peer_id));
                    }
                }
                j = j + 1;
            }
            proof {
                assert(ids@.subrange(0, ids@.len() as int) =~= ids@);
                assert(done + ids_upward(v, b + 1) =~= ids_upward(v, 0));
            }
            b = b + 1;
        }
        proof {
            assert(ids_upward(v, b as int) =~= Seq::<PeerId>::empty());
            assert(done =~= ids_upward(v, 0));
        }
        let mut r: Vec<PeerId> = Vec::new();
        let mut i: usize = 0;
        while i < heap.len()
            invariant
                i <= heap@.len(),
                r@ == heap_ids(heap@).subrange(0, i as int),
            decreases heap@.len() - i,
        {
            r.push(heap[i].1);
            assert(r@ =~= heap_ids(heap@).subrange(0, i + 1));
            i = i + 1;
        }
        proof {
            let hs = heap@;
            assert(r@ =~= heap_ids(hs));
            assert forall|x: PeerId| r@.contains(x) <==> heap_has(hs, x) by {
                if r@.contains(x) {
                    let w = choose|w: int| 0 <= w < r@.len() && r@[w] == x;
                    assert(hs[w].1 == x);
                }
                if heap_has(hs, x) {
                    let w = choose|w: int| 0 <= w < hs.len() && (#[trigger] hs[w]).1 == x;
                    assert(r@[w] == x);
                }
            }
            assert forall|x: int, y: int| 0 <= x < r@.len() && 0 <= y < r@.len() && x != y implies r@[x] != r@[y] by {
                assert(hs[x] != hs[y]);
                assert(hs[x].0 == peer_dist(hs[x].1, *key));
                assert(hs[y].0 == peer_dist(hs[y].1, *key));
            }
            assert forall|x: PeerId, a: int|
                self.all_ids().contains(x) && !r@.contains(x) && 0 <= a < r@.len()
                    implies #[trigger] peer_dist(r@[a], *key).spec_le(#[trigger] peer_dist(x, *key)) by {
                assert(hs[a].0 == peer_dist(hs[a].1, *key));
                assert(r@[a] == hs[a].1);
            }
            assert forall|a: int| 0 <= a < r@.len() implies self.all_ids().contains(#[trigger] r@[a]) by {
                assert(r@[a] == hs[a].1);
            }
        }
        r
    }

    /// The ids of the peers in bucket `i`, in order.
    fn bucket_ids(&self, i: usize) -> (r: Vec<PeerId>)
        requires
            i < self@.len(),
        ensures
            r@ == entry_ids(self@[i as int]),
    {
        let b = &self.buckets[i];
        let mut r: Vec<PeerId> = Vec::new();
        let mut j: usize = 0;
        while j < b.len()
            invariant
                j <= b@.len(),
                b@ == self@[i as int],
                r@ == entry_ids(b@.subrange(0, j as int)),
            decreases b@.len() - j,
        {
            r.push(b[j].peer_id);
            assert(entry_ids(b@.subrange(0, j + 1)) =~= entry_ids(b@.subrange(0, j as int)).push(b@[j as int].peer_id));
            j = j + 1;
        }
        assert(b@.subrange(0, b@.len() as int) =~= b@);
        r
    }

    /// The bucket that a lookup of `key` starts from: the one its distance
    /// from the local key selects, or the last bucket if there are fewer.
    pub open spec fn start_bucket(&self, key: Key) -> int {
        let lz = key_xor(self.spec_local_key(), key).spec_leading_zeros();
        if lz < self@.len() - 1 {
            lz
        } else {
            self@.len() - 1
        }
    }

    /// What `local_closest_peers_approximate` returns for `key` and `count`:
    /// nothing from an empty table; the `count` peers of the start bucket
    /// closest to `key` when that bucket holds more; else the peers of the
    /// buckets from the start bucket upward, then downward, cut to `count`.
    pub open spec fn approximate_result(&self, key: Key, count: nat, r: Seq<PeerId>) -> bool {
        &&& self@.len() == 0 ==> r.len() == 0
        &&& self@.len() > 0 && count < self@[self.start_bucket(key)].len() ==> {
            let b = entry_ids(self@[self.start_bucket(key)]);
            &&& r.len() == count
            &&& r.no_duplicates()
            &&& sorted_asc(r, key)
            &&& forall|a: int| 0 <= a < r.len() ==> b.contains(#[trigger] r[a])
            &&& forall|a: int| 0 <= a < b.len() && count > 0 && !r.contains(#[trigger] b[a])
                ==> peer_dist(r.last(), key).spec_le(peer_dist(b[a], key))
        }
        &&& self@.len() > 0 && count >= self@[self.start_bucket(key)].len() ==> r == prefix(
            ids_upward(self@, self.start_bucket(key)) + ids_downward(self@, self.start_bucket(key)),
            count as int,
        )
    }

    /// Returns up to `count` peers of the table near `key`, without a full
    /// scan. With `p` the start bucket: if bucket `p` holds more than
    /// `count` peers, its `count` closest to `key`, closest first; else the
    /// peers of buckets `p`, `p + 1`, ... to the last, then `p - 1`, ...,
    /// `0`, cut to `count`.
    pub fn local_closest_peers_approximate(&self, key: &Key, count: usize) -> (r: Vec<PeerId>)
        requires
            self.wf(),
        ensures
            self.approximate_result(*key, count as nat, r@),
    {
        if self.buckets.len() == 0 {
            return Vec::new();
        }
        let lz = self.local_key.distance(key).leading_zeros() as usize;
        let pos = if lz < self.buckets.len() - 1 { lz } else { self.buckets.len() - 1 };
        let blen = self.buckets[pos].len();
        if count == blen {
            let r = self.bucket_ids(pos);
            proof {
                reveal_with_fuel(ids_upward, 2);
                let full = ids_upward(self@, pos as int) + ids_downward(self@, pos as int);
                assert(full.take(count as int) =~= r@);
            }
            return r;
        }
        if count < blen {
            let ids = self.bucket_ids(pos);
            proof {
                let b = self@[pos as int];
                assert forall|x: int, y: int| 0 <= x < ids@.len() && 0 <= y < ids@.len() && x != y
                    implies ids@[x] != ids@[y] by {
                    assert(b[x].peer_id != b[y].peer_id);
                }
            }
            let sorted = sort_by_distance(&ids, key);
            let mut r = sorted;
            let ghost s = r@;
            r.truncate(count);
            proof {
                assert forall|a: int| 0 <= a < ids@.len() && count > 0 && !r@.contains(#[trigger] ids@[a])
                    implies peer_dist(r@.last(), *key).spec_le(peer_dist(ids@[a], *key)) by {
                    let j = choose|j: int| 0 <= j < s.len() && s[j] == ids@[a];
                    if j < count {
                        assert(r@[j] == ids@[a]);
                    } else {
                        assert(r@.last() == s[count - 1]);
                        assert(peer_dist(s[count - 1], *key).spec_le(peer_dist(s[j], *key)))
                            by {
                            if count - 1 < j {
                                assert(sorted_asc(s, *key));
                            }
                        }
                    }
                }
                assert forall|a: int| 0 <= a < r@.len() implies ids@.contains(#[trigger] r@[a]) by {
                    assert(r@[a] == s[a]);
                }
                assert forall|x: int, y: int| 0 <= x < r@.len() && 0 <= y < r@.len() && x != y
                    implies r@[x] != r@[y] by {
                    assert(r@[x] == s[x] && r@[y] == s[y]);
                }
            }
            return r;
        }
        let ghost v = self@;
        let ghost full = ids_upward(v, pos as int) + ids_downward(v, pos as int);
        let mut result: Vec<PeerId> = Vec::new();
        let mut i: usize = pos;
        while i < self.buckets.len() && result.len() < count
            invariant
                self.wf(),
                v == self@,
                pos < v.len(),
                pos <= i <= v.len(),
                full == ids_upward(v, pos as int) + ids_downward(v, pos as int),
                result@ + ids_upward(v, i as int) == ids_upward(v, pos as int),
            decreases v.len() - i,
        {
            let ids = self.bucket_ids(i);
            proof {
                assert(ids_upward(v, i as int) == entry_ids(v[i as int]) + ids_upward(v, i + 1));
                assert(result@ + ids@ + ids_upward(v, i + 1) =~= result@ + ids_upward(v, i as int));
            }
            let ghost before = result@;
            let mut j: usize = 0;
            while j < ids.len()
                invariant
                    j <= ids@.len(),
                    result@ == before + ids@.subrange(0, j as int),
                decreases ids@.len() - j,
            {
                result.push(ids[j]);
                assert(before + ids@.subrange(0, j + 1) =~= (before + ids@.subrange(0, j as int)).push(ids@[j as int]));
                j = j + 1;
            }
            assert(ids@.subrange(0, ids@.len() as int) =~= ids@);
            i = i + 1;
        }
        proof {
            assert(full =~= result@ + (ids_upward(v, i as int) + ids_downward(v, pos as int)));
        }
        let ghost rest_up = ids_upward(v, i as int);
        let mut i: usize = pos;
        while i != 0 && result.len() < count
            invariant
                self.wf(),
                v == self@,
                pos < v.len(),
                i <= pos,
                result@.len() <= full.len(),
                result@ == full.subrange(0, result@.len() as int),
                result@.len() < count ==> result@ + ids_downward(v, i as int) == full,
            decreases i,
        {
            proof {
                assert(ids_downward(v, i as int) == entry_ids(v[i - 1]) + ids_downward(v, i - 1));
            }
            i = i - 1;
            let ids = self.bucket_ids(i);
            proof {
                assert(result@ + ids@ + ids_downward(v, i as int) =~= full);
            }
            let ghost before = result@;
            let mut j: usize = 0;
            while j < ids.len()
                invariant
                    j <= ids@.len(),
                    result@ == before + ids@.subrange(0, j as int),
                decreases ids@.len() - j,
            {
                result.push(ids[j]);
                assert(before + ids@.subrange(0, j + 1) =~= (before + ids@.subrange(0, j as int)).push(ids@[j as int]));
                j = j + 1;
            }
            assert(ids@.subrange(0, ids@.len() as int) =~= ids@);
            proof {
                assert(full =~= result@ + ids_downward(v, i as int));
                assert(result@ =~= full.subrange(0, result@.len() as int));
            }
        }
        proof {
            if result@.len() < count {
                assert(ids_downward(v, 0) =~= Seq::<PeerId>::empty());
                assert(result@ =~= full);
            }
        }
        result.truncate(count);
        proof {
            if count <= full.len() {
                assert(result@ =~= full.take(count as int));
            }
        }
        result
    }
}


/// The peers of the heap's items, in the heap's order.
pub open spec fn heap_ids(h: Seq<HeapItem>) -> Seq<PeerId> {
    h.map_values(|e: HeapItem| e.1)
}

pub open spec fn heap_has(h: Seq<HeapItem>, x: PeerId) -> bool {
    exists|w: int| 0 <= w < h.len() && (#[trigger] h[w]).1 == x
}

/// The heap holds, for the peers seen so far, the `count` closest to
/// `key`, or all of them while there are fewer.
pub open spec fn heap_inv(h: Seq<HeapItem>, done: Seq<PeerId>, key: Key, count: int) -> bool {
    &&& heap_ok(h)
    &&& h.no_duplicates()
    &&& done.no_duplicates()
    &&& h.len() == if count < done.len() { count } else { done.len() as int }
    &&& forall|a: int| 0 <= a < h.len() ==> (#[trigger] h[a]).0 == peer_dist(h[a].1, key) && done.contains(h[a].1)
    &&& h.len() < count ==> forall|x: PeerId| done.contains(x) ==> #[trigger] heap_has(h, x)
    &&& forall|x: PeerId, a: int|
        done.contains(x) && !heap_has(h, x) && 0 <= a < h.len() ==> (#[trigger] h[a]).0.spec_le(#[trigger] peer_dist(x, key))
}

proof fn lemma_prefix_fresh(done_j: Seq<PeerId>, p: PeerId, rest: Seq<PeerId>, all: Seq<PeerId>)
    requires
        all.no_duplicates(),
        done_j.push(p) + rest == all,
    ensures
        !done_j.contains(p),
        done_j.push(p).no_duplicates(),
{
    let whole = done_j.push(p) + rest;
    assert forall|x: int, y: int| 0 <= x < done_j.len() + 1 && 0 <= y < done_j.len() + 1 && x != y implies done_j.push(p)[x] != done_j.push(p)[y] by {
        assert(whole[x] == done_j.push(p)[x]);
        assert(whole[y] == done_j.push(p)[y]);
    }
    if done_j.contains(p) {
        let w = choose|w: int| 0 <= w < done_j.len() && done_j[w] == p;
        assert(done_j.push(p)[w] == done_j.push(p)[done_j.len() as int]);
    }
}

proof fn lemma_heap_inv_push(h0: Seq<HeapItem>, h: Seq<HeapItem>, done_j: Seq<PeerId>, done: Seq<PeerId>, key: Key, count: int, item: HeapItem)
    requires
        heap_inv(h0, done_j, key, count),
        h0.len() < count,
        done == done_j.push(item.1),
        done.no_duplicates(),
        item.0 == peer_dist(item.1, key),
        heap_ok(h),
        h.no_duplicates(),
        h.len() == h0.len() + 1,
        forall|x: HeapItem| h.contains(x) <==> (h0.contains(x) || x == item),
    ensures
        heap_inv(h, done, key, count),
{
    assert forall|a: int| 0 <= a < h.len() implies (#[trigger] h[a]).0 == peer_dist(h[a].1, key) && done.contains(h[a].1) by {
        assert(h.contains(h[a]));
        if h[a] != item {
            let w = choose|w: int| 0 <= w < h0.len() && h0[w] == h[a];
            assert(done_j.contains(h0[w].1));
            let m = choose|m: int| 0 <= m < done_j.len() && done_j[m] == h0[w].1;
            assert(done[m] == h[a].1);
        } else {
            assert(done[done.len() - 1] == item.1);
        }
    }
    assert forall|x: PeerId| done.contains(x) implies #[trigger] heap_has(h, x) by {
        let m = choose|m: int| 0 <= m < done.len() && done[m] == x;
        if m < done_j.len() {
            assert(done_j[m] == x);
            assert(heap_has(h0, x));
            let w = choose|w: int| 0 <= w < h0.len() && (#[trigger] h0[w]).1 == x;
            assert(h0.contains(h0[w]));
            assert(h.contains(h0[w]));
            let u = choose|u: int| 0 <= u < h.len() && h[u] == h0[w];
            assert(h[u].1 == x);
        } else {
            assert(h.contains(item));
            let u = choose|u: int| 0 <= u < h.len() && h[u] == item;
            assert(h[u].1 == x);
        }
    }
}

proof fn lemma_heap_inv_replace(
    h0: Seq<HeapItem>,
    h1: Seq<HeapItem>,
    h: Seq<HeapItem>,
    done_j: Seq<PeerId>,
    done: Seq<PeerId>,
    key: Key,
    count: int,
    item: HeapItem,
)
    requires
        heap_inv(h0, done_j, key, count),
        h0.len() >= count,
        h0.len() > 0,
        item.0.spec_lt(h0[0].0),
        done == done_j.push(item.1),
        done.no_duplicates(),
        item.0 == peer_dist(item.1, key),
        forall|x: HeapItem| h1.contains(x) <==> (h0.contains(x) && x != h0[0]),
        h1.len() == h0.len() - 1,
        heap_ok(h),
        h.no_duplicates(),
        h.len() == h1.len() + 1,
        forall|x: HeapItem| h.contains(x) <==> (h1.contains(x) || x == item),
    ensures
        heap_inv(h, done, key, count),
{
    let r = h0[0];
    assert(h0.contains(r));
    assert forall|a: int| 0 <= a < h.len() implies (#[trigger] h[a]).0 == peer_dist(h[a].1, key) && done.contains(h[a].1) by {
        assert(h.contains(h[a]));
        if h[a] != item {
            assert(h1.contains(h[a]));
            let w = choose|w: int| 0 <= w < h0.len() && h0[w] == h[a];
            assert(done_j.contains(h0[w].1));
            let m = choose|m: int| 0 <= m < done_j.len() && done_j[m] == h0[w].1;
            assert(done[m] == h[a].1);
        } else {
            assert(done[done.len() - 1] == item.1);
        }
    }
    assert forall|x: PeerId, a: int|
        done.contains(x) && !heap_has(h, x) && 0 <= a < h.len() implies (#[trigger] h[a]).0.spec_le(#[trigger] peer_dist(x, key)) by {
        let ha = h[a];
        assert(h.contains(ha));
        let rd = r.0;
        // every item left is at most the removed root, and the new one is below it
        assert(ha.0.spec_le(rd)) by {
            if ha != item {
                assert(h1.contains(ha));
                let w = choose|w: int| 0 <= w < h0.len() && h0[w] == ha;
                lemma_root_max(h0, w);
            } else {
            }
        }
        let m = choose|m: int| 0 <= m < done.len() && done[m] == x;
        if m == done.len() - 1 {
            assert(x == item.1);
            assert(h.contains(item));
            let u = choose|u: int| 0 <= u < h.len() && h[u] == item;
            assert(heap_has(h, x));
        } else {
            assert(done_j[m] == x);
            assert(done_j.contains(x));
            if heap_has(h0, x) {
                let w = choose|w: int| 0 <= w < h0.len() && (#[trigger] h0[w]).1 == x;
                if h0[w] != r {
                    assert(h0.contains(h0[w]));
                    assert(h1.contains(h0[w]));
                    assert(h.contains(h0[w]));
                    let u = choose|u: int| 0 <= u < h.len() && h[u] == h0[w];
                    assert(heap_has(h, x));
                } else {
                    assert(r.0 == peer_dist(x, key));
                    lemma_distance_order(ha.0, rd, peer_dist(x, key));
                }
            } else {
                assert(h0[0].0.spec_le(peer_dist(x, key)));
                lemma_distance_order(ha.0, rd, peer_dist(x, key));
            }
        }
    }
}

proof fn lemma_heap_inv_skip(h0: Seq<HeapItem>, done_j: Seq<PeerId>, done: Seq<PeerId>, key: Key, count: int, item: HeapItem)
    requires
        heap_inv(h0, done_j, key, count),
        h0.len() >= count,
        h0.len() == 0 || !item.0.spec_lt(h0[0].0),
        done == done_j.push(item.1),
        done.no_duplicates(),
        item.0 == peer_dist(item.1, key),
    ensures
        heap_inv(h0, done, key, count),
{
    assert forall|a: int| 0 <= a < h0.len() implies (#[trigger] h0[a]).0 == peer_dist(h0[a].1, key) && done.contains(h0[a].1) by {
        let m = choose|m: int| 0 <= m < done_j.len() && done_j[m] == h0[a].1;
        assert(done[m] == h0[a].1);
    }
    assert forall|x: PeerId, a: int|
        done.contains(x) && !heap_has(h0, x) && 0 <= a < h0.len() implies (#[trigger] h0[a]).0.spec_le(#[trigger] peer_dist(x, key)) by {
        let m = choose|m: int| 0 <= m < done.len() && done[m] == x;
        if m == done.len() - 1 {
            lemma_root_max(h0, a);
            lemma_distance_order(h0[a].0, h0[0].0, item.0);
        } else {
            assert(done_j[m] == x);
        }
    }
}

/// The ids of buckets `b`, `b + 1`, ... repeat no peer, and each lies in a
/// bucket at or after `b`.
proof fn lemma_ids_upward(v: Seq<Seq<KBucketEntry>>, local: Key, b: int)
    requires
        0 <= b,
        forall|i: int, j: int|
            0 <= i < v.len() && 0 <= j < v[i].len() ==> bucket_index(local, (#[trigger] v[i][j]).peer_id) == i,
        forall|i: int, x: int, y: int|
            0 <= i < v.len() && 0 <= x < v[i].len() && 0 <= y < v[i].len() && x != y
                ==> (#[trigger] v[i][x]).peer_id != (#[trigger] v[i][y]).peer_id,
    ensures
        ids_upward(v, b).no_duplicates(),
        forall|a: int| 0 <= a < ids_upward(v, b).len() ==> bucket_index(local, #[trigger] ids_upward(v, b)[a]) >= b,
    decreases v.len() - b,
{
    if b < v.len() {
        lemma_ids_upward(v, local, b + 1);
        let head = entry_ids(v[b]);
        let tail = ids_upward(v, b + 1);
        let all = ids_upward(v, b);
        assert(all == head + tail);
        assert forall|a: int| 0 <= a < head.len() implies bucket_index(local, #[trigger] head[a]) == b by {
            assert(head[a] == v[b][a].peer_id);
        }
        assert forall|a: int| 0 <= a < all.len() implies bucket_index(local, #[trigger] all[a]) >= b by {
            if a < head.len() {
                assert(all[a] == head[a]);
            } else {
                assert(all[a] == tail[a - head.len()]);
            }
        }
        assert forall|x: int, y: int| 0 <= x < all.len() && 0 <= y < all.len() && x != y implies all[x] != all[y] by {
            if x < head.len() && y < head.len() {
                assert(all[x] == v[b][x].peer_id && all[y] == v[b][y].peer_id);
            } else if x < head.len() {
                assert(all[x] == head[x]);
                assert(all[y] == tail[y - head.len()]);
                assert(bucket_index(local, tail[y - head.len()]) >= b + 1);
            } else if y < head.len() {
                assert(all[y] == head[y]);
                assert(all[x] == tail[x - head.len()]);
                assert(bucket_index(local, tail[x - head.len()]) >= b + 1);
            } else {
                assert(all[x] == tail[x - head.len()]);
                assert(all[y] == tail[y - head.len()]);
            }
        }
    }
}

/// An entry of the heap: a distance and the peer at that distance, ordered
/// by distance, then by peer.
pub type HeapItem = (Distance, PeerId);

pub open spec fn item_le(a: HeapItem, b: HeapItem) -> bool {
    a.0.spec_lt(b.0) || (a.0 == b.0 && a.1 <= b.1)
}

fn item_le_exec(a: &HeapItem, b: &HeapItem) -> (r: bool)
    ensures
        r == item_le(*a, *b),
{
    a.0.is_less(&b.0) || (a.0 == b.0 && a.1 <= b.1)
}

pub open spec fn parent(i: int) -> int {
    (i - 1) / 2
}

/// Every item is at most its parent: the root is the greatest.
pub open spec fn heap_ok(s: Seq<HeapItem>) -> bool {
    forall|i: int| 0 < i < s.len() ==> item_le(#[trigger] s[i], s[parent(i)])
}

/// A heap but for the item at `pos`, which may exceed its parent; the
/// children of `pos` are at most the parent of `pos`.
pub open spec fn heap_but_up(s: Seq<HeapItem>, pos: int) -> bool {
    &&& forall|i: int| 0 < i < s.len() && i != pos ==> item_le(#[trigger] s[i], s[parent(i)])
    &&& pos > 0 ==> forall|i: int| 0 < i < s.len() && parent(i) == pos ==> item_le(#[trigger] s[i], s[parent(pos)])
}

/// A heap but for the item at `pos`, which may be less than its children;
/// the children of `pos` are at most the parent of `pos`.
pub open spec fn heap_but_down(s: Seq<HeapItem>, pos: int) -> bool {
    &&& forall|i: int| 0 < i < s.len() && i != pos && parent(i) != pos ==> item_le(#[trigger] s[i], s[parent(i)])
    &&& pos > 0 ==> forall|i: int| 0 < i < s.len() && parent(i) == pos ==> item_le(#[trigger] s[i], s[parent(pos)])
}

proof fn lemma_root_max(s: Seq<HeapItem>, i: int)
    requires
        heap_ok(s),
        0 <= i < s.len(),
    ensures
        item_le(s[i], s[0]),
    decreases i,
{
    if i > 0 {
        lemma_root_max(s, parent(i));
        assert(item_le(s[i], s[parent(i)]));
        lemma_distance_order(s[i].0, s[parent(i)].0, s[0].0);
    }
}

fn swap_items(v: &mut Vec<HeapItem>, i: usize, j: usize)
    requires
        i < old(v)@.len(),
        j < old(v)@.len(),
    ensures
        final(v)@ == old(v)@.update(i as int, old(v)@[j as int]).update(j as int, old(v)@[i as int]),
        forall|x: HeapItem| final(v)@.contains(x) <==> old(v)@.contains(x),
        old(v)@.no_duplicates() ==> final(v)@.no_duplicates(),
{
    let ghost before = v@;
    let a = v[i];
    let b = v[j];
    v.set(i, b);
    v.set(j, a);
    proof {
        let after = v@;
        assert forall|x: HeapItem| after.contains(x) <==> before.contains(x) by {
            if after.contains(x) {
                let w = choose|w: int| 0 <= w < after.len() && after[w] == x;
                if w == j {
                    assert(before[i as int] == x);
                } else if w == i {
                    assert(before[j as int] == x);
                } else {
                    assert(before[w] == x);
                }
            }
            if before.contains(x) {
                let w = choose|w: int| 0 <= w < before.len() && before[w] == x;
                if w == j {
                    assert(after[i as int] == x);
                } else if w == i {
                    assert(after[j as int] == x);
                } else {
                    assert(after[w] == x);
                }
            }
        }
        if before.no_duplicates() {
            assert forall|x: int, y: int| 0 <= x < after.len() && 0 <= y < after.len() && x != y implies after[x] != after[y] by {
                let x1 = if x == i { j as int } else if x == j { i as int } else { x };
                let y1 = if y == i { j as int } else if y == j { i as int } else { y };
                assert(after[x] == before[x1] && after[y] == before[y1]);
            }
        }
    }
}

/// Moves the item at `pos` up while it is greater than its parent.
fn sift_up(v: &mut Vec<HeapItem>, pos: usize)
    requires
        pos < old(v)@.len(),
        heap_but_up(old(v)@, pos as int),
    ensures
        final(v)@.len() == old(v)@.len(),
        heap_ok(final(v)@),
        forall|x: HeapItem| final(v)@.contains(x) <==> old(v)@.contains(x),
        old(v)@.no_duplicates() ==> final(v)@.no_duplicates(),
{
    let mut pos = pos;
    while pos > 0
        invariant
            pos < v@.len(),
            v@.len() == old(v)@.len(),
            heap_but_up(v@, pos as int),
            forall|x: HeapItem| v@.contains(x) <==> old(v)@.contains(x),
            old(v)@.no_duplicates() ==> v@.no_duplicates(),
        decreases pos,
    {
        let p = (pos - 1) / 2;
        if item_le_exec(&v[pos], &v[p]) {
            proof {
                assert forall|i: int| 0 < i < v@.len() implies item_le(#[trigger] v@[i], v@[parent(i)]) by {
                    if i == pos {
                    }
                }
            }
            return;
        }
        let ghost s = v@;
        swap_items(v, pos, p);
        proof {
            let t = v@;
            lemma_distance_order(s[p as int].0, s[pos as int].0, s[p as int].0);
            assert forall|i: int| 0 < i < t.len() && i != p implies item_le(#[trigger] t[i], t[parent(i)]) by {
                if i == pos {
                    lemma_distance_order(s[p as int].0, s[pos as int].0, s[p as int].0);
                } else if parent(i) == p {
                    assert(item_le(s[i], s[p as int]));
                    lemma_distance_order(s[i].0, s[p as int].0, s[pos as int].0);
                } else if parent(i) == pos {
                    assert(item_le(s[i], s[p as int]));
                } else {
                    assert(t[i] == s[i]);
                    assert(t[parent(i)] == s[parent(i)]);
                }
            }
            if p > 0 {
                assert forall|i: int| 0 < i < t.len() && parent(i) == p implies item_le(#[trigger] t[i], t[parent(p as int)]) by {
                    assert(item_le(s[p as int], s[parent(p as int)]));
                    if i == pos {
                    } else {
                        assert(item_le(s[i], s[p as int]));
                        lemma_distance_order(s[i].0, s[p as int].0, s[parent(p as int)].0);
                    }
                }
            }
        }
        pos = p;
    }
}

/// Pushes `item` onto the heap.
fn heap_push(v: &mut Vec<HeapItem>, item: HeapItem)
    requires
        heap_ok(old(v)@),
    ensures
        final(v)@.len() == old(v)@.len() + 1,
        heap_ok(final(v)@),
        forall|x: HeapItem| final(v)@.contains(x) <==> (old(v)@.contains(x) || x == item),
        old(v)@.no_duplicates() && !old(v)@.contains(item) ==> final(v)@.no_duplicates(),
{
    let ghost before = v@;
    v.push(item);
    proof {
        let s = v@;
        assert forall|x: HeapItem| s.contains(x) <==> (before.contains(x) || x == item) by {
            if s.contains(x) {
                let w = choose|w: int| 0 <= w < s.len() && s[w] == x;
                if w < before.len() {
                    assert(before[w] == x);
                }
            }
            if before.contains(x) {
                let w = choose|w: int| 0 <= w < before.len() && before[w] == x;
                assert(s[w] == x);
            }
            if x == item {
                assert(s[s.len() - 1] == x);
            }
        }
        if before.no_duplicates() && !before.contains(item) {
            assert forall|x: int, y: int| 0 <= x < s.len() && 0 <= y < s.len() && x != y implies s[x] != s[y] by {
                if x < before.len() && y < before.len() {
                    assert(s[x] == before[x] && s[y] == before[y]);
                } else if x < before.len() {
                    assert(s[x] == before[x]);
                    assert(before.contains(before[x]));
                } else if y < before.len() {
                    assert(s[y] == before[y]);
                    assert(before.contains(before[y]));
                }
            }
        }
        let last = s.len() - 1;
        assert forall|i: int| 0 < i < s.len() && i != last implies item_le(#[trigger] s[i], s[parent(i)]) by {
            assert(s[i] == before[i]);
            assert(s[parent(i)] == before[parent(i)]);
        }
    }
    let last = v.len() - 1;
    sift_up(v, last);
}

/// Moves the root item down to a leaf, each step swapping it with its
/// greater child.
fn sink(v: &mut Vec<HeapItem>) -> (pos: usize)
    requires
        old(v)@.len() > 0,
        heap_but_down(old(v)@, 0),
        old(v)@.no_duplicates(),
    ensures
        pos < final(v)@.len(),
        final(v)@.len() == old(v)@.len(),
        heap_but_up(final(v)@, pos as int),
        forall|x: HeapItem| final(v)@.contains(x) <==> old(v)@.contains(x),
        final(v)@.no_duplicates(),
{
    let ghost mid = v@;
    let end = v.len();
    let mut pos: usize = 0;
    let mut child: usize = 1;
    while end >= 2 && child <= end - 2
        invariant
            end == v@.len(),
            pos < end,
            child == 2 * pos + 1 || (child == usize::MAX && 2 * pos + 1 > usize::MAX),
            heap_but_down(v@, pos as int),
            forall|x: HeapItem| v@.contains(x) <==> mid.contains(x),
            v@.no_duplicates(),
        decreases end - pos,
    {
        if item_le_exec(&v[child], &v[child + 1]) {
            child = child + 1;
        }
        let ghost s = v@;
        proof {
            let sib = if child == 2 * pos + 1 { child + 1 } else { child - 1 };
            assert(item_le(s[sib as int], s[child as int])) by {
                lemma_distance_order(s[sib as int].0, s[child as int].0, s[child as int].0);
            }
        }
        swap_items(v, pos, child);
        proof {
            let t = v@;
            let c = child as int;
            let sib = if child == 2 * pos + 1 { c + 1 } else { c - 1 };
            assert(item_le(s[sib], s[c])) by {
                lemma_distance_order(s[sib].0, s[c].0, s[c].0);
            }
            assert forall|i: int| 0 < i < t.len() && i != c && parent(i) != c implies item_le(#[trigger] t[i], t[parent(i)]) by {
                if i == pos {
                    assert(parent(c) == pos);
                } else if parent(i) == pos {
                    assert(i == sib);
                } else {
                    assert(t[i] == s[i]);
                    assert(t[parent(i)] == s[parent(i)]);
                }
            }
            assert forall|i: int| 0 < i < t.len() && parent(i) == c implies item_le(#[trigger] t[i], t[parent(c)]) by {
                assert(parent(c) == pos);
                assert(t[i] == s[i]);
            }
        }
        pos = child;
        if pos <= (usize::MAX - 1) / 2 {
            child = 2 * pos + 1;
        } else {
            child = usize::MAX;
        }
    }
    if child == end - 1 {
        let ghost s = v@;
        swap_items(v, pos, child);
        proof {
            let t = v@;
            let c = child as int;
            assert forall|i: int| 0 < i < t.len() && i != c && parent(i) != c implies item_le(#[trigger] t[i], t[parent(i)]) by {
                if i == pos {
                    assert(parent(c) == pos);
                } else if parent(i) == pos {
                    assert(i == c);
                } else {
                    assert(t[i] == s[i]);
                    assert(t[parent(i)] == s[parent(i)]);
                }
            }
        }
        pos = child;
    }
    proof {
        let s = v@;
        assert forall|i: int| 0 < i < s.len() && parent(i) == pos implies false by {
        }
        assert(heap_but_up(s, pos as int));
    }
    pos
}

/// Removes the greatest item of the heap: the last item takes the root's
/// place, sinks to the bottom along the greater children, and rises again.
fn heap_pop(v: &mut Vec<HeapItem>)
    requires
        old(v)@.len() > 0,
        heap_ok(old(v)@),
        old(v)@.no_duplicates(),
    ensures
        final(v)@.len() == old(v)@.len() - 1,
        heap_ok(final(v)@),
        final(v)@.no_duplicates(),
        forall|x: HeapItem| final(v)@.contains(x) <==> (old(v)@.contains(x) && x != old(v)@[0]),
{
    let ghost before = v@;
    let last = v.pop();
    if v.len() == 0 {
        proof {
            assert forall|x: HeapItem| v@.contains(x) <==> (before.contains(x) && x != before[0]) by {
                if before.contains(x) {
                    let w = choose|w: int| 0 <= w < before.len() && before[w] == x;
                }
            }
        }
        return;
    }
    let item = match last {
        Some(item) => item,
        None => {
            return;
        },
    };
    v.set(0, item);
    proof {
        let s = v@;
        let n = before.len();
        assert(s.len() == n - 1);
        assert(item == before[n - 1]);
        assert forall|x: HeapItem| s.contains(x) <==> (before.contains(x) && x != before[0]) by {
            if s.contains(x) {
                let w = choose|w: int| 0 <= w < s.len() && s[w] == x;
                if w == 0 {
                    assert(before[n - 1] == x);
                    assert(before[0] != before[n - 1]);
                } else {
                    assert(before[w] == x);
                    assert(before[0] != before[w]);
                }
            }
            if before.contains(x) && x != before[0] {
                let w = choose|w: int| 0 <= w < before.len() && before[w] == x;
                if w == n - 1 {
                    assert(s[0] == x);
                } else {
                    assert(s[w] == x);
                }
            }
        }
        assert forall|x: int, y: int| 0 <= x < s.len() && 0 <= y < s.len() && x != y implies s[x] != s[y] by {
            let x1 = if x == 0 { n - 1 } else { x };
            let y1 = if y == 0 { n - 1 } else { y };
            assert(s[x] == before[x1] && s[y] == before[y1]);
        }
        assert forall|i: int| 0 < i < s.len() && i != 0 && parent(i) != 0 implies item_le(#[trigger] s[i], s[parent(i)]) by {
            assert(s[i] == before[i]);
            assert(s[parent(i)] == before[parent(i)]);
        }
    }
    let pos = sink(v);
    sift_up(v, pos);
}

proof fn lemma_last_stale_range(b: Seq<KBucketEntry>, now: u64, interval: u64)
    ensures
        -1 <= last_stale(b, now, interval) < b.len(),
        last_stale(b, now, interval) >= 0 ==> is_stale(b[last_stale(b, now, interval)], now, interval),
    decreases b.len(),
{
    if b.len() > 0 && !is_stale(b.last(), now, interval) {
        lemma_last_stale_range(b.drop_last(), now, interval);
    }
}

/// A bucket stays well formed when a peer that belongs in it is added.
proof fn lemma_bucket_after_add_wf(
    b: Seq<KBucketEntry>,
    local: Key,
    i: int,
    p: PeerId,
    now: u64,
    k: nat,
    interval: u64,
)
    requires
        k >= 1,
        b.len() <= k,
        bucket_index(local, p) == i,
        forall|j: int| 0 <= j < b.len() ==> bucket_index(local, (#[trigger] b[j]).peer_id) == i,
        forall|x: int, y: int|
            0 <= x < b.len() && 0 <= y < b.len() && x != y ==> (#[trigger] b[x]).peer_id != (#[trigger] b[y]).peer_id,
    ensures
        ({
            let c = bucket_after_add(b, p, now, k, interval);
            &&& c.len() <= k
            &&& forall|j: int| 0 <= j < c.len() ==> bucket_index(local, (#[trigger] c[j]).peer_id) == i
            &&& forall|x: int, y: int|
                0 <= x < c.len() && 0 <= y < c.len() && x != y ==> (#[trigger] c[x]).peer_id != (#[trigger] c[y]).peer_id
            &&& holds_peer(b, p) ==> c.len() == b.len() && c.last() == (KBucketEntry { peer_id: p, last_seen: now })
        }),
{
    lemma_last_stale_range(b, now, interval);
    let c = bucket_after_add(b, p, now, k, interval);
    if holds_peer(b, p) {
        let r = choose|r: int| 0 <= r < b.len() && b[r].peer_id == p;
        let d = b.remove(r);
        assert forall|x: int, y: int|
            0 <= x < c.len() && 0 <= y < c.len() && x != y implies (#[trigger] c[x]).peer_id != (#[trigger] c[y]).peer_id by {
            if x < c.len() - 1 && y < c.len() - 1 {
                let x1 = if x < r { x } else { x + 1 };
                let y1 = if y < r { y } else { y + 1 };
                assert(c[x] == b[x1]);
                assert(c[y] == b[y1]);
            } else if x < c.len() - 1 {
                let x1 = if x < r { x } else { x + 1 };
                assert(c[x] == b[x1]);
            } else if y < c.len() - 1 {
                let y1 = if y < r { y } else { y + 1 };
                assert(c[y] == b[y1]);
            }
        }
        assert forall|j: int| 0 <= j < c.len() implies bucket_index(local, (#[trigger] c[j]).peer_id) == i by {
            if j < c.len() - 1 {
                let j1 = if j < r { j } else { j + 1 };
                assert(c[j] == b[j1]);
            }
        }
    } else if b.len() < k {
        assert forall|j: int| 0 <= j < c.len() implies bucket_index(local, (#[trigger] c[j]).peer_id) == i by {
            if j < b.len() {
                assert(c[j] == b[j]);
            }
        }
        assert forall|x: int, y: int|
            0 <= x < c.len() && 0 <= y < c.len() && x != y implies (#[trigger] c[x]).peer_id != (#[trigger] c[y]).peer_id by {
            if x < b.len() {
                assert(c[x] == b[x]);
            }
            if y < b.len() {
                assert(c[y] == b[y]);
            }
        }
    } else if last_stale(b, now, interval) >= 0 {
        let r = last_stale(b, now, interval);
        assert forall|x: int, y: int|
            0 <= x < c.len() && 0 <= y < c.len() && x != y implies (#[trigger] c[x]).peer_id != (#[trigger] c[y]).peer_id by {
            if x < c.len() - 1 && y < c.len() - 1 {
                let x1 = if x < r { x } else { x + 1 };
                let y1 = if y < r { y } else { y + 1 };
                assert(c[x] == b[x1]);
                assert(c[y] == b[y1]);
            } else if x < c.len() - 1 {
                let x1 = if x < r { x } else { x + 1 };
                assert(c[x] == b[x1]);
            } else if y < c.len() - 1 {
                let y1 = if y < r { y } else { y + 1 };
                assert(c[y] == b[y1]);
            }
        }
        assert forall|j: int| 0 <= j < c.len() implies bucket_index(local, (#[trigger] c[j]).peer_id) == i by {
            if j < c.len() - 1 {
                let j1 = if j < r { j } else { j + 1 };
                assert(c[j] == b[j1]);
            }
        }
    }
}

} // verus!
