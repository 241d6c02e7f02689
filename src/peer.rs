//! A peer of the simulated network: its routing table, queries and stores,
//! and how it handles each message. Handlers do not send anything
//! themselves: they leave the messages to send in the peer's outbox.
use vstd::prelude::*;

use crate::bucket::{table_after_add, KBucketEntry, KBucketsTable};
use crate::find_node::{FindNodeQuery, FindNodeQueryState};
use crate::key::{bucket_key, peer_key, sha256_key, Key};
use crate::find_node::count_in;
use crate::key::key_xor;
use crate::keys_tree::{entry_peers, is_closest, KeyEntry, KeysTree};
use crate::message::{
    BootstrapTimer, FindNodeQueryTimeout, FindNodeRequest, FindNodeResponse, GetValueQueryTimeout,
    GetValueRequest, GetValueResponse, Message, PingResponse, PutValueQueryTimeout,
    PutValueRequest, RepublishTimer, RetrieveDataQueryTimeout, RetrieveDataRequest,
    RetrieveDataResponse,
};
use crate::pool::QueriesPool;
use crate::query::{QueryId, QueryState, QueryTrigger};
use crate::stats::{bump, sat32, sat64, QueriesStats};
use crate::storage::{LocalDHTStorage, LocalFileStorage, Record, RecordView};
use crate::value_query::{GetValueQuery, PutValueQuery};
use crate::PeerId;
use vstd::string::StringSliceAdditionalSpecFns;

verus! {

broadcast use vstd::std_specs::hash::group_hash_axioms;

/// The most buckets that a refresh looks up.
pub const REFRESH_BUCKETS_MAX: usize = 15;

/// The parameters of the protocol, times in ticks of the logical clock.
#[derive(Clone, Copy, Debug)]
pub struct PeerConfig {
    /// Bucket capacity and lookup width.
    pub k: usize,
    /// Requests a lookup keeps outstanding.
    pub alpha: usize,
    pub query_timeout: u64,
    pub record_expiration_interval: u64,
    pub record_publication_interval: u64,
    /// Refresh period, and the age after which a bucket entry may be replaced.
    pub kbuckets_refresh_interval: u64,
    pub caching_max_peers: usize,
    pub enable_republishing: bool,
}

/// A message for the outside to deliver: through the network (no delay to
/// oneself) when `delay` is `None`, else to the peer itself after `delay`.
#[derive(Debug)]
pub struct Outgoing {
    pub dst: PeerId,
    pub message: Message,
    pub delay: Option<u64>,
}

/// The id that follows `x`, wrapping around.
pub open spec fn next_id_after(x: u64) -> u64 {
    if x == u64::MAX {
        0
    } else {
        (x + 1) as u64
    }
}

/// The id `j` places after `x`.
pub open spec fn id_after(x: u64, j: nat) -> u64
    decreases j,
{
    if j == 0 {
        x
    } else {
        next_id_after(id_after(x, (j - 1) as nat))
    }
}

/// What starting lookup `id` of `key` sends: its timeout to the peer
/// itself, then the first request to the peer itself.
pub open spec fn lookup_outs(me: PeerId, id: QueryId, key: Key, timeout: u64) -> Seq<Outgoing> {
    seq![
        Outgoing {
            dst: me,
            message: Message::FindNodeQueryTimeout(FindNodeQueryTimeout { query_id: id }),
            delay: Some(timeout),
        },
        Outgoing {
            dst: me,
            message: Message::FindNodeRequest(FindNodeRequest { query_id: id, key }),
            delay: None,
        },
    ]
}

/// What starting lookups of `keys`, in order, with ids from `first` on,
/// sends.
pub open spec fn lookups_outs(me: PeerId, first: u64, keys: Seq<Key>, timeout: u64) -> Seq<Outgoing>
    decreases keys.len(),
{
    if keys.len() == 0 {
        Seq::empty()
    } else {
        lookups_outs(me, first, keys.drop_last(), timeout) + lookup_outs(
            me,
            QueryId(id_after(first, (keys.len() - 1) as nat)),
            keys.last(),
            timeout,
        )
    }
}

/// Ids a few steps apart differ.
proof fn lemma_ids_distinct(x: u64, i: nat)
    requires
        i <= REFRESH_BUCKETS_MAX,
    ensures
        forall|j: nat| j < i ==> id_after(x, j) != id_after(x, i),
        id_after(x, i) as int == (x + i) % 0x1_0000_0000_0000_0000,
    decreases i,
{
    if i > 0 {
        lemma_ids_distinct(x, (i - 1) as nat);
    }
    assert forall|j: nat| j < i implies id_after(x, j) != id_after(x, i) by {
        lemma_id_after_mod(x, j);
        lemma_id_after_mod(x, i);
    }
}

proof fn lemma_id_after_mod(x: u64, j: nat)
    ensures
        id_after(x, j) as int == (x + j) % 0x1_0000_0000_0000_0000,
    decreases j,
{
    if j > 0 {
        lemma_id_after_mod(x, (j - 1) as nat);
    }
}

/// The keys that a refresh looks up: a random key in each of the first `m`
/// buckets, its bits from `entropy`, then the local key.
pub open spec fn refresh_keys(local: Key, entropy: Seq<Key>, m: nat) -> Seq<Key> {
    Seq::new(m + 1, |i: int| if i < m { bucket_key(local, entropy[i], i) } else { local })
}

/// The number of buckets a refresh looks up.
pub open spec fn refresh_count(buckets: nat, entropy: nat) -> nat {
    let a = if buckets < REFRESH_BUCKETS_MAX { buckets } else { REFRESH_BUCKETS_MAX as nat };
    if a < entropy { a } else { entropy }
}

/// The messages that send each request of `reqs` to its peer.
pub open spec fn find_node_outs(reqs: Seq<(PeerId, FindNodeRequest)>) -> Seq<Outgoing> {
    Seq::new(
        reqs.len(),
        |i: int| Outgoing { dst: reqs[i].0, message: Message::FindNodeRequest(reqs[i].1), delay: None },
    )
}

/// The messages that ask each of `peers` for the record of `key`.
pub open spec fn get_value_outs(peers: Seq<PeerId>, query_id: QueryId, key: Key) -> Seq<Outgoing> {
    Seq::new(
        peers.len(),
        |i: int| Outgoing {
            dst: peers[i],
            message: Message::GetValueRequest(GetValueRequest { query_id, key }),
            delay: None,
        },
    )
}

/// The messages that ask each of `providers` for the content of `key`.
pub open spec fn retrieve_outs(providers: Seq<PeerId>, query_id: QueryId, key: Key) -> Seq<Outgoing> {
    Seq::new(
        providers.len(),
        |i: int| Outgoing {
            dst: providers[i],
            message: Message::RetrieveDataRequest(RetrieveDataRequest { query_id, key }),
            delay: None,
        },
    )
}

/// `s` sends a PutValue request of `key` and a copy of `record` to each of
/// `peers`, in order.
pub open spec fn put_outs(s: Seq<Outgoing>, peers: Seq<PeerId>, key: Key, record: RecordView) -> bool {
    &&& s.len() == peers.len()
    &&& forall|j: int|
        0 <= j < s.len() ==> (#[trigger] s[j]).dst == peers[j] && s[j].delay is None
            && (s[j].message matches Message::PutValueRequest(m) && m.key == key && m.record@ == record)
}

/// The table `v` after each of `peers` is acknowledged at `now`, in order.
pub open spec fn table_after_adds(
    v: Seq<Seq<KBucketEntry>>,
    local: Key,
    peers: Seq<PeerId>,
    now: u64,
    k: nat,
    interval: u64,
) -> Seq<Seq<KBucketEntry>>
    decreases peers.len(),
{
    if peers.len() == 0 {
        v
    } else {
        table_after_add(
            table_after_adds(v, local, peers.drop_last(), now, k, interval),
            local,
            peers.last(),
            now,
            k,
            interval,
        )
    }
}

/// Represents a peer in the IPFS simulator.
#[derive(Debug)]
pub struct Peer {
    id: PeerId,
    now: u64,
    config: PeerConfig,
    kbuckets: KBucketsTable,
    queries: QueriesPool,
    dht_storage: LocalDHTStorage,
    file_storage: LocalFileStorage,
    stats: QueriesStats,
    outbox: Vec<Outgoing>,
}

impl Peer {
    pub closed spec fn spec_id(&self) -> PeerId {
        self.id
    }

    pub closed spec fn spec_now(&self) -> u64 {
        self.now
    }

    pub closed spec fn spec_config(&self) -> PeerConfig {
        self.config
    }

    pub closed spec fn table(&self) -> Seq<Seq<crate::bucket::KBucketEntry>> {
        self.kbuckets@
    }

    /// The routing table.
    pub closed spec fn routing(&self) -> KBucketsTable {
        self.kbuckets
    }

    pub closed spec fn pool(&self) -> QueriesPool {
        self.queries
    }

    /// The records of the DHT store, by key.
    pub closed spec fn dht(&self) -> Map<Key, RecordView> {
        self.dht_storage.view()
    }

    /// The content of the file store, by key.
    pub closed spec fn files(&self) -> Map<Key, Seq<char>> {
        self.file_storage.view()
    }

    pub closed spec fn spec_stats(&self) -> QueriesStats {
        self.stats
    }

    /// The messages waiting to be delivered, oldest first.
    pub closed spec fn outbox(&self) -> Seq<Outgoing> {
        self.outbox@
    }

    /// The table is keyed on the peer's own key and sized by the
    /// configuration; every lookup in flight is well formed.
    pub closed spec fn wf(&self) -> bool {
        &&& self.config.k >= 1
        &&& self.config.alpha >= 1
        &&& self.kbuckets.wf()
        &&& self.kbuckets.spec_local_key() == peer_key(self.id)
        &&& self.kbuckets.spec_k() == self.config.k
        &&& self.kbuckets.spec_refresh_interval() == self.config.kbuckets_refresh_interval
        &&& self.dht_storage.wf()
        &&& self.file_storage.wf()
        &&& forall|q: u64| #[trigger]
            self.queries.find_nodes().contains_key(q) ==> {
                let f = self.queries.find_nodes()[q];
                &&& f.wf()
                &&& f.spec_k() == self.config.k
                &&& f.spec_alpha() == self.config.alpha
            }
    }

    /// What `on_find_node_request` does, from `pre` to `post`.
    pub open spec fn on_find_node_request_post(pre: Peer, post: Peer, src_id: PeerId, query_id: QueryId, key: Key) -> bool {
        &&& post.wf()
        &&& post.outbox().len() == pre.outbox().len() + 1
        &&& post.outbox().subrange(0, pre.outbox().len() as int) == pre.outbox()
        &&& ({
            let o = post.outbox().last();
            &&& o.dst == src_id
            &&& o.delay is None
            &&& o.message matches Message::FindNodeResponse(m) && m.query_id == query_id
                && pre.routing().approximate_result(key, pre.spec_config().k as nat, m.closest_peers@)
        })
        &&& post.dht() == pre.dht()
        &&& post.files() == pre.files()
        &&& post.table() == pre.table()
        &&& post.spec_stats() == pre.spec_stats()
    }

    /// What `on_find_node_response` does, from `pre` to `post`.
    pub open spec fn on_find_node_response_post(pre: Peer, post: Peer, src_id: PeerId, query_id: QueryId, closest: Seq<PeerId>, oracle: Seq<KeyEntry>) -> bool {
        &&& post.wf()
        &&& !pre.pool().find_nodes().contains_key(query_id.0) ==> post == pre
        &&& pre.pool().find_nodes().contains_key(query_id.0) ==> exists|q2: FindNodeQuery, r: FindNodeQueryState|
            #[trigger] FindNodeQuery::response_post(
                pre.pool().find_nodes()[query_id.0],
                q2,
                src_id,
                query_id,
                closest,
                r,
            ) && match r {
                QueryState::InProgress(reqs) => {
                    &&& post.pool().find_nodes() == pre.pool().find_nodes().insert(query_id.0, q2)
                    &&& post.outbox() == pre.outbox() + find_node_outs(reqs@)
                    &&& post.table() == pre.table()
                    &&& post.spec_stats() == pre.spec_stats()
                    &&& post.pool().get_values() == pre.pool().get_values()
                    &&& post.pool().put_values() == pre.pool().put_values()
                    &&& post.pool().retrieves() == pre.pool().retrieves()
                    &&& post.pool().spec_next_id() == pre.pool().spec_next_id()
                    &&& post.dht() == pre.dht()
                    &&& post.files() == pre.files()
                },
                QueryState::Completed((target, peers)) => {
                    &&& post.pool().find_nodes() == pre.pool().find_nodes().remove(query_id.0)
                    &&& Peer::finish_post(
                        pre,
                        post,
                        pre.pool().find_nodes()[query_id.0].spec_trigger(),
                        target,
                        peers@,
                        oracle,
                    )
                },
            }
    }

    /// What `on_find_node_query_timeout` does, from `pre` to `post`.
    pub open spec fn on_find_node_query_timeout_post(pre: Peer, post: Peer, query_id: QueryId) -> bool {
        &&& post.wf()
        &&& post.pool().find_nodes() == pre.pool().find_nodes().remove(query_id.0)
        &&& post.spec_stats() == (QueriesStats {
            find_node_queries_failed: if pre.pool().find_nodes().contains_key(query_id.0) {
                sat32(pre.spec_stats().find_node_queries_failed, 1)
            } else {
                pre.spec_stats().find_node_queries_failed
            },
            ..pre.spec_stats()
        })
        &&& post.outbox() == pre.outbox()
    }

    /// What `on_get_value_request` does, from `pre` to `post`.
    pub open spec fn on_get_value_request_post(pre: Peer, post: Peer, src_id: PeerId, query_id: QueryId, key: Key) -> bool {
        &&& post.wf()
        &&& post.outbox().len() == pre.outbox().len() + 1
        &&& post.outbox().subrange(0, pre.outbox().len() as int) == pre.outbox()
        &&& ({
            let o = post.outbox().last();
            &&& o.dst == src_id
            &&& o.delay is None
            &&& o.message matches Message::GetValueResponse(m) && m.query_id == query_id
                && match m.record {
                    Some(rec) => pre.dht().contains_key(key) && rec@ == pre.dht()[key],
                    None => !pre.dht().contains_key(key),
                }
        })
        &&& post.dht() == pre.dht()
        &&& post.files() == pre.files()
        &&& post.spec_stats() == pre.spec_stats()
    }

    /// What `on_get_value_response` does, from `pre` to `post`.
    pub open spec fn on_get_value_response_post(pre: Peer, post: Peer, src_id: PeerId, query_id: QueryId, record: Option<Record>) -> bool {
        &&& post.wf()
        &&& !pre.pool().get_values().contains_key(query_id.0) ==> post == pre
        &&& pre.pool().get_values().contains_key(query_id.0) ==> ({
            let q = pre.pool().get_values()[query_id.0];
            let n = pre.outbox().len() as int;
            let c = q.caching().len() as int;
            &&& post.table() == pre.table()
            &&& post.dht() == pre.dht()
            &&& post.files() == pre.files()
            &&& post.pool().find_nodes() == pre.pool().find_nodes()
            &&& post.pool().put_values() == pre.pool().put_values()
            &&& post.pool().retrieves() == pre.pool().retrieves()
            &&& post.pool().spec_next_id() == pre.pool().spec_next_id()
            &&& match record {
                None => {
                    &&& post.pool().get_values().contains_key(query_id.0)
                    &&& post.pool().get_values()[query_id.0].spec_key() == q.spec_key()
                    &&& post.pool().get_values()[query_id.0].caching() == if q.caching().len()
                        < q.spec_caching_max_peers() {
                        q.caching().push(src_id)
                    } else {
                        q.caching()
                    }
                    &&& post.outbox() == pre.outbox()
                    &&& post.spec_stats() == pre.spec_stats()
                },
                Some(rec) => {
                    &&& post.pool().get_values() == pre.pool().get_values().remove(query_id.0)
                    &&& post.spec_stats() == (QueriesStats {
                        get_value_queries_completed: sat32(pre.spec_stats().get_value_queries_completed, 1),
                        ..pre.spec_stats()
                    })
                    &&& post.outbox().len() == n + c + rec@.1.len()
                    &&& post.outbox().subrange(0, n) == pre.outbox()
                    &&& put_outs(post.outbox().subrange(n, n + c), q.caching(), q.spec_key(), rec@)
                    &&& post.outbox().skip(n + c) == retrieve_outs(rec@.1, query_id, rec@.0)
                },
            }
        })
    }

    /// What `on_get_value_query_timeout` does, from `pre` to `post`.
    pub open spec fn on_get_value_query_timeout_post(pre: Peer, post: Peer, query_id: QueryId) -> bool {
        &&& post.wf()
        &&& post.pool().get_values() == pre.pool().get_values().remove(query_id.0)
        &&& post.spec_stats() == (QueriesStats {
            get_value_queries_failed: if pre.pool().get_values().contains_key(query_id.0) {
                sat32(pre.spec_stats().get_value_queries_failed, 1)
            } else {
                pre.spec_stats().get_value_queries_failed
            },
            ..pre.spec_stats()
        })
        &&& post.outbox() == pre.outbox()
    }

    /// What `on_put_value_request` does, from `pre` to `post`.
    pub open spec fn on_put_value_request_post(pre: Peer, post: Peer, key: Key, record: Record) -> bool {
        &&& post.wf()
        &&& post.dht() == pre.dht().insert(key, record@)
        &&& post.files() == pre.files()
        &&& post.outbox() == pre.outbox()
        &&& post.spec_stats() == pre.spec_stats()
    }

    /// What `on_put_value_query_timeout` does, from `pre` to `post`.
    pub open spec fn on_put_value_query_timeout_post(pre: Peer, post: Peer, query_id: QueryId) -> bool {
        &&& post.wf()
        &&& post.pool().put_values() == pre.pool().put_values().remove(query_id.0)
        &&& post.spec_stats() == (QueriesStats {
            put_value_queries_failed: if pre.pool().put_values().contains_key(query_id.0) {
                sat32(pre.spec_stats().put_value_queries_failed, 1)
            } else {
                pre.spec_stats().put_value_queries_failed
            },
            ..pre.spec_stats()
        })
        &&& post.outbox() == pre.outbox()
    }

    /// What `on_retrieve_data_request` does, from `pre` to `post`.
    pub open spec fn on_retrieve_data_request_post(pre: Peer, post: Peer, src_id: PeerId, query_id: QueryId, key: Key) -> bool {
        &&& post.wf()
        &&& pre.files().contains_key(key) ==> {
            &&& post.outbox().len() == pre.outbox().len() + 1
            &&& post.outbox().subrange(0, pre.outbox().len() as int) == pre.outbox()
            &&& post.outbox().last().dst == src_id
            &&& post.outbox().last().delay is None
            &&& post.outbox().last().message matches Message::RetrieveDataResponse(m)
                && m.query_id == query_id && (m.data matches Some(d) && d@ == pre.files()[key])
        }
        &&& !pre.files().contains_key(key) ==> post.outbox() == pre.outbox()
        &&& post.dht() == pre.dht()
        &&& post.files() == pre.files()
        &&& post.spec_stats() == pre.spec_stats()
    }

    /// What `on_retrieve_data_response` does, from `pre` to `post`.
    pub open spec fn on_retrieve_data_response_post(pre: Peer, post: Peer, query_id: QueryId, data: Option<String>) -> bool {
        &&& post.wf()
        &&& data is Some ==> post.pool().retrieves() == pre.pool().retrieves().remove(query_id.0)
        &&& data is None ==> post.pool().retrieves() == pre.pool().retrieves()
        &&& post.spec_stats() == (QueriesStats {
            retrieve_data_queries_completed: if data is Some && pre.pool().retrieves().contains(query_id.0) {
                sat32(pre.spec_stats().retrieve_data_queries_completed, 1)
            } else {
                pre.spec_stats().retrieve_data_queries_completed
            },
            ..pre.spec_stats()
        })
        &&& post.outbox() == pre.outbox()
        &&& post.dht() == pre.dht()
        &&& post.files() == pre.files()
    }

    /// What `on_retrieve_data_query_timeout` does, from `pre` to `post`.
    pub open spec fn on_retrieve_data_query_timeout_post(pre: Peer, post: Peer, query_id: QueryId) -> bool {
        &&& post.wf()
        &&& post.pool().retrieves() == pre.pool().retrieves().remove(query_id.0)
        &&& post.spec_stats() == (QueriesStats {
            retrieve_data_queries_failed: if pre.pool().retrieves().contains(query_id.0) {
                sat32(pre.spec_stats().retrieve_data_queries_failed, 1)
            } else {
                pre.spec_stats().retrieve_data_queries_failed
            },
            ..pre.spec_stats()
        })
        &&& post.outbox() == pre.outbox()
    }

    /// What `refresh_kbuckets_table` does, from `pre` to `post`.
    pub open spec fn refresh_kbuckets_table_post(pre: Peer, post: Peer, entropy: Seq<Key>) -> bool {
        &&& post.wf()
        &&& post.dht() == pre.dht().restrict(
            pre.dht().dom().filter(|k: Key| pre.dht()[k].2 > pre.spec_now()),
        )
        &&& post.files() == pre.files()
        &&& post.table() == pre.table()
        &&& ({
            let m = refresh_count(pre.table().len(), entropy.len());
            let keys = refresh_keys(peer_key(pre.spec_id()), entropy, m);
            let first = pre.pool().spec_next_id();
            &&& post.outbox() == pre.outbox() + lookups_outs(
                pre.spec_id(),
                first,
                keys,
                pre.spec_config().query_timeout,
            ) + seq![
                Outgoing {
                    dst: pre.spec_id(),
                    message: Message::BootstrapTimer(BootstrapTimer {}),
                    delay: Some(pre.spec_config().kbuckets_refresh_interval),
                },
            ]
            &&& forall|j: int| 0 <= j <= m ==> {
                let id = #[trigger] id_after(first, j as nat);
                &&& post.pool().find_nodes().contains_key(id)
                &&& post.pool().find_nodes()[id].target() == keys[j]
                &&& post.pool().find_nodes()[id].spec_trigger() == QueryTrigger::Bootstrap
            }
            &&& post.spec_stats() == (QueriesStats {
                find_node_queries_started: sat32(
                    pre.spec_stats().find_node_queries_started,
                    (m + 1) as u32,
                ),
                ..pre.spec_stats()
            })
            &&& post.pool().spec_next_id() == id_after(first, m + 1)
        })
    }

    /// What `on_republish_timer` does, from `pre` to `post`.
    pub open spec fn on_republish_timer_post(pre: Peer, post: Peer, key: Key) -> bool {
        &&& post.wf()
        &&& post.files() == pre.files()
        &&& pre.dht().contains_key(key) && pre.files().contains_key(key) ==> {
            &&& post.dht() == pre.dht().remove(key)
            &&& exists|p: u64| #[trigger] post.pool().put_values().contains_key(p)
                && post.pool().put_values()[p].spec_record() == (
                pre.dht()[key].0,
                pre.dht()[key].1,
                pre.spec_now().saturating_add(pre.spec_config().record_expiration_interval),
            )
            &&& post.outbox().len() > 0
            &&& post.outbox().last() == (Outgoing {
                dst: pre.spec_id(),
                message: Message::RepublishTimer(RepublishTimer { key }),
                delay: Some(pre.spec_config().record_publication_interval),
            })
        }
        &&& !(pre.dht().contains_key(key) && pre.files().contains_key(key)) ==> {
            &&& post.dht() == pre.dht()
            &&& post.outbox() == pre.outbox()
        }
    }

    /// Creates the peer `id`, with empty table, queries and stores.
    pub fn new(id: PeerId, config: PeerConfig) -> (r: Peer)
        requires
            config.k >= 1,
            config.alpha >= 1,
        ensures
            r.wf(),
            r.spec_id() == id,
            r.spec_now() == 0,
            r.spec_config() == config,
            r.table() == Seq::<Seq<crate::bucket::KBucketEntry>>::empty(),
            r.dht() == Map::<Key, RecordView>::empty(),
            r.files() == Map::<Key, Seq<char>>::empty(),
            r.spec_stats() == QueriesStats::zero(),
            r.outbox() == Seq::<Outgoing>::empty(),
    {
        let local_key = Key::from_peer_id(id);
        Peer {
            id,
            now: 0,
            config,
            kbuckets: KBucketsTable::new(&local_key, config.k, config.kbuckets_refresh_interval),
            queries: QueriesPool::new(),
            dht_storage: LocalDHTStorage::new(),
            file_storage: LocalFileStorage::new(),
            stats: QueriesStats::new(),
            outbox: Vec::new(),
        }
    }

    /// Returns the ID of the peer.
    pub fn id(&self) -> (r: PeerId)
        ensures
            r == self.spec_id(),
    {
        self.id
    }

    /// Sets the clock that the next calls read.
    pub fn set_time(&mut self, now: u64)
        requires
            old(self).wf(),
        ensures
            final(self).wf(),
            final(self).spec_now() == now,
            final(self).outbox() == old(self).outbox(),
            final(self).dht() == old(self).dht(),
            final(self).files() == old(self).files(),
            final(self).table() == old(self).table(),
            final(self).spec_stats() == old(self).spec_stats(),
    {
        self.now = now;
    }

    /// Hands out the messages to deliver, and empties the outbox.
    pub fn drain_outbox(&mut self) -> (r: Vec<Outgoing>)
        requires
            old(self).wf(),
        ensures
            final(self).wf(),
            r@ == old(self).outbox(),
            final(self).outbox() == Seq::<Outgoing>::empty(),
            final(self).spec_now() == old(self).spec_now(),
            final(self).dht() == old(self).dht(),
            final(self).files() == old(self).files(),
            final(self).table() == old(self).table(),
            final(self).spec_stats() == old(self).spec_stats(),
    {
        let mut out: Vec<Outgoing> = Vec::new();
        std::mem::swap(&mut out, &mut self.outbox);
        out
    }

    /// Adds a peer to the k-buckets table.
    pub fn add_peer(&mut self, peer_id: PeerId, curr_time: u64)
        requires
            old(self).wf(),
        ensures
            final(self).wf(),
            final(self).table() == table_after_add(
                old(self).table(),
                peer_key(old(self).spec_id()),
                peer_id,
                curr_time,
                old(self).spec_config().k as nat,
                old(self).spec_config().kbuckets_refresh_interval,
            ),
            final(self).outbox() == old(self).outbox(),
            final(self).dht() == old(self).dht(),
            final(self).files() == old(self).files(),
            final(self).spec_stats() == old(self).spec_stats(),
            final(self).spec_now() == old(self).spec_now(),
    {
        self.kbuckets.add_peer(peer_id, curr_time);
    }

    /// Clears both the DHT storage and the file storage.
    pub fn clear_storage(&mut self)
        requires
            old(self).wf(),
        ensures
            final(self).wf(),
            final(self).dht() == Map::<Key, RecordView>::empty(),
            final(self).files() == Map::<Key, Seq<char>>::empty(),
            final(self).outbox() == old(self).outbox(),
            final(self).table() == old(self).table(),
            final(self).spec_stats() == old(self).spec_stats(),
    {
        self.dht_storage.clear();
        self.file_storage.clear();
    }

    /// Returns the statistics gathered so far, and starts them anew.
    pub fn stats(&mut self) -> (r: QueriesStats)
        requires
            old(self).wf(),
        ensures
            final(self).wf(),
            r == old(self).spec_stats(),
            final(self).spec_stats() == QueriesStats::zero(),
            final(self).outbox() == old(self).outbox(),
            final(self).dht() == old(self).dht(),
            final(self).files() == old(self).files(),
            final(self).table() == old(self).table(),
    {
        let r = self.stats;
        self.stats = QueriesStats::new();
        r
    }

    fn send_message(&mut self, message: Message, dst: PeerId)
        ensures
            *final(self) == (Peer { outbox: final(self).outbox, ..*old(self) }),
            final(self).outbox@ == old(self).outbox@.push(Outgoing { dst, message, delay: None }),
    {
        self.outbox.push(Outgoing { dst, message, delay: None });
    }

    fn emit_self(&mut self, message: Message, delay: u64)
        ensures
            *final(self) == (Peer { outbox: final(self).outbox, ..*old(self) }),
            final(self).outbox@ == old(self).outbox@.push(
                Outgoing { dst: old(self).id, message, delay: Some(delay) },
            ),
    {
        let dst = self.id;
        self.outbox.push(Outgoing { dst, message, delay: Some(delay) });
    }

    /// Starts a lookup of `key`: registers the query, sets its timeout and
    /// sends the first request to the peer itself.
    pub fn find_node(&mut self, key: &Key, trigger: QueryTrigger) -> (r: QueryId)
        requires
            old(self).wf(),
        ensures
            final(self).wf(),
            r.0 == old(self).pool().spec_next_id(),
            final(self).pool().find_nodes().contains_key(r.0),
            ({
                let q = final(self).pool().find_nodes()[r.0];
                &&& q.target() == *key
                &&& q.spec_trigger() == trigger
                &&& q.waiting() == seq![old(self).spec_id()]
                &&& q.responded().len() == 0
                &&& q.next().len() == 0
            }),
            final(self).pool().find_nodes() == old(self).pool().find_nodes().insert(
                r.0,
                final(self).pool().find_nodes()[r.0],
            ),
            final(self).pool().spec_next_id() == next_id_after(old(self).pool().spec_next_id()),
            final(self).outbox() == old(self).outbox() + lookup_outs(
                old(self).spec_id(),
                r,
                *key,
                old(self).spec_config().query_timeout,
            ),
            final(self).spec_stats() == (QueriesStats {
                find_node_queries_started: sat32(old(self).spec_stats().find_node_queries_started, 1),
                ..old(self).spec_stats()
            }),
            final(self).pool().get_values() == old(self).pool().get_values(),
            final(self).pool().put_values() == old(self).pool().put_values(),
            final(self).pool().retrieves() == old(self).pool().retrieves(),
            final(self).dht() == old(self).dht(),
            final(self).files() == old(self).files(),
            final(self).table() == old(self).table(),
            final(self).spec_now() == old(self).spec_now(),
            final(self).spec_id() == old(self).spec_id(),
            final(self).spec_config() == old(self).spec_config(),
    {
        let query_id = self.queries.next_query_id();
        self.emit_self(
            Message::FindNodeQueryTimeout(FindNodeQueryTimeout { query_id }),
            self.config.query_timeout,
        );
        let (query, request) = FindNodeQuery::new(
            query_id,
            trigger,
            *key,
            self.id,
            self.config.k,
            self.config.alpha,
        );
        self.queries.add_find_node_query(query_id, query);
        assert(self.queries.find_nodes() =~= old(self).queries.find_nodes().insert(query_id.0, self.queries.find_nodes()[query_id.0]));
        self.stats.find_node_queries_started = bump(self.stats.find_node_queries_started);
        let id = self.id;
        self.send_message(Message::FindNodeRequest(request), id);
        assert(self.outbox@ =~= old(self).outbox@ + seq![
            Outgoing {
                dst: old(self).id,
                message: Message::FindNodeQueryTimeout(FindNodeQueryTimeout { query_id }),
                delay: Some(old(self).config.query_timeout),
            },
            Outgoing {
                dst: old(self).id,
                message: Message::FindNodeRequest(FindNodeRequest { query_id, key: *key }),
                delay: None,
            },
        ]);
        query_id
    }

    /// Starts a lookup of a random key, given as `random_key`.
    pub fn find_random_node(&mut self, trigger: QueryTrigger, random_key: &Key) -> (r: QueryId)
        requires
            old(self).wf(),
        ensures
            final(self).wf(),
            final(self).pool().find_nodes().contains_key(r.0),
            final(self).pool().find_nodes()[r.0].target() == *random_key,
            final(self).dht() == old(self).dht(),
            final(self).files() == old(self).files(),
    {
        self.find_node(random_key, trigger)
    }

    /// Starts a query for the record of `key`: a lookup of `key` whose
    /// result the query then asks for the record.
    pub fn get_value(&mut self, key: Key) -> (r: QueryId)
        requires
            old(self).wf(),
        ensures
            final(self).wf(),
            r.0 == old(self).pool().spec_next_id(),
            final(self).pool().get_values().contains_key(r.0),
            final(self).pool().get_values()[r.0].spec_key() == key,
            final(self).pool().get_values()[r.0].caching().len() == 0,
            exists|f: u64|
                #[trigger] final(self).pool().find_nodes().contains_key(f)
                    && final(self).pool().find_nodes()[f].spec_trigger() == QueryTrigger::GetValue(r)
                    && final(self).pool().find_nodes()[f].target() == key,
            final(self).spec_stats() == (QueriesStats {
                get_value_queries_started: sat32(old(self).spec_stats().get_value_queries_started, 1),
                find_node_queries_started: sat32(old(self).spec_stats().find_node_queries_started, 1),
                ..old(self).spec_stats()
            }),
            final(self).pool().retrieves() == old(self).pool().retrieves(),
            final(self).dht() == old(self).dht(),
            final(self).files() == old(self).files(),
            final(self).spec_now() == old(self).spec_now(),
            final(self).spec_id() == old(self).spec_id(),
            final(self).spec_config() == old(self).spec_config(),
    {
        let query_id = self.queries.next_query_id();
        self.emit_self(
            Message::GetValueQueryTimeout(GetValueQueryTimeout { query_id }),
            self.config.query_timeout,
        );
        let f = self.find_node(&key, QueryTrigger::GetValue(query_id));
        let query = GetValueQuery::new(key, self.config.caching_max_peers);
        self.queries.add_get_value_query(query_id, query);
        self.stats.get_value_queries_started = bump(self.stats.get_value_queries_started);
        assert(self.queries.find_nodes().contains_key(f.0));
        query_id
    }

    /// Starts a query that stores `record` on the peers closest to its key.
    pub fn put_value(&mut self, record: Record) -> (r: QueryId)
        requires
            old(self).wf(),
        ensures
            final(self).wf(),
            r.0 == old(self).pool().spec_next_id(),
            final(self).pool().put_values().contains_key(r.0),
            final(self).pool().put_values()[r.0].spec_record() == record@,
            exists|f: u64|
                #[trigger] final(self).pool().find_nodes().contains_key(f)
                    && final(self).pool().find_nodes()[f].spec_trigger() == QueryTrigger::PutValue(r)
                    && final(self).pool().find_nodes()[f].target() == record@.0,
            final(self).spec_stats() == (QueriesStats {
                put_value_queries_started: sat32(old(self).spec_stats().put_value_queries_started, 1),
                find_node_queries_started: sat32(old(self).spec_stats().find_node_queries_started, 1),
                ..old(self).spec_stats()
            }),
            final(self).outbox().len() > old(self).outbox().len(),
            final(self).outbox().subrange(0, old(self).outbox().len() as int) == old(self).outbox(),
            final(self).outbox().last().message is FindNodeRequest,
            final(self).pool().retrieves() == old(self).pool().retrieves(),
            final(self).dht() == old(self).dht(),
            final(self).files() == old(self).files(),
            final(self).spec_now() == old(self).spec_now(),
            final(self).spec_id() == old(self).spec_id(),
            final(self).spec_config() == old(self).spec_config(),
    {
        let query_id = self.queries.next_query_id();
        self.emit_self(
            Message::PutValueQueryTimeout(PutValueQueryTimeout { query_id }),
            self.config.query_timeout,
        );
        let query = PutValueQuery::new(record);
        let key = query.key();
        self.queries.add_put_value_query(query_id, query);
        self.stats.put_value_queries_started = bump(self.stats.put_value_queries_started);
        let f = self.find_node(&key, QueryTrigger::PutValue(query_id));
        assert(self.queries.find_nodes().contains_key(f.0));
        query_id
    }

    /// Publishes `data`: stores it and a provider record of it under its
    /// SHA-256 key, starts a PUT_VALUE of the record, and if republishing
    /// is on, sets the timer that republishes it. Returns the key.
    pub fn publish_data(&mut self, data: String) -> (r: Key)
        requires
            old(self).wf(),
        ensures
            final(self).wf(),
            exists|s: &str| s@ == data@ && r == sha256_key(#[trigger] s.spec_bytes()),
            final(self).files() == old(self).files().insert(r, data@),
            final(self).dht() == old(self).dht().insert(
                r,
                (
                    r,
                    seq![old(self).spec_id()],
                    old(self).spec_now().saturating_add(
                        old(self).spec_config().record_expiration_interval,
                    ),
                ),
            ),
            exists|p: u64|
                #[trigger] final(self).pool().put_values().contains_key(p)
                    && final(self).pool().put_values()[p].spec_record() == (
                    r,
                    seq![old(self).spec_id()],
                    old(self).spec_now().saturating_add(
                        old(self).spec_config().record_expiration_interval,
                    ),
                ),
            final(self).spec_stats() == (QueriesStats {
                put_value_queries_started: sat32(old(self).spec_stats().put_value_queries_started, 1),
                find_node_queries_started: sat32(old(self).spec_stats().find_node_queries_started, 1),
                ..old(self).spec_stats()
            }),
            final(self).outbox().len() > 0,
            (final(self).outbox().last() == Outgoing {
                dst: old(self).spec_id(),
                message: Message::RepublishTimer(RepublishTimer { key: r }),
                delay: Some(old(self).spec_config().record_publication_interval),
            }) == old(self).spec_config().enable_republishing,
            final(self).spec_now() == old(self).spec_now(),
            final(self).spec_id() == old(self).spec_id(),
    {
        let key = Key::from_sha256(data.as_str().as_bytes());
        let record = Record::new_provider_record(
            self.id,
            key,
            self.now,
            self.config.record_expiration_interval,
        );
        self.file_storage.put(key, data);
        self.dht_storage.put(key, record.clone());
        let ghost rv = record@;
        let p = self.put_value(record);
        assert(self.queries.put_values()[p.0].spec_record() == rv);
        if self.config.enable_republishing {
            self.emit_self(
                Message::RepublishTimer(RepublishTimer { key }),
                self.config.record_publication_interval,
            );
        }
        assert(self.queries.put_values().contains_key(p.0));
        assert(self.pool().put_values().contains_key(p.0));
        assert(self.pool().put_values()[p.0].spec_record() == rv);
        key
    }

    /// Stops republishing the data of `key` by dropping it from both stores,
    /// if both hold it.
    pub fn remove_data(&mut self, key: Key)
        requires
            old(self).wf(),
        ensures
            final(self).wf(),
            old(self).dht().contains_key(key) && old(self).files().contains_key(key) ==> {
                &&& final(self).dht() == old(self).dht().remove(key)
                &&& final(self).files() == old(self).files().remove(key)
            },
            !(old(self).dht().contains_key(key) && old(self).files().contains_key(key)) ==> {
                &&& final(self).dht() == old(self).dht()
                &&& final(self).files() == old(self).files()
            },
            final(self).outbox() == old(self).outbox(),
    {
        let in_dht = self.dht_storage.get(&key).is_some();
        let in_files = self.file_storage.get(&key).is_some();
        if in_dht && in_files {
            self.dht_storage.remove(&key);
            self.file_storage.remove(&key);
        }
    }

    /// Starts retrieving the content of `key`: a GET_VALUE for its provider
    /// record, registered as a retrieval with its own timeout.
    pub fn retrieve_data(&mut self, key: Key) -> (r: QueryId)
        requires
            old(self).wf(),
        ensures
            final(self).wf(),
            final(self).pool().retrieves() == old(self).pool().retrieves().insert(r.0),
            final(self).pool().get_values().contains_key(r.0),
            final(self).pool().get_values()[r.0].spec_key() == key,
            final(self).spec_stats().retrieve_data_queries_started == sat32(
                old(self).spec_stats().retrieve_data_queries_started,
                1,
            ),
            final(self).outbox().len() > 0,
            final(self).outbox().last() == (Outgoing {
                dst: old(self).spec_id(),
                message: Message::RetrieveDataQueryTimeout(RetrieveDataQueryTimeout { query_id: r }),
                delay: Some(old(self).spec_config().query_timeout),
            }),
            final(self).dht() == old(self).dht(),
            final(self).files() == old(self).files(),
    {
        let query_id = self.get_value(key);
        assert(self.queries.get_values().contains_key(query_id.0));
        self.emit_self(
            Message::RetrieveDataQueryTimeout(RetrieveDataQueryTimeout { query_id }),
            self.config.query_timeout,
        );
        assert(self.queries.get_values().contains_key(query_id.0));
        self.queries.add_retrieve_data_query(query_id);
        assert(self.queries.get_values().contains_key(query_id.0));
        self.stats.retrieve_data_queries_started = bump(self.stats.retrieve_data_queries_started);
        assert(self.pool().get_values().contains_key(query_id.0));
        assert(self.pool().get_values()[query_id.0].spec_key() == key);
        query_id
    }

    /// Answers a FindNode request of `src_id` with the peers of the table
    /// that `local_closest_peers_approximate` picks for `key`.
    pub fn on_find_node_request(&mut self, src_id: PeerId, query_id: QueryId, key: Key)
        requires
            old(self).wf(),
        ensures
            Peer::on_find_node_request_post(*old(self), *final(self), src_id, query_id, key),
    {
        let closest_peers = self.kbuckets.local_closest_peers_approximate(&key, self.config.k);
        self.send_message(Message::FindNodeResponse(FindNodeResponse { query_id, closest_peers }), src_id);
        assert(self.outbox@.subrange(0, old(self).outbox@.len() as int) =~= old(self).outbox@);
    }

    /// Hands the response of `src_id` to the lookup `query_id`, if it is
    /// still in flight. The requests it asks for are sent. When it completes,
    /// its result is scored against `oracle`, its peers are added to the
    /// table, the query that started it goes on (a PUT_VALUE sends the
    /// record to each peer found; a GET_VALUE asks each of them for the
    /// record), and the lookup is dropped.
    pub fn on_find_node_response(
        &mut self,
        src_id: PeerId,
        query_id: QueryId,
        closest_peers: Vec<PeerId>,
        oracle: &KeysTree,
    )
        requires
            old(self).wf(),
            oracle.wf(),
            oracle.entries().len() <= usize::MAX,
        ensures
            Peer::on_find_node_response_post(*old(self), *final(self), src_id, query_id, closest_peers@, oracle.entries()),
    {
        if !self.queries.has_find_node_query(query_id) {
            return;
        }
        let mut query = match self.queries.remove_find_node_query(query_id) {
            None => {
                return;
            },
            Some(q) => q,
        };
        let ghost q0 = query;
        let ghost mid = *self;
        proof {
            assert forall|q: u64| #[trigger] self.queries.find_nodes().contains_key(q) implies {
                let f = self.queries.find_nodes()[q];
                &&& f.wf()
                &&& f.spec_k() == self.config.k
                &&& f.spec_alpha() == self.config.alpha
            } by {
                assert(old(self).queries.find_nodes().contains_key(q));
            }
        }
        let trigger = query.trigger();
        let r = query.on_response(src_id, query_id, closest_peers);
        let ghost rr = r;
        let ghost q2 = query;
        match r {
            QueryState::InProgress(requests) => {
                self.send_find_node_requests(&requests);
                self.queries.add_find_node_query(query_id, query);
                proof {
                    assert forall|q: u64| #[trigger] self.queries.find_nodes().contains_key(q) implies {
                        let f = self.queries.find_nodes()[q];
                        &&& f.wf()
                        &&& f.spec_k() == self.config.k
                        &&& f.spec_alpha() == self.config.alpha
                    } by {
                        if q != query_id.0 {
                            assert(old(self).queries.find_nodes().contains_key(q));
                        }
                    }
                    assert(self.queries.find_nodes() =~= old(self).queries.find_nodes().insert(query_id.0, q2));
                    assert(FindNodeQuery::response_post(q0, q2, src_id, query_id, closest_peers@, rr));
                }
            },
            QueryState::Completed((target_key, peers)) => {
                self.finish_lookup(trigger, &target_key, &peers, oracle);
                proof {
                    assert(FindNodeQuery::response_post(q0, q2, src_id, query_id, closest_peers@, rr));
                    assert(Peer::finish_post(mid, *self, trigger, target_key, peers@, oracle.entries()));
                }
            },
        }
    }

    fn send_find_node_requests(&mut self, requests: &Vec<(PeerId, FindNodeRequest)>)
        ensures
            *final(self) == (Peer { outbox: final(self).outbox, ..*old(self) }),
            final(self).outbox@ == old(self).outbox@ + find_node_outs(requests@),
    {
        let mut i: usize = 0;
        while i < requests.len()
            invariant
                *self == (Peer { outbox: self.outbox, ..*old(self) }),
                i <= requests@.len(),
                self.outbox@ == old(self).outbox@ + find_node_outs(requests@.subrange(0, i as int)),
            decreases requests@.len() - i,
        {
            let (dst, request) = requests[i];
            self.send_message(Message::FindNodeRequest(request), dst);
            assert(find_node_outs(requests@.subrange(0, i + 1)) =~= find_node_outs(requests@.subrange(0, i as int)).push(
                Outgoing { dst, message: Message::FindNodeRequest(request), delay: None }));
            assert(self.outbox@ =~= old(self).outbox@ + find_node_outs(requests@.subrange(0, i + 1)));
            i = i + 1;
        }
        assert(requests@.subrange(0, requests@.len() as int) =~= requests@);
    }

    fn send_put_value_requests(&mut self, peers: &Vec<PeerId>, put: &PutValueQuery)
        ensures
            *final(self) == (Peer { outbox: final(self).outbox, ..*old(self) }),
            final(self).outbox@.subrange(0, old(self).outbox@.len() as int) == old(self).outbox@,
            put_outs(final(self).outbox@.skip(old(self).outbox@.len() as int), peers@, put.spec_key(), put.spec_record()),
    {
        let key = put.key();
        let mut i: usize = 0;
        while i < peers.len()
            invariant
                *self == (Peer { outbox: self.outbox, ..*old(self) }),
                i <= peers@.len(),
                key == put.spec_key(),
                self.outbox@.len() == old(self).outbox@.len() + i,
                self.outbox@.subrange(0, old(self).outbox@.len() as int) == old(self).outbox@,
                put_outs(self.outbox@.skip(old(self).outbox@.len() as int), peers@.subrange(0, i as int), key, put.spec_record()),
            decreases peers@.len() - i,
        {
            let record = put.record();
            let ghost before = self.outbox@;
            self.send_message(Message::PutValueRequest(PutValueRequest { key, record }), peers[i]);
            proof {
                let n = old(self).outbox@.len() as int;
                assert(self.outbox@.subrange(0, n) =~= before.subrange(0, n));
                let t = self.outbox@.skip(n);
                assert(t =~= before.skip(n).push(self.outbox@.last()));
                assert forall|j: int| 0 <= j < t.len() implies (#[trigger] t[j]).dst == peers@.subrange(0, i + 1)[j] && t[j].delay is None
                    && (t[j].message matches Message::PutValueRequest(m) && m.key == key && m.record@ == put.spec_record()) by {
                    if j < t.len() - 1 {
                        assert(t[j] == before.skip(n)[j]);
                        assert(peers@.subrange(0, i + 1)[j] == peers@.subrange(0, i as int)[j]);
                    }
                }
            }
            i = i + 1;
        }
        assert(peers@.subrange(0, peers@.len() as int) =~= peers@);
    }

    fn send_get_value_requests(&mut self, peers: &Vec<PeerId>, query_id: QueryId, key: Key)
        ensures
            *final(self) == (Peer { outbox: final(self).outbox, ..*old(self) }),
            final(self).outbox@ == old(self).outbox@ + get_value_outs(peers@, query_id, key),
    {
        let mut i: usize = 0;
        while i < peers.len()
            invariant
                *self == (Peer { outbox: self.outbox, ..*old(self) }),
                i <= peers@.len(),
                self.outbox@ == old(self).outbox@ + get_value_outs(peers@.subrange(0, i as int), query_id, key),
            decreases peers@.len() - i,
        {
            self.send_message(Message::GetValueRequest(GetValueRequest { query_id, key }), peers[i]);
            assert(get_value_outs(peers@.subrange(0, i + 1), query_id, key) =~= get_value_outs(peers@.subrange(0, i as int), query_id, key).push(
                Outgoing { dst: peers@[i as int], message: Message::GetValueRequest(GetValueRequest { query_id, key }), delay: None }));
            assert(self.outbox@ =~= old(self).outbox@ + get_value_outs(peers@.subrange(0, i + 1), query_id, key));
            i = i + 1;
        }
        assert(peers@.subrange(0, peers@.len() as int) =~= peers@);
    }

    /// What a completed lookup for `target` that found `peers` does, from
    /// `o` to `f` (with `oracle` the oracle's entries): the lookup is
    /// scored and counted, each peer found is acknowledged in the table at
    /// the current time, and the query that started it goes on. A
    /// registered PUT_VALUE is removed, counted and sends its record to
    /// each peer found; a registered GET_VALUE asks each of them for the
    /// record.
    pub open spec fn finish_post(
        o: Peer,
        f: Peer,
        trigger: QueryTrigger,
        target: Key,
        peers: Seq<PeerId>,
        oracle: Seq<KeyEntry>,
    ) -> bool {
        let put_done = trigger matches QueryTrigger::PutValue(p) && o.pool().put_values().contains_key(p.0);
        &&& f.wf()
        &&& f.spec_id() == o.spec_id()
        &&& f.spec_now() == o.spec_now()
        &&& f.spec_config() == o.spec_config()
        &&& f.dht() == o.dht()
        &&& f.files() == o.files()
        &&& f.table() == table_after_adds(
            o.table(),
            peer_key(o.spec_id()),
            peers,
            o.spec_now(),
            o.spec_config().k as nat,
            o.spec_config().kbuckets_refresh_interval,
        )
        &&& exists|chosen: Seq<KeyEntry>|
            is_closest(chosen, oracle, target, peers.len() as nat) && f.spec_stats() == (QueriesStats {
                closest_peers_total: sat64(o.spec_stats().closest_peers_total, peers.len() as u64),
                closest_peers_correct: sat64(
                    o.spec_stats().closest_peers_correct,
                    count_in(peers, #[trigger] entry_peers(chosen)) as u64,
                ),
                find_node_queries_completed: sat32(o.spec_stats().find_node_queries_completed, 1),
                put_value_queries_completed: if put_done {
                    sat32(o.spec_stats().put_value_queries_completed, 1)
                } else {
                    o.spec_stats().put_value_queries_completed
                },
                ..o.spec_stats()
            })
        &&& f.pool().get_values() == o.pool().get_values()
        &&& f.pool().retrieves() == o.pool().retrieves()
        &&& f.pool().spec_next_id() == o.pool().spec_next_id()
        &&& match trigger {
            QueryTrigger::PutValue(p) => if o.pool().put_values().contains_key(p.0) {
                let q = o.pool().put_values()[p.0];
                &&& f.pool().put_values() == o.pool().put_values().remove(p.0)
                &&& f.outbox().subrange(0, o.outbox().len() as int) == o.outbox()
                &&& put_outs(f.outbox().skip(o.outbox().len() as int), peers, q.spec_key(), q.spec_record())
            } else {
                &&& f.pool().put_values() == o.pool().put_values()
                &&& f.outbox() == o.outbox()
            },
            QueryTrigger::GetValue(g) => {
                &&& f.pool().put_values() == o.pool().put_values()
                &&& f.outbox() == if o.pool().get_values().contains_key(g.0) {
                    o.outbox() + get_value_outs(peers, g, o.pool().get_values()[g.0].spec_key())
                } else {
                    o.outbox()
                }
            },
            _ => {
                &&& f.pool().put_values() == o.pool().put_values()
                &&& f.outbox() == o.outbox()
            },
        }
    }

    /// What follows a completed lookup: scoring, the table, and the query
    /// that started it.
    fn finish_lookup(&mut self, trigger: QueryTrigger, target_key: &Key, peers: &Vec<PeerId>, oracle: &KeysTree)
        requires
            old(self).wf(),
            oracle.wf(),
            oracle.entries().len() <= usize::MAX,
        ensures
            Peer::finish_post(*old(self), *final(self), trigger, *target_key, peers@, oracle.entries()),
            final(self).pool().find_nodes() == old(self).pool().find_nodes(),
    {
        self.stats.evaluate(oracle, target_key, peers.as_slice());
        let ghost st = self.stats;
        let now = self.now;
        let mut i: usize = 0;
        while i < peers.len()
            invariant
                self.wf(),
                self.id == old(self).id,
                self.now == now,
                now == old(self).now,
                self.config == old(self).config,
                self.dht() == old(self).dht(),
                self.files() == old(self).files(),
                self.queries == old(self).queries,
                self.outbox == old(self).outbox,
                self.stats == st,
                self.table() == table_after_adds(
                    old(self).table(),
                    peer_key(old(self).id),
                    peers@.subrange(0, i as int),
                    now,
                    old(self).config.k as nat,
                    old(self).config.kbuckets_refresh_interval,
                ),
                i <= peers@.len(),
            decreases peers@.len() - i,
        {
            self.kbuckets.add_peer(peers[i], now);
            assert(peers@.subrange(0, i + 1).drop_last() =~= peers@.subrange(0, i as int));
            i = i + 1;
        }
        assert(peers@.subrange(0, peers@.len() as int) =~= peers@);
        match trigger {
            QueryTrigger::PutValue(put_id) => {
                match self.queries.remove_put_value_query(put_id) {
                    Some(put) => {
                        self.stats.put_value_queries_completed = bump(self.stats.put_value_queries_completed);
                        self.send_put_value_requests(peers, &put);
                    },
                    None => {
                        assert(self.queries.put_values() =~= old(self).queries.put_values());
                    },
                }
            },
            QueryTrigger::GetValue(get_id) => {
                match self.queries.remove_get_value_query(get_id) {
                    Some(get) => {
                        let key = get.key();
                        self.queries.add_get_value_query(get_id, get);
                        assert(self.queries.get_values() =~= old(self).queries.get_values());
                        self.send_get_value_requests(peers, get_id, key);
                    },
                    None => {
                        assert(self.queries.get_values() =~= old(self).queries.get_values());
                    },
                }
            },
            _ => {},
        }
        self.stats.find_node_queries_completed = bump(self.stats.find_node_queries_completed);
    }

    /// Drops the lookup `query_id` if it is still in flight, and counts it
    /// as failed.
    pub fn on_find_node_query_timeout(&mut self, query_id: QueryId)
        requires
            old(self).wf(),
        ensures
            Peer::on_find_node_query_timeout_post(*old(self), *final(self), query_id),
    {
        if self.queries.remove_find_node_query(query_id).is_some() {
            self.stats.find_node_queries_failed = bump(self.stats.find_node_queries_failed);
        }
    }

    /// Answers a GetValue request of `src_id` with the record stored under
    /// `key`, if any.
    pub fn on_get_value_request(&mut self, src_id: PeerId, query_id: QueryId, key: Key)
        requires
            old(self).wf(),
        ensures
            Peer::on_get_value_request_post(*old(self), *final(self), src_id, query_id, key),
    {
        let record = self.dht_storage.get(&key);
        self.send_message(Message::GetValueResponse(GetValueResponse { query_id, record }), src_id);
        assert(self.outbox@.subrange(0, old(self).outbox@.len() as int) =~= old(self).outbox@);
    }

    /// Hands the answer of `src_id` to the GET_VALUE query `query_id`, if it
    /// is still in flight. When the record is found, the caching requests
    /// are sent, the query completes, and each provider of the record is
    /// asked for the content.
    pub fn on_get_value_response(&mut self, src_id: PeerId, query_id: QueryId, record: Option<Record>)
        requires
            old(self).wf(),
        ensures
            Peer::on_get_value_response_post(*old(self), *final(self), src_id, query_id, record),
    {
        if !self.queries.has_get_value_query(query_id) {
            return;
        }
        let mut query = match self.queries.remove_get_value_query(query_id) {
            None => {
                return;
            },
            Some(q) => q,
        };
        let ghost q0 = query;
        let ghost o_out = self.outbox@;
        let ghost n = o_out.len() as int;
        match query.on_response(src_id, record) {
            QueryState::InProgress(()) => {
                self.queries.add_get_value_query(query_id, query);
                proof {
                    assert(self.queries.find_nodes() =~= old(self).queries.find_nodes());
                }
            },
            QueryState::Completed((record, requests)) => {
                let ghost base = *self;
                let mut i: usize = 0;
                while i < requests.len()
                    invariant
                        *self == (Peer { outbox: self.outbox, ..base }),
                        n == o_out.len(),
                        base.outbox@ == o_out,
                        self.outbox@.len() == n + i,
                        self.outbox@.subrange(0, n) == o_out,
                        requests@.len() == q0.caching().len(),
                        forall|j: int| 0 <= j < requests@.len() ==> (#[trigger] requests@[j]).0 == q0.caching()[j]
                            && requests@[j].1.key == q0.spec_key() && requests@[j].1.record@ == record@,
                        put_outs(self.outbox@.subrange(n, n + i), q0.caching().subrange(0, i as int), q0.spec_key(), record@),
                        i <= requests@.len(),
                    decreases requests@.len() - i,
                {
                    let dst = requests[i].0;
                    let key = requests[i].1.key;
                    let rec = requests[i].1.record.clone();
                    let ghost before = self.outbox@;
                    self.send_message(Message::PutValueRequest(PutValueRequest { key, record: rec }), dst);
                    proof {
                        assert(self.outbox@.subrange(0, n) =~= before.subrange(0, n));
                        let t = self.outbox@.subrange(n, n + i + 1);
                        assert forall|j: int| 0 <= j < t.len() implies (#[trigger] t[j]).dst == q0.caching().subrange(0, i + 1)[j] && t[j].delay is None
                            && (t[j].message matches Message::PutValueRequest(m) && m.key == q0.spec_key() && m.record@ == record@) by {
                            if j < i {
                                assert(t[j] == before.subrange(n, n + i)[j]);
                            } else {
                                assert(t[j] == self.outbox@.last());
                            }
                        }
                    }
                    i = i + 1;
                }
                proof {
                    assert(q0.caching().subrange(0, i as int) =~= q0.caching());
                }
                self.stats.get_value_queries_completed = bump(self.stats.get_value_queries_completed);
                let key = record.key();
                let providers = record.providers();
                let ghost mid_out = self.outbox@;
                let ghost base2 = *self;
                let mut i: usize = 0;
                while i < providers.len()
                    invariant
                        *self == (Peer { outbox: self.outbox, ..base2 }),
                        self.outbox@ == mid_out + retrieve_outs(providers@.subrange(0, i as int), query_id, key),
                        i <= providers@.len(),
                    decreases providers@.len() - i,
                {
                    self.send_message(
                        Message::RetrieveDataRequest(RetrieveDataRequest { query_id, key }),
                        providers[i],
                    );
                    assert(retrieve_outs(providers@.subrange(0, i + 1), query_id, key) =~= retrieve_outs(providers@.subrange(0, i as int), query_id, key).push(
                        Outgoing { dst: providers@[i as int], message: Message::RetrieveDataRequest(RetrieveDataRequest { query_id, key }), delay: None }));
                    assert(self.outbox@ =~= mid_out + retrieve_outs(providers@.subrange(0, i + 1), query_id, key));
                    i = i + 1;
                }
                proof {
                    assert(providers@.subrange(0, providers@.len() as int) =~= providers@);
                    let c = q0.caching().len() as int;
                    assert(self.outbox@.subrange(0, n) =~= mid_out.subrange(0, n));
                    assert(self.outbox@.subrange(n, n + c) =~= mid_out.subrange(n, n + c));
                    assert(self.outbox@.skip(n + c) =~= retrieve_outs(providers@, query_id, key));
                }
            },
        }
    }

    /// Drops the GET_VALUE query `query_id` if it is still in flight, and
    /// counts it as failed.
    pub fn on_get_value_query_timeout(&mut self, query_id: QueryId)
        requires
            old(self).wf(),
        ensures
            Peer::on_get_value_query_timeout_post(*old(self), *final(self), query_id),
    {
        if self.queries.remove_get_value_query(query_id).is_some() {
            self.stats.get_value_queries_failed = bump(self.stats.get_value_queries_failed);
        }
    }

    /// Stores `record` under `key`.
    pub fn on_put_value_request(&mut self, key: Key, record: Record)
        requires
            old(self).wf(),
        ensures
            Peer::on_put_value_request_post(*old(self), *final(self), key, record),
    {
        self.dht_storage.put(key, record);
    }

    /// Drops the PUT_VALUE query `query_id` if it is still in flight, and
    /// counts it as failed.
    pub fn on_put_value_query_timeout(&mut self, query_id: QueryId)
        requires
            old(self).wf(),
        ensures
            Peer::on_put_value_query_timeout_post(*old(self), *final(self), query_id),
    {
        if self.queries.remove_put_value_query(query_id).is_some() {
            self.stats.put_value_queries_failed = bump(self.stats.put_value_queries_failed);
        }
    }

    /// Sends `src_id` the content stored under `key`; sends nothing if
    /// there is none.
    pub fn on_retrieve_data_request(&mut self, src_id: PeerId, query_id: QueryId, key: Key)
        requires
            old(self).wf(),
        ensures
            Peer::on_retrieve_data_request_post(*old(self), *final(self), src_id, query_id, key),
    {
        if let Some(data) = self.file_storage.get(&key) {
            self.send_message(
                Message::RetrieveDataResponse(RetrieveDataResponse { query_id, data: Some(data) }),
                src_id,
            );
            assert(self.outbox@.subrange(0, old(self).outbox@.len() as int) =~= old(self).outbox@);
        }
    }

    /// Completes the retrieval `query_id` on the first response that carries
    /// content, if it is still registered.
    pub fn on_retrieve_data_response(&mut self, query_id: QueryId, data: Option<String>)
        requires
            old(self).wf(),
        ensures
            Peer::on_retrieve_data_response_post(*old(self), *final(self), query_id, data),
    {
        if data.is_some() {
            if self.queries.remove_retrieve_data_query(query_id) {
                self.stats.retrieve_data_queries_completed = bump(self.stats.retrieve_data_queries_completed);
            }
        }
    }

    /// Unregisters the retrieval `query_id` if it still is, and counts it as
    /// failed.
    pub fn on_retrieve_data_query_timeout(&mut self, query_id: QueryId)
        requires
            old(self).wf(),
        ensures
            Peer::on_retrieve_data_query_timeout_post(*old(self), *final(self), query_id),
    {
        if self.queries.remove_retrieve_data_query(query_id) {
            self.stats.retrieve_data_queries_failed = bump(self.stats.retrieve_data_queries_failed);
        }
    }

    /// Refreshes the table: drops expired records, looks up a random key in
    /// each of the first buckets (at most `REFRESH_BUCKETS_MAX`, and at most
    /// one per key of `entropy`, whose bits make the keys), then the peer's
    /// own key, and sets the next refresh.
    pub fn refresh_kbuckets_table(&mut self, entropy: &Vec<Key>)
        requires
            old(self).wf(),
        ensures
            Peer::refresh_kbuckets_table_post(*old(self), *final(self), entropy@),
    {
        self.dht_storage.remove_expired(self.now);
        let ghost dht_after = self.dht();
        assert(dht_after =~= old(self).dht().restrict(
            old(self).dht().dom().filter(|k: Key| old(self).dht()[k].2 > old(self).spec_now()),
        )) by {
            assert(old(self).dht().dom().filter(|k: Key| old(self).dht()[k].2 > old(self).spec_now())
                =~= old(self).dht_storage.view().dom().filter(|k: Key| old(self).dht_storage.view()[k].2 > old(self).now));
        }
        let bc = self.kbuckets.buckets_count();
        let b = if bc < REFRESH_BUCKETS_MAX { bc } else { REFRESH_BUCKETS_MAX };
        let count = if b < entropy.len() { b } else { entropy.len() };
        let local_key = self.kbuckets.local_key();
        let ghost m = count as nat;
        let ghost keys = refresh_keys(local_key, entropy@, m);
        let ghost first = old(self).queries.spec_next_id();
        let ghost out0 = self.outbox@;
        let mut i: usize = 0;
        while i < count
            invariant
                self.wf(),
                count == m,
                m <= REFRESH_BUCKETS_MAX,
                m <= entropy@.len(),
                local_key == peer_key(old(self).id),
                keys == refresh_keys(local_key, entropy@, m),
                i <= count,
                self.dht() == dht_after,
                self.files() == old(self).files(),
                self.table() == old(self).table(),
                self.id == old(self).id,
                self.config == old(self).config,
                self.now == old(self).now,
                out0 == old(self).outbox@,
                self.outbox@ == out0 + lookups_outs(old(self).id, first, keys.subrange(0, i as int), old(self).config.query_timeout),
                self.queries.spec_next_id() == id_after(first, i as nat),
                forall|j: int| 0 <= j < i ==> {
                    let id = #[trigger] id_after(first, j as nat);
                    &&& self.queries.find_nodes().contains_key(id)
                    &&& self.queries.find_nodes()[id].target() == keys[j]
                    &&& self.queries.find_nodes()[id].spec_trigger() == QueryTrigger::Bootstrap
                },
                self.stats == (QueriesStats {
                    find_node_queries_started: sat32(old(self).stats.find_node_queries_started, i as u32),
                    ..old(self).stats
                }),
            decreases count - i,
        {
            let key = Key::random_in_bucket(&local_key, &entropy[i], i);
            let ghost before = self.queries.find_nodes();
            let ghost out_b = self.outbox@;
            let id = self.find_node(&key, QueryTrigger::Bootstrap);
            proof {
                lemma_ids_distinct(first, i as nat);
                assert(keys[i as int] == key);
                assert(keys.subrange(0, i + 1).drop_last() =~= keys.subrange(0, i as int));
                assert(id.0 == id_after(first, i as nat));
                assert(id_after(first, (i + 1) as nat) == next_id_after(id_after(first, i as nat)));
                assert(self.outbox@ =~= out0 + lookups_outs(old(self).id, first, keys.subrange(0, i + 1), old(self).config.query_timeout));
                assert forall|j: int| 0 <= j < i + 1 implies {
                    let id2 = #[trigger] id_after(first, j as nat);
                    &&& self.queries.find_nodes().contains_key(id2)
                    &&& self.queries.find_nodes()[id2].target() == keys[j]
                    &&& self.queries.find_nodes()[id2].spec_trigger() == QueryTrigger::Bootstrap
                } by {
                    if j < i {
                        assert(id_after(first, j as nat) != id_after(first, i as nat));
                    }
                }
            }
            i = i + 1;
        }
        let ghost before = self.queries.find_nodes();
        let id = self.find_node(&local_key, QueryTrigger::Bootstrap);
        proof {
            lemma_ids_distinct(first, m);
            assert(keys[m as int] == local_key);
            assert(keys.subrange(0, m as int + 1) =~= keys);
            assert(keys.subrange(0, m as int + 1).drop_last() =~= keys.subrange(0, m as int));
            assert(self.outbox@ =~= out0 + lookups_outs(old(self).id, first, keys, old(self).config.query_timeout));
            assert forall|j: int| 0 <= j <= m implies {
                let id2 = #[trigger] id_after(first, j as nat);
                &&& self.queries.find_nodes().contains_key(id2)
                &&& self.queries.find_nodes()[id2].target() == keys[j]
                &&& self.queries.find_nodes()[id2].spec_trigger() == QueryTrigger::Bootstrap
            } by {
                if j < m {
                    assert(id_after(first, j as nat) != id_after(first, m));
                }
            }
        }
        self.emit_self(
            Message::BootstrapTimer(BootstrapTimer {}),
            self.config.kbuckets_refresh_interval,
        );
        assert(self.outbox@ =~= old(self).outbox@ + lookups_outs(old(self).id, first, keys, old(self).config.query_timeout) + seq![
            Outgoing {
                dst: old(self).id,
                message: Message::BootstrapTimer(BootstrapTimer {}),
                delay: Some(old(self).config.kbuckets_refresh_interval),
            },
        ]);
    }

    /// Republishes the record of `key`, if both stores still hold it: the
    /// stored record is dropped and put again with a fresh expiration, and
    /// the next republication is set.
    pub fn on_republish_timer(&mut self, key: Key)
        requires
            old(self).wf(),
        ensures
            Peer::on_republish_timer_post(*old(self), *final(self), key),
    {
        let record = self.dht_storage.get(&key);
        let has_file = self.file_storage.get(&key).is_some();
        if let Some(record) = record {
            if has_file {
                self.dht_storage.remove(&key);
                let refreshed = record.refreshed(self.now, self.config.record_expiration_interval);
                let ghost rv = refreshed@;
                let p = self.put_value(refreshed);
                self.emit_self(
                    Message::RepublishTimer(RepublishTimer { key }),
                    self.config.record_publication_interval,
                );
                assert(self.pool().put_values().contains_key(p.0));
                assert(self.pool().put_values()[p.0].spec_record() == rv);
            }
        }
    }

    /// Handles a message from `src_id`: first acknowledges the sender in the
    /// table, then acts on the message. `entropy` gives the random bits that
    /// a refresh needs; `oracle` scores completed lookups.
    #[verifier::rlimit(80)]
    pub fn on_event(&mut self, src_id: PeerId, message: Message, entropy: &Vec<Key>, oracle: &KeysTree)
        requires
            old(self).wf(),
            oracle.wf(),
            oracle.entries().len() <= usize::MAX,
        ensures
            final(self).wf(),
            exists|mid: Peer|
                #[trigger] Peer::acknowledged(*old(self), mid, src_id) && Peer::handled(mid, *final(self), src_id, message, entropy@, oracle.entries()),
    {
        let now = self.now;
        self.kbuckets.add_peer(src_id, now);
        let ghost mid = *self;
        let ghost msg = message;
        proof {
            assert(Peer::acknowledged(*old(self), mid, src_id));
        }
        match message {
            Message::FindNodeRequest(m) => self.on_find_node_request(src_id, m.query_id, m.key),
            Message::FindNodeResponse(m) => self.on_find_node_response(src_id, m.query_id, m.closest_peers, oracle),
            Message::FindNodeQueryTimeout(m) => self.on_find_node_query_timeout(m.query_id),
            Message::GetValueRequest(m) => self.on_get_value_request(src_id, m.query_id, m.key),
            Message::GetValueResponse(m) => self.on_get_value_response(src_id, m.query_id, m.record),
            Message::GetValueQueryTimeout(m) => self.on_get_value_query_timeout(m.query_id),
            Message::PutValueRequest(m) => self.on_put_value_request(m.key, m.record),
            Message::PutValueQueryTimeout(m) => self.on_put_value_query_timeout(m.query_id),
            Message::RetrieveDataRequest(m) => self.on_retrieve_data_request(src_id, m.query_id, m.key),
            Message::RetrieveDataResponse(m) => self.on_retrieve_data_response(m.query_id, m.data),
            Message::RetrieveDataQueryTimeout(m) => self.on_retrieve_data_query_timeout(m.query_id),
            Message::PingRequest(_) => {
                self.stats.ping_requests_cnt = bump(self.stats.ping_requests_cnt);
                self.send_message(Message::PingResponse(PingResponse {}), src_id);
            },
            Message::PingResponse(_) => {
                self.stats.ping_responses_cnt = bump(self.stats.ping_responses_cnt);
            },
            Message::PingTimeout(_) => {
                self.stats.ping_requests_failed = bump(self.stats.ping_requests_failed);
            },
            Message::BootstrapTimer(_) => self.refresh_kbuckets_table(entropy),
            Message::RepublishTimer(m) => self.on_republish_timer(m.key),
        }
        proof {
            assert(Peer::handled(mid, *self, src_id, msg, entropy@, oracle.entries()));
        }
    }

    /// `mid` is `pre` with `src_id` acknowledged in the table at the
    /// current time, and nothing else changed.
    pub open spec fn acknowledged(pre: Peer, mid: Peer, src_id: PeerId) -> bool {
        &&& mid.wf()
        &&& mid.table() == table_after_add(
            pre.table(),
            peer_key(pre.spec_id()),
            src_id,
            pre.spec_now(),
            pre.spec_config().k as nat,
            pre.spec_config().kbuckets_refresh_interval,
        )
        &&& mid.spec_id() == pre.spec_id()
        &&& mid.spec_now() == pre.spec_now()
        &&& mid.spec_config() == pre.spec_config()
        &&& mid.pool() == pre.pool()
        &&& mid.dht() == pre.dht()
        &&& mid.files() == pre.files()
        &&& mid.spec_stats() == pre.spec_stats()
        &&& mid.outbox() == pre.outbox()
        &&& mid.routing().spec_local_key() == pre.routing().spec_local_key()
        &&& mid.routing().spec_k() == pre.routing().spec_k()
    }

    /// What handling `message` from `src_id` does, from `pre` to `post`:
    /// the handler of its kind, or the ping counters.
    pub open spec fn handled(
        pre: Peer,
        post: Peer,
        src_id: PeerId,
        message: Message,
        entropy: Seq<Key>,
        oracle: Seq<KeyEntry>,
    ) -> bool {
        match message {
            Message::FindNodeRequest(m) => Peer::on_find_node_request_post(pre, post, src_id, m.query_id, m.key),
            Message::FindNodeResponse(m) => Peer::on_find_node_response_post(
                pre,
                post,
                src_id,
                m.query_id,
                m.closest_peers@,
                oracle,
            ),
            Message::FindNodeQueryTimeout(m) => Peer::on_find_node_query_timeout_post(pre, post, m.query_id),
            Message::GetValueRequest(m) => Peer::on_get_value_request_post(pre, post, src_id, m.query_id, m.key),
            Message::GetValueResponse(m) => Peer::on_get_value_response_post(pre, post, src_id, m.query_id, m.record),
            Message::GetValueQueryTimeout(m) => Peer::on_get_value_query_timeout_post(pre, post, m.query_id),
            Message::PutValueRequest(m) => Peer::on_put_value_request_post(pre, post, m.key, m.record),
            Message::PutValueQueryTimeout(m) => Peer::on_put_value_query_timeout_post(pre, post, m.query_id),
            Message::RetrieveDataRequest(m) => Peer::on_retrieve_data_request_post(pre, post, src_id, m.query_id, m.key),
            Message::RetrieveDataResponse(m) => Peer::on_retrieve_data_response_post(pre, post, m.query_id, m.data),
            Message::RetrieveDataQueryTimeout(m) => Peer::on_retrieve_data_query_timeout_post(pre, post, m.query_id),
            Message::PingRequest(_) => {
                &&& post.wf()
                &&& post.spec_stats() == (QueriesStats {
                    ping_requests_cnt: sat32(pre.spec_stats().ping_requests_cnt, 1),
                    ..pre.spec_stats()
                })
                &&& post.outbox() == pre.outbox().push(
                    Outgoing { dst: src_id, message: Message::PingResponse(PingResponse {}), delay: None },
                )
                &&& post.table() == pre.table()
                &&& post.pool() == pre.pool()
                &&& post.dht() == pre.dht()
                &&& post.files() == pre.files()
            },
            Message::PingResponse(_) => {
                &&& post.wf()
                &&& post.spec_stats() == (QueriesStats {
                    ping_responses_cnt: sat32(pre.spec_stats().ping_responses_cnt, 1),
                    ..pre.spec_stats()
                })
                &&& post.outbox() == pre.outbox()
                &&& post.table() == pre.table()
                &&& post.pool() == pre.pool()
                &&& post.dht() == pre.dht()
                &&& post.files() == pre.files()
            },
            Message::PingTimeout(_) => {
                &&& post.wf()
                &&& post.spec_stats() == (QueriesStats {
                    ping_requests_failed: sat32(pre.spec_stats().ping_requests_failed, 1),
                    ..pre.spec_stats()
                })
                &&& post.outbox() == pre.outbox()
                &&& post.table() == pre.table()
                &&& post.pool() == pre.pool()
                &&& post.dht() == pre.dht()
                &&& post.files() == pre.files()
            },
            Message::BootstrapTimer(_) => Peer::refresh_kbuckets_table_post(pre, post, entropy),
            Message::RepublishTimer(m) => Peer::on_republish_timer_post(pre, post, m.key),
        }
    }

    /// Fills the table from the oracle, which no real peer has: for each
    /// bucket index below `log2(num_peers)`, `k` times, the peer that the
    /// oracle finds closest to a random key of that bucket is added. Draw
    /// `n` uses the bits of `entropy[n]` and bucket `n / k`, as far as
    /// `entropy` goes.
    pub fn fill_kbuckets_unfair(&mut self, oracle: &KeysTree, num_peers: u32, entropy: &Vec<Key>)
        requires
            old(self).wf(),
            oracle.wf(),
            oracle.entries().len() <= usize::MAX,
        ensures
            final(self).wf(),
            final(self).dht() == old(self).dht(),
            final(self).files() == old(self).files(),
            final(self).outbox() == old(self).outbox(),
            final(self).spec_stats() == old(self).spec_stats(),
            final(self).pool() == old(self).pool(),
            oracle.entries().len() == 0 ==> final(self).table() == old(self).table(),
            oracle.entries().len() > 0 ==> exists|picks: Seq<PeerId>|
                picks.len() == fill_draws(
                    entropy@.len() as int,
                    log2_floor(num_peers as nat) as int,
                    old(self).spec_config().k as int,
                ) && (forall|n: int|
                    0 <= n < picks.len() ==> is_oracle_closest(
                        oracle.entries(),
                        bucket_key(peer_key(old(self).spec_id()), entropy@[n], n / (old(self).spec_config().k as int)),
                        #[trigger] picks[n],
                    )) && final(self).table() == #[trigger] table_after_adds(
                    old(self).table(),
                    peer_key(old(self).spec_id()),
                    picks,
                    old(self).spec_now(),
                    old(self).spec_config().k as nat,
                    old(self).spec_config().kbuckets_refresh_interval,
                ),
    {
        let bits = ilog2(num_peers);
        let local_key = self.kbuckets.local_key();
        let now = self.now;
        let k = self.config.k;
        let ghost mut picks: Seq<PeerId> = Seq::empty();
        let mut n: usize = 0;
        while n < entropy.len() && n / k < bits
            invariant
                self.wf(),
                oracle.wf(),
                oracle.entries().len() <= usize::MAX,
                k == old(self).config.k,
                k >= 1,
                bits == log2_floor(num_peers as nat),
                bits <= 32,
                local_key == peer_key(old(self).id),
                now == old(self).now,
                *self == (Peer { kbuckets: self.kbuckets, ..*old(self) }),
                n <= entropy@.len(),
                n <= bits * k,
                oracle.entries().len() > 0 ==> picks.len() == n,
                oracle.entries().len() > 0 ==> forall|m: int| 0 <= m < picks.len() ==> is_oracle_closest(
                    oracle.entries(),
                    bucket_key(local_key, entropy@[m], m / (k as int)),
                    #[trigger] picks[m],
                ),
                oracle.entries().len() > 0 ==> self.table() == table_after_adds(
                    old(self).table(), local_key, picks, now, k as nat, old(self).config.kbuckets_refresh_interval),
                oracle.entries().len() == 0 ==> self.table() == old(self).table(),
            decreases entropy@.len() - n,
        {
            let i = n / k;
            proof {
                assert(n < bits * k) by (nonlinear_arith)
                    requires
                        n / k < bits,
                        k >= 1,
                ;
            }
            let key = Key::random_in_bucket(&local_key, &entropy[n], i);
            let peers = oracle.find_closest_peers(&key, 1);
            if peers.len() > 0 {
                proof {
                    let chosen = choose|chosen: Seq<KeyEntry>| is_closest(chosen, oracle.entries(), key, 1)
                        && peers@ == #[trigger] entry_peers(chosen);
                    let e = chosen[0];
                    assert(peers@[0] == e.1);
                    assert forall|x: KeyEntry| oracle.entries().contains(x) implies key_xor(e.0, key).spec_le(key_xor(x.0, key)) by {
                        if chosen.contains(x) {
                            let w = choose|w: int| 0 <= w < chosen.len() && chosen[w] == x;
                        } else {
                            assert(key_xor(chosen[0].0, key).spec_le(key_xor(x.0, key)));
                        }
                    }
                    assert(is_oracle_closest(oracle.entries(), key, peers@[0]));
                }
                let ghost prev = picks;
                proof {
                    picks = picks.push(peers@[0]);
                    assert(picks.drop_last() =~= prev);
                    assert(picks.last() == peers@[0]);
                    assert forall|m: int| 0 <= m < picks.len() implies is_oracle_closest(
                        oracle.entries(),
                        bucket_key(local_key, entropy@[m], m / (k as int)),
                        #[trigger] picks[m],
                    ) by {
                        if m < prev.len() {
                            assert(picks[m] == prev[m]);
                        }
                    }
                }
                self.kbuckets.add_peer(peers[0], now);
            } else {
                proof {
                    assert(oracle.entries().len() == 0);
                }
            }
            n = n + 1;
        }
        proof {
            if !(n < entropy@.len()) {
            } else {
                assert(n >= bits * k) by (nonlinear_arith)
                    requires
                        n / k >= bits,
                        k >= 1,
                ;
            }
            if oracle.entries().len() > 0 {
                assert(picks.len() == fill_draws(entropy@.len() as int, bits as int, k as int));
                assert(self.table() == table_after_adds(
                    old(self).table(),
                    peer_key(old(self).spec_id()),
                    picks,
                    old(self).spec_now(),
                    old(self).spec_config().k as nat,
                    old(self).spec_config().kbuckets_refresh_interval,
                ));
                assert(picks.len() == fill_draws(
                    entropy@.len() as int,
                    log2_floor(num_peers as nat) as int,
                    old(self).spec_config().k as int,
                ));
            }
        }
    }
}

/// `p` is the peer of a key of `entries` closest to `target`.
pub open spec fn is_oracle_closest(entries: Seq<KeyEntry>, target: Key, p: PeerId) -> bool {
    exists|e: KeyEntry|
        #[trigger] entries.contains(e) && e.1 == p && forall|x: KeyEntry|
            entries.contains(x) ==> key_xor(e.0, target).spec_le(key_xor(x.0, target))
}

/// The number of draws of `fill_kbuckets_unfair`: `k` for each of `bits`
/// buckets, as far as `entropy` entries go.
pub open spec fn fill_draws(entropy: int, bits: int, k: int) -> int {
    if entropy < bits * k {
        entropy
    } else {
        bits * k
    }
}

/// The integer base-2 logarithm, rounded down (0 for 0 and 1).
pub open spec fn log2_floor(n: nat) -> nat
    decreases n,
{
    if n <= 1 {
        0
    } else {
        1 + log2_floor(n / 2)
    }
}

proof fn lemma_log2_bound(n: nat, e: nat)
    requires
        n < vstd::arithmetic::power2::pow2(e),
    ensures
        log2_floor(n) <= e,
    decreases n,
{
    if n > 1 {
        assert(e > 0) by {
            if e == 0 {
                vstd::arithmetic::power2::lemma2_to64();
            }
        }
        vstd::arithmetic::power2::lemma_pow2_unfold(e);
        lemma_log2_bound(n / 2, (e - 1) as nat);
    }
}

/// The integer base-2 logarithm, rounded down (0 for 0 and 1).
pub fn ilog2(n: u32) -> (r: usize)
    ensures
        r == log2_floor(n as nat),
        r <= 32,
{
    proof {
        vstd::arithmetic::power2::lemma2_to64();
        lemma_log2_bound(n as nat, 32);
    }
    let mut m: u32 = n;
    let mut r: usize = 0;
    while m > 1
        invariant
            r + log2_floor(m as nat) == log2_floor(n as nat),
            log2_floor(n as nat) <= 32,
        decreases m,
    {
        m = m / 2;
        r = r + 1;
    }
    r
}

} // verus!
