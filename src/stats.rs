//! Counters of the queries that a peer ran, and the accuracy of its lookups.
use vstd::prelude::*;

use crate::find_node::{count_in, evaluate_closest_peers};
use crate::key::Key;
use crate::keys_tree::{entry_peers, is_closest, KeyEntry, KeysTree};
use crate::PeerId;

verus! {

/// Struct to store statistics related to queries.
#[derive(Debug, Default, Clone, Copy, PartialEq, Eq, Structural)]
pub struct QueriesStats {
    pub closest_peers_total: u64,
    pub closest_peers_correct: u64,
    pub find_node_queries_started: u32,
    pub find_node_queries_completed: u32,
    pub find_node_queries_failed: u32,
    pub get_value_queries_started: u32,
    pub get_value_queries_completed: u32,
    pub get_value_queries_failed: u32,
    pub put_value_queries_started: u32,
    pub put_value_queries_completed: u32,
    pub put_value_queries_failed: u32,
    pub ping_requests_cnt: u32,
    pub ping_responses_cnt: u32,
    pub ping_requests_failed: u32,
    pub retrieve_data_queries_started: u32,
    pub retrieve_data_queries_completed: u32,
    pub retrieve_data_queries_failed: u32,
}

/// `a + b`, or the largest value if that does not fit.
pub open spec fn sat32(a: u32, b: u32) -> u32 {
    if a + b <= u32::MAX {
        (a + b) as u32
    } else {
        u32::MAX
    }
}

pub open spec fn sat64(a: u64, b: u64) -> u64 {
    if a + b <= u64::MAX {
        (a + b) as u64
    } else {
        u64::MAX
    }
}

/// Counts one more, staying at the largest value.
pub fn bump(c: u32) -> (r: u32)
    ensures
        r == sat32(c, 1),
{
    if c < u32::MAX {
        c + 1
    } else {
        c
    }
}

fn add32(a: u32, b: u32) -> (r: u32)
    ensures
        r == sat32(a, b),
{
    if a <= u32::MAX - b {
        a + b
    } else {
        u32::MAX
    }
}

fn add64(a: u64, b: u64) -> (r: u64)
    ensures
        r == sat64(a, b),
{
    if a <= u64::MAX - b {
        a + b
    } else {
        u64::MAX
    }
}

impl QueriesStats {
    /// All counters at zero.
    pub open spec fn zero() -> QueriesStats {
        QueriesStats {
            closest_peers_total: 0,
            closest_peers_correct: 0,
            find_node_queries_started: 0,
            find_node_queries_completed: 0,
            find_node_queries_failed: 0,
            get_value_queries_started: 0,
            get_value_queries_completed: 0,
            get_value_queries_failed: 0,
            put_value_queries_started: 0,
            put_value_queries_completed: 0,
            put_value_queries_failed: 0,
            ping_requests_cnt: 0,
            ping_responses_cnt: 0,
            ping_requests_failed: 0,
            retrieve_data_queries_started: 0,
            retrieve_data_queries_completed: 0,
            retrieve_data_queries_failed: 0,
        }
    }

    /// The counters of `a` and `b` added, each staying at its largest value.
    pub open spec fn sum(a: QueriesStats, b: QueriesStats) -> QueriesStats {
        QueriesStats {
            closest_peers_total: sat64(a.closest_peers_total, b.closest_peers_total),
            closest_peers_correct: sat64(a.closest_peers_correct, b.closest_peers_correct),
            find_node_queries_started: sat32(a.find_node_queries_started, b.find_node_queries_started),
            find_node_queries_completed: sat32(a.find_node_queries_completed, b.find_node_queries_completed),
            find_node_queries_failed: sat32(a.find_node_queries_failed, b.find_node_queries_failed),
            get_value_queries_started: sat32(a.get_value_queries_started, b.get_value_queries_started),
            get_value_queries_completed: sat32(a.get_value_queries_completed, b.get_value_queries_completed),
            get_value_queries_failed: sat32(a.get_value_queries_failed, b.get_value_queries_failed),
            put_value_queries_started: sat32(a.put_value_queries_started, b.put_value_queries_started),
            put_value_queries_completed: sat32(a.put_value_queries_completed, b.put_value_queries_completed),
            put_value_queries_failed: sat32(a.put_value_queries_failed, b.put_value_queries_failed),
            ping_requests_cnt: sat32(a.ping_requests_cnt, b.ping_requests_cnt),
            ping_responses_cnt: sat32(a.ping_responses_cnt, b.ping_responses_cnt),
            ping_requests_failed: sat32(a.ping_requests_failed, b.ping_requests_failed),
            retrieve_data_queries_started: sat32(a.retrieve_data_queries_started, b.retrieve_data_queries_started),
            retrieve_data_queries_completed: sat32(a.retrieve_data_queries_completed, b.retrieve_data_queries_completed),
            retrieve_data_queries_failed: sat32(a.retrieve_data_queries_failed, b.retrieve_data_queries_failed),
        }
    }

    /// Creates an empty instance of `QueriesStats`.
    pub fn new() -> (r: QueriesStats)
        ensures
            r == QueriesStats::zero(),
    {
        QueriesStats {
            closest_peers_total: 0,
            closest_peers_correct: 0,
            find_node_queries_started: 0,
            find_node_queries_completed: 0,
            find_node_queries_failed: 0,
            get_value_queries_started: 0,
            get_value_queries_completed: 0,
            get_value_queries_failed: 0,
            put_value_queries_started: 0,
            put_value_queries_completed: 0,
            put_value_queries_failed: 0,
            ping_requests_cnt: 0,
            ping_responses_cnt: 0,
            ping_requests_failed: 0,
            retrieve_data_queries_started: 0,
            retrieve_data_queries_completed: 0,
            retrieve_data_queries_failed: 0,
        }
    }

    /// Records a lookup that returned `returned` peers, `correct` of them
    /// among the true closest.
    pub fn record_lookup(&mut self, returned: u64, correct: u64)
        ensures
            *final(self) == (QueriesStats {
                closest_peers_total: sat64(old(self).closest_peers_total, returned),
                closest_peers_correct: sat64(old(self).closest_peers_correct, correct),
                ..*old(self)
            }),
    {
        self.closest_peers_total = add64(self.closest_peers_total, returned);
        self.closest_peers_correct = add64(self.closest_peers_correct, correct);
    }

    /// Scores a completed lookup for `target_key` that returned `peers`:
    /// how many it returned, and how many of them are among the true
    /// closest that `oracle` finds.
    pub fn evaluate(&mut self, oracle: &KeysTree, target_key: &Key, peers: &[PeerId])
        requires
            oracle.wf(),
            oracle.entries().len() <= usize::MAX,
        ensures
            exists|chosen: Seq<KeyEntry>|
                is_closest(chosen, oracle.entries(), *target_key, peers@.len() as nat)
                    && *final(self) == (QueriesStats {
                    closest_peers_total: sat64(old(self).closest_peers_total, peers@.len() as u64),
                    closest_peers_correct: sat64(
                        old(self).closest_peers_correct,
                        count_in(peers@, #[trigger] entry_peers(chosen)) as u64,
                    ),
                    ..*old(self)
                }),
    {
        let correct = evaluate_closest_peers(oracle, target_key, peers);
        self.record_lookup(peers.len() as u64, correct as u64);
    }

    /// Adds the counters of `other` to these.
    pub fn merge(&mut self, other: &Self)
        ensures
            *final(self) == QueriesStats::sum(*old(self), *other),
    {
        self.closest_peers_total = add64(self.closest_peers_total, other.closest_peers_total);
        self.closest_peers_correct = add64(self.closest_peers_correct, other.closest_peers_correct);
        self.find_node_queries_started = add32(self.find_node_queries_started, other.find_node_queries_started);
        self.find_node_queries_completed = add32(self.find_node_queries_completed, other.find_node_queries_completed);
        self.find_node_queries_failed = add32(self.find_node_queries_failed, other.find_node_queries_failed);
        self.get_value_queries_started = add32(self.get_value_queries_started, other.get_value_queries_started);
        self.get_value_queries_completed = add32(self.get_value_queries_completed, other.get_value_queries_completed);
        self.get_value_queries_failed = add32(self.get_value_queries_failed, other.get_value_queries_failed);
        self.put_value_queries_started = add32(self.put_value_queries_started, other.put_value_queries_started);
        self.put_value_queries_completed = add32(self.put_value_queries_completed, other.put_value_queries_completed);
        self.put_value_queries_failed = add32(self.put_value_queries_failed, other.put_value_queries_failed);
        self.ping_requests_cnt = add32(self.ping_requests_cnt, other.ping_requests_cnt);
        self.ping_responses_cnt = add32(self.ping_responses_cnt, other.ping_responses_cnt);
        self.ping_requests_failed = add32(self.ping_requests_failed, other.ping_requests_failed);
        self.retrieve_data_queries_started = add32(self.retrieve_data_queries_started, other.retrieve_data_queries_started);
        self.retrieve_data_queries_completed = add32(self.retrieve_data_queries_completed, other.retrieve_data_queries_completed);
        self.retrieve_data_queries_failed = add32(self.retrieve_data_queries_failed, other.retrieve_data_queries_failed);
    }
}

} // verus!
