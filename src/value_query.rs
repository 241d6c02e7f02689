//! The GET_VALUE and PUT_VALUE queries layered on a lookup.
use vstd::prelude::*;

use crate::key::Key;
use crate::message::PutValueRequest;
use crate::query::QueryState;
use crate::storage::{Record, RecordView};
use crate::PeerId;

verus! {

/// The outcome of a GetValue response: nothing yet, or the record found and
/// the caching requests to send.
pub type GetValueQueryState = QueryState<(), (Record, Vec<(PeerId, PutValueRequest)>)>;

/// Query to get the value associated with a key from the DHT.
#[derive(Debug)]
pub struct GetValueQuery {
    key: Key,
    caching: Vec<PeerId>,
    caching_max_peers: usize,
}

impl GetValueQuery {
    pub closed spec fn spec_key(&self) -> Key {
        self.key
    }

    /// The peers that answered without the record, to be sent it once found.
    pub closed spec fn caching(&self) -> Seq<PeerId> {
        self.caching@
    }

    pub closed spec fn spec_caching_max_peers(&self) -> nat {
        self.caching_max_peers as nat
    }

    /// Creates a query for the record of `key` that remembers at most
    /// `caching_max_peers` peers to cache it on.
    pub fn new(key: Key, caching_max_peers: usize) -> (r: GetValueQuery)
        ensures
            r.spec_key() == key,
            r.caching() == Seq::<PeerId>::empty(),
            r.spec_caching_max_peers() == caching_max_peers,
    {
        GetValueQuery { key, caching: Vec::new(), caching_max_peers }
    }

    /// Returns the key to retrieve the value for.
    pub fn key(&self) -> (r: Key)
        ensures
            r == self.spec_key(),
    {
        self.key
    }

    /// Handles the answer of `peer`. Without a record the peer is
    /// remembered for caching while there is room, and the query goes on.
    /// With one the query completes with that record and a PutValue
    /// request of it to each remembered peer.
    pub fn on_response(&mut self, peer: PeerId, record: Option<Record>) -> (r: GetValueQueryState)
        ensures
            final(self).spec_key() == old(self).spec_key(),
            final(self).spec_caching_max_peers() == old(self).spec_caching_max_peers(),
            match record {
                None => {
                    &&& r matches QueryState::InProgress(_)
                    &&& final(self).caching() == if old(self).caching().len() < old(
                        self,
                    ).spec_caching_max_peers() {
                        old(self).caching().push(peer)
                    } else {
                        old(self).caching()
                    }
                },
                Some(rec) => {
                    &&& final(self).caching() == old(self).caching()
                    &&& match r {
                        QueryState::Completed((found, reqs)) => {
                            &&& found@ == rec@
                            &&& reqs@.len() == old(self).caching().len()
                            &&& forall|i: int|
                                0 <= i < reqs@.len() ==> (#[trigger] reqs@[i]).0 == old(
                                    self,
                                ).caching()[i] && reqs@[i].1.key == old(self).spec_key()
                                    && reqs@[i].1.record@ == rec@
                        },
                        QueryState::InProgress(_) => false,
                    }
                },
            },
    {
        match record {
            Some(record) => {
                let mut requests: Vec<(PeerId, PutValueRequest)> = Vec::new();
                let mut i: usize = 0;
                while i < self.caching.len()
                    invariant
                        i <= self.caching@.len(),
                        requests@.len() == i,
                        forall|j: int|
                            0 <= j < i ==> (#[trigger] requests@[j]).0 == self.caching@[j]
                                && requests@[j].1.key == self.key && requests@[j].1.record@
                                == record@,
                    decreases self.caching@.len() - i,
                {
                    let dst = self.caching[i];
                    let request = PutValueRequest { key: self.key, record: record.clone() };
                    requests.push((dst, request));
                    i = i + 1;
                }
                QueryState::Completed((record, requests))
            },
            None => {
                if self.caching.len() < self.caching_max_peers {
                    self.caching.push(peer);
                }
                QueryState::InProgress(())
            },
        }
    }
}

/// Query to store a record on the peers closest to its key.
#[derive(Debug)]
pub struct PutValueQuery {
    key: Key,
    record: Record,
}

impl PutValueQuery {
    pub closed spec fn spec_key(&self) -> Key {
        self.key
    }

    pub closed spec fn spec_record(&self) -> RecordView {
        self.record@
    }

    /// Creates a query that stores `record` under its key.
    pub fn new(record: Record) -> (r: PutValueQuery)
        ensures
            r.spec_key() == record@.0,
            r.spec_record() == record@,
    {
        PutValueQuery { key: record.key(), record }
    }

    /// Returns the key of the record to store.
    pub fn key(&self) -> (r: Key)
        ensures
            r == self.spec_key(),
    {
        self.key
    }

    /// Returns the record to store.
    pub fn record(&self) -> (r: Record)
        ensures
            r@ == self.spec_record(),
    {
        self.record.clone()
    }
}

} // verus!
