//! The in-flight queries of a peer, by id.
use std::collections::{HashMap, HashSet};
use vstd::prelude::*;

use crate::find_node::FindNodeQuery;
use crate::query::QueryId;
use crate::value_query::{GetValueQuery, PutValueQuery};

verus! {

broadcast use vstd::std_specs::hash::group_hash_axioms;

/// Represents a peer's pool of queries.
#[derive(Debug)]
pub struct QueriesPool {
    next_id: QueryId,
    find_node_queries: HashMap<u64, FindNodeQuery>,
    get_value_queries: HashMap<u64, GetValueQuery>,
    put_value_queries: HashMap<u64, PutValueQuery>,
    retrieve_data_queries: HashSet<u64>,
}

impl QueriesPool {
    pub closed spec fn spec_next_id(&self) -> u64 {
        self.next_id.0
    }

    pub closed spec fn find_nodes(&self) -> Map<u64, FindNodeQuery> {
        self.find_node_queries@
    }

    pub closed spec fn get_values(&self) -> Map<u64, GetValueQuery> {
        self.get_value_queries@
    }

    pub closed spec fn put_values(&self) -> Map<u64, PutValueQuery> {
        self.put_value_queries@
    }

    pub closed spec fn retrieves(&self) -> Set<u64> {
        self.retrieve_data_queries@
    }

    /// Creates an empty pool.
    pub fn new() -> (r: QueriesPool)
        ensures
            r.spec_next_id() == 0,
            r.find_nodes() == Map::<u64, FindNodeQuery>::empty(),
            r.get_values() == Map::<u64, GetValueQuery>::empty(),
            r.put_values() == Map::<u64, PutValueQuery>::empty(),
            r.retrieves() == Set::<u64>::empty(),
    {
        QueriesPool {
            next_id: QueryId(0),
            find_node_queries: HashMap::new(),
            get_value_queries: HashMap::new(),
            put_value_queries: HashMap::new(),
            retrieve_data_queries: HashSet::new(),
        }
    }

    /// Returns a fresh query id; ids count up from zero, wrapping around.
    pub fn next_query_id(&mut self) -> (r: QueryId)
        ensures
            r.0 == old(self).spec_next_id(),
            final(self).spec_next_id() == if old(self).spec_next_id() == u64::MAX {
                0
            } else {
                (old(self).spec_next_id() + 1) as u64
            },
            final(self).find_nodes() == old(self).find_nodes(),
            final(self).get_values() == old(self).get_values(),
            final(self).put_values() == old(self).put_values(),
            final(self).retrieves() == old(self).retrieves(),
    {
        let query_id = self.next_id;
        self.next_id = QueryId(self.next_id.0.wrapping_add(1));
        query_id
    }

    /// Whether the lookup `query_id` is in the pool.
    pub fn has_find_node_query(&self, query_id: QueryId) -> (r: bool)
        ensures
            r == self.find_nodes().contains_key(query_id.0),
    {
        self.find_node_queries.contains_key(&query_id.0)
    }

    /// Whether the GET_VALUE query `query_id` is in the pool.
    pub fn has_get_value_query(&self, query_id: QueryId) -> (r: bool)
        ensures
            r == self.get_values().contains_key(query_id.0),
    {
        self.get_value_queries.contains_key(&query_id.0)
    }

    /// Adds a `FindNodeQuery` to the pool.
    pub fn add_find_node_query(&mut self, query_id: QueryId, query: FindNodeQuery)
        ensures
            final(self).find_nodes() == old(self).find_nodes().insert(query_id.0, query),
            final(self).get_values() == old(self).get_values(),
            final(self).put_values() == old(self).put_values(),
            final(self).retrieves() == old(self).retrieves(),
            final(self).spec_next_id() == old(self).spec_next_id(),
    {
        self.find_node_queries.insert(query_id.0, query);
    }

    /// Removes a `FindNodeQuery` from the pool, returning it if it was there.
    pub fn remove_find_node_query(&mut self, query_id: QueryId) -> (r: Option<FindNodeQuery>)
        ensures
            final(self).find_nodes() == old(self).find_nodes().remove(query_id.0),
            match r {
                Some(q) => old(self).find_nodes().contains_key(query_id.0) && q == old(
                    self,
                ).find_nodes()[query_id.0],
                None => !old(self).find_nodes().contains_key(query_id.0),
            },
            final(self).get_values() == old(self).get_values(),
            final(self).put_values() == old(self).put_values(),
            final(self).retrieves() == old(self).retrieves(),
            final(self).spec_next_id() == old(self).spec_next_id(),
    {
        self.find_node_queries.remove(&query_id.0)
    }

    /// Adds a `GetValueQuery` to the pool.
    pub fn add_get_value_query(&mut self, query_id: QueryId, query: GetValueQuery)
        ensures
            final(self).get_values() == old(self).get_values().insert(query_id.0, query),
            final(self).find_nodes() == old(self).find_nodes(),
            final(self).put_values() == old(self).put_values(),
            final(self).retrieves() == old(self).retrieves(),
            final(self).spec_next_id() == old(self).spec_next_id(),
    {
        self.get_value_queries.insert(query_id.0, query);
    }

    /// Removes a `GetValueQuery` from the pool, returning it if it was there.
    pub fn remove_get_value_query(&mut self, query_id: QueryId) -> (r: Option<GetValueQuery>)
        ensures
            final(self).get_values() == old(self).get_values().remove(query_id.0),
            match r {
                Some(q) => old(self).get_values().contains_key(query_id.0) && q == old(
                    self,
                ).get_values()[query_id.0],
                None => !old(self).get_values().contains_key(query_id.0),
            },
            final(self).find_nodes() == old(self).find_nodes(),
            final(self).put_values() == old(self).put_values(),
            final(self).retrieves() == old(self).retrieves(),
            final(self).spec_next_id() == old(self).spec_next_id(),
    {
        self.get_value_queries.remove(&query_id.0)
    }

    /// Adds a `PutValueQuery` to the pool.
    pub fn add_put_value_query(&mut self, query_id: QueryId, query: PutValueQuery)
        ensures
            final(self).put_values() == old(self).put_values().insert(query_id.0, query),
            final(self).find_nodes() == old(self).find_nodes(),
            final(self).get_values() == old(self).get_values(),
            final(self).retrieves() == old(self).retrieves(),
            final(self).spec_next_id() == old(self).spec_next_id(),
    {
        self.put_value_queries.insert(query_id.0, query);
    }

    /// Removes a `PutValueQuery` from the pool, returning it if it was there.
    pub fn remove_put_value_query(&mut self, query_id: QueryId) -> (r: Option<PutValueQuery>)
        ensures
            final(self).put_values() == old(self).put_values().remove(query_id.0),
            match r {
                Some(q) => old(self).put_values().contains_key(query_id.0) && q == old(
                    self,
                ).put_values()[query_id.0],
                None => !old(self).put_values().contains_key(query_id.0),
            },
            final(self).find_nodes() == old(self).find_nodes(),
            final(self).get_values() == old(self).get_values(),
            final(self).retrieves() == old(self).retrieves(),
            final(self).spec_next_id() == old(self).spec_next_id(),
    {
        self.put_value_queries.remove(&query_id.0)
    }

    /// Registers a RetrieveData query.
    pub fn add_retrieve_data_query(&mut self, query_id: QueryId)
        ensures
            final(self).retrieves() == old(self).retrieves().insert(query_id.0),
            final(self).find_nodes() == old(self).find_nodes(),
            final(self).get_values() == old(self).get_values(),
            final(self).put_values() == old(self).put_values(),
            final(self).spec_next_id() == old(self).spec_next_id(),
    {
        self.retrieve_data_queries.insert(query_id.0);
    }

    /// Unregisters a RetrieveData query; returns whether it was registered.
    pub fn remove_retrieve_data_query(&mut self, query_id: QueryId) -> (r: bool)
        ensures
            final(self).retrieves() == old(self).retrieves().remove(query_id.0),
            r == old(self).retrieves().contains(query_id.0),
            final(self).find_nodes() == old(self).find_nodes(),
            final(self).get_values() == old(self).get_values(),
            final(self).put_values() == old(self).put_values(),
            final(self).spec_next_id() == old(self).spec_next_id(),
    {
        self.retrieve_data_queries.remove(&query_id.0)
    }
}

} // verus!
