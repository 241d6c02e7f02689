//! The messages that peers exchange, and the timers they set themselves.
use vstd::prelude::*;

use crate::key::Key;
use crate::query::QueryId;
use crate::storage::Record;
use crate::PeerId;

verus! {

/// Request to find the closest peers to a key.
#[derive(Clone, Copy, Debug)]
pub struct FindNodeRequest {
    /// The ID of the query that originated the request.
    pub query_id: QueryId,
    /// The key to search for.
    pub key: Key,
}

/// Response to a FindNode request.
#[derive(Debug)]
pub struct FindNodeResponse {
    /// The ID of the query that originated the request.
    pub query_id: QueryId,
    /// The list of locally closest peers.
    pub closest_peers: Vec<PeerId>,
}

/// Timeout event for a FindNode query.
#[derive(Clone, Copy, Debug)]
pub struct FindNodeQueryTimeout {
    pub query_id: QueryId,
}

/// Request to get the value associated with a key.
#[derive(Clone, Copy, Debug)]
pub struct GetValueRequest {
    /// The ID of the query that originated the request.
    pub query_id: QueryId,
    /// The key to search for.
    pub key: Key,
}

/// Response to a GetValue request.
#[derive(Debug)]
pub struct GetValueResponse {
    /// The ID of the query that originated the request.
    pub query_id: QueryId,
    /// The value associated with the key.
    pub record: Option<Record>,
}

/// Timeout event for a GetValue query.
#[derive(Clone, Copy, Debug)]
pub struct GetValueQueryTimeout {
    pub query_id: QueryId,
}

/// Request to store a value associated with a key.
#[derive(Debug)]
pub struct PutValueRequest {
    /// The key of the value to store.
    pub key: Key,
    /// The value to store.
    pub record: Record,
}

/// Timeout event for a PutValue query.
#[derive(Clone, Copy, Debug)]
pub struct PutValueQueryTimeout {
    pub query_id: QueryId,
}

/// Request for the content stored under a key.
#[derive(Clone, Copy, Debug)]
pub struct RetrieveDataRequest {
    pub query_id: QueryId,
    pub key: Key,
}

/// Response to a RetrieveData request.
#[derive(Debug)]
pub struct RetrieveDataResponse {
    pub query_id: QueryId,
    pub data: Option<String>,
}

/// Timeout event for a RetrieveData query.
#[derive(Clone, Copy, Debug)]
pub struct RetrieveDataQueryTimeout {
    pub query_id: QueryId,
}

/// Request to check if a peer is still alive.
#[derive(Clone, Copy, Debug)]
pub struct PingRequest {}

/// Response to a Ping request.
#[derive(Clone, Copy, Debug)]
pub struct PingResponse {}

/// Timeout event for a Ping query.
#[derive(Clone, Copy, Debug)]
pub struct PingTimeout {}

/// Timer for refreshing the k-buckets table.
#[derive(Clone, Copy, Debug)]
pub struct BootstrapTimer {}

/// Timer for republishing a DHT record.
#[derive(Clone, Copy, Debug)]
pub struct RepublishTimer {
    pub key: Key,
}

/// Timer of the synthetic user load.
#[derive(Clone, Copy, Debug)]
pub struct UserLoadTimer {}

/// Every payload that a peer handles.
#[derive(Debug)]
pub enum Message {
    FindNodeRequest(FindNodeRequest),
    FindNodeResponse(FindNodeResponse),
    FindNodeQueryTimeout(FindNodeQueryTimeout),
    GetValueRequest(GetValueRequest),
    GetValueResponse(GetValueResponse),
    GetValueQueryTimeout(GetValueQueryTimeout),
    PutValueRequest(PutValueRequest),
    PutValueQueryTimeout(PutValueQueryTimeout),
    RetrieveDataRequest(RetrieveDataRequest),
    RetrieveDataResponse(RetrieveDataResponse),
    RetrieveDataQueryTimeout(RetrieveDataQueryTimeout),
    PingRequest(PingRequest),
    PingResponse(PingResponse),
    PingTimeout(PingTimeout),
    BootstrapTimer(BootstrapTimer),
    RepublishTimer(RepublishTimer),
}

} // verus!
