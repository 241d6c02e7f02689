//! Which peers can reach which.
use vstd::prelude::*;

use crate::PeerId;

verus! {

/// Represents different network topologies.
#[derive(Clone, Copy, Debug, PartialEq, Eq, Structural)]
pub enum Topology {
    /// A full network topology where all peers are connected to each other.
    Full,
    /// A ring network topology where each peer is connected to its two neighbors.
    /// The first and last peers are also connected.
    Ring { first_id: PeerId, last_id: PeerId },
    /// A star network topology where all peers are connected to a central peer.
    Star { center_id: PeerId },
}

impl Topology {
    /// Whether a message can go from `from` to `to`.
    pub open spec fn allows(self, from: PeerId, to: PeerId) -> bool {
        match self {
            Topology::Full => true,
            Topology::Ring { first_id, last_id } => {
                let a = if from <= to { from } else { to };
                let b = if from <= to { to } else { from };
                a + 1 == b || (a == first_id && b == last_id)
            },
            Topology::Star { center_id } => from == center_id || to == center_id,
        }
    }

    /// Checks if access is allowed from one peer to another based on the network topology.
    pub fn check_access(&self, from: PeerId, to: PeerId) -> (r: bool)
        ensures
            r == self.allows(from, to),
    {
        match self {
            Topology::Full => true,
            Topology::Ring { first_id, last_id } => {
                let (a, b) = if from <= to { (from, to) } else { (to, from) };
                (a < b && a + 1 == b) || (a == *first_id && b == *last_id)
            },
            Topology::Star { center_id } => from == *center_id || to == *center_id,
        }
    }
}

} // verus!
