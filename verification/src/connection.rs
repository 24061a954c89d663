//! The two neighbour links of a node.

use vstd::prelude::*;
use crate::identity::NodeIdentity;

verus! {

/// The neighbours of one node: the next node walking the ring, and the
/// previous one.
///
/// Each setter overwrites one link and leaves the other alone. Nothing here
/// reads both links at once or compares before it writes: putting several
/// updates in the right order is the business of the node that owns the links.
#[derive(Clone, Copy, Debug, PartialEq, Eq)]
pub struct Connection {
    next_addr: NodeIdentity,
    prev_addr: NodeIdentity,
}

impl Connection {
    /// The next node walking the ring.
    pub closed spec fn successor(&self) -> NodeIdentity {
        self.next_addr
    }

    /// The previous node walking the ring.
    pub closed spec fn predecessor(&self) -> NodeIdentity {
        self.prev_addr
    }

    /// The links of a node that stands alone: both point at the node itself.
    pub fn new(address: NodeIdentity) -> (connection: Connection)
        ensures
            connection.successor() == address,
            connection.predecessor() == address,
    {
        Connection { next_addr: address, prev_addr: address }
    }

    /// Reads the successor.
    #[verifier::when_used_as_spec(successor)]
    pub fn get_successor(&self) -> (successor: NodeIdentity)
        ensures
            successor == self.successor(),
    {
        self.next_addr
    }

    /// Reads the predecessor.
    #[verifier::when_used_as_spec(predecessor)]
    pub fn get_predecessor(&self) -> (predecessor: NodeIdentity)
        ensures
            predecessor == self.predecessor(),
    {
        self.prev_addr
    }

    /// Overwrites the successor; the predecessor stays.
    pub fn set_successor(&mut self, successor: NodeIdentity)
        ensures
            final(self).successor() == successor,
            final(self).predecessor() == old(self).predecessor(),
    {
        self.next_addr = successor;
    }

    /// Overwrites the predecessor; the successor stays.
    pub fn set_predecessor(&mut self, predecessor: NodeIdentity)
        ensures
            final(self).predecessor() == predecessor,
            final(self).successor() == old(self).successor(),
    {
        self.prev_addr = predecessor;
    }
}

} // verus!
