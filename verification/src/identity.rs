//! The address of a node.

use vstd::prelude::*;

verus! {

/// The address under which a node is reached: an IP host and a port.
///
/// Two identities are the same node exactly when all their fields agree. A
/// node's identity never changes while it runs, and it is the value that every
/// message of the protocol carries.
#[derive(Clone, Copy, Debug, PartialEq, Eq, Structural, Hash)]
pub enum NodeIdentity {
    /// An IPv4 host, its four octets in network order as one number.
    V4 { octets: u32, port: u16 },
    /// An IPv6 host, its eight segments in network order as one number, with
    /// the flow label and the scope of the socket address.
    V6 { segments: u128, port: u16, flowinfo: u32, scope_id: u32 },
}

} // verus!
