//! Membership of a ring-structured cluster.
//!
//! Every node keeps two neighbours, a successor and a predecessor. A new node
//! inserts itself next to a contact node; the contact admits one joiner at a
//! time. The crate holds the decisions of that protocol as a state machine per
//! node: each function takes the node's state and one event, and gives the next
//! state and the call to make. Sending and receiving is left to the caller.

pub mod identity;
pub mod message;
pub mod connection;
pub mod model;
pub mod ring;
pub mod laws;
pub mod order;
pub mod cluster;
pub mod system;
pub mod inductive;
pub mod concurrent;
