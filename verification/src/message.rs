//! What nodes say to each other, and what can go wrong.

use vstd::prelude::*;
use crate::identity::NodeIdentity;

verus! {

/// The remote procedures that a node calls on another node.
#[derive(Clone, Copy, Debug, PartialEq, Eq, Structural)]
pub enum Rpc {
    /// Asks the target to admit the sender as its new predecessor.
    JoinRing,
    /// Tells the target to overwrite its successor.
    SetSuccessor,
}

/// A call that the node wants made: `rpc` on `target`, carrying `host`.
///
/// The functions of a node never send anything themselves. They return the
/// call, the caller makes it and hands the outcome to the node's next step.
#[derive(Clone, Copy, Debug, PartialEq, Eq, Structural)]
pub struct Outbound {
    pub rpc: Rpc,
    pub target: NodeIdentity,
    pub host: NodeIdentity,
}

/// The answer to an admitted joiner: `host` is the joiner's new predecessor.
#[derive(Clone, Copy, Debug, PartialEq, Eq, Structural)]
pub struct JoinResponse {
    pub host: NodeIdentity,
}

/// The empty acknowledgement of a neighbour update.
#[derive(Clone, Copy, Debug, PartialEq, Eq, Structural)]
pub struct SetHostResponse {}

/// What came back for the join request that a starting node sent.
#[derive(Clone, Copy, Debug, PartialEq, Eq, Structural)]
pub enum JoinReply {
    /// The contact admitted the node and named its new predecessor.
    Admitted(NodeIdentity),
    /// An answer arrived, but the address in it could not be read.
    Malformed,
    /// No answer: the contact was unreachable, refused, timed out, or
    /// reported that the admission failed.
    Failed,
}

/// Why a step of the protocol was refused or failed.
#[derive(Clone, Copy, Debug, PartialEq, Eq, Structural)]
pub enum RingError {
    /// A received address was malformed.
    AddressParse,
    /// A call did not reach its peer, or the peer did not answer.
    RpcDelivery,
    /// The old predecessor could not be told of the joiner, so the joiner was
    /// not admitted.
    PartialJoin,
    /// A join reply arrived at a node that has no join request outstanding.
    NotJoining,
}

/// Where a node stands with respect to the ring.
#[derive(Clone, Copy, Debug, PartialEq, Eq, Structural)]
pub enum Membership {
    /// A ring of one: the node is its own successor and predecessor.
    Unlinked,
    /// The node has sent a join request and waits for the answer.
    JoinPending,
    /// The node has neighbours.
    Linked,
}

/// The admission that a contact node is carrying out.
#[derive(Clone, Copy, Debug, PartialEq, Eq, Structural)]
pub struct Admission {
    /// The node that asked to join.
    pub requester: NodeIdentity,
    /// The contact's predecessor when the admission began.
    pub old_predecessor: NodeIdentity,
}

/// What a contact node does with a join request.
#[derive(Clone, Copy, Debug, PartialEq, Eq, Structural)]
pub enum AdmissionStep {
    /// The admission has begun: make this call, then report its outcome.
    Notify(Outbound),
    /// Another admission is under way; this request waits for its turn.
    Queued,
}

/// The end of one admission.
#[derive(Clone, Copy, Debug, PartialEq, Eq)]
pub struct AdmissionOutcome {
    /// The node whose request this answers.
    pub requester: NodeIdentity,
    /// The answer for the requester.
    pub reply: Result<JoinResponse, RingError>,
    /// The call that begins the next waiting admission, if one was waiting.
    pub next: Option<Outbound>,
}

} // verus!
