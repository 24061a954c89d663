//! One node of the ring.

use std::collections::VecDeque;
use vstd::prelude::*;
use crate::connection::Connection;
use crate::identity::NodeIdentity;
use crate::message::{
    Admission, AdmissionOutcome, AdmissionStep, JoinReply, JoinResponse, Membership, Outbound,
    RingError, Rpc, SetHostResponse,
};
use crate::model::RingView;

verus! {

/// A node: its address, its neighbour links, and how far it is with joining
/// and with admitting others.
///
/// The node makes the decisions of the protocol and nothing else. A function
/// that wants a message sent returns the call as an [`Outbound`]; the caller
/// makes the call and reports what came of it with the matching `complete_`
/// function. Between the two, the node takes any other event.
///
/// As a contact the node admits one joiner at a time. A join request that
/// arrives during an admission waits in a queue, so that admissions at one
/// contact happen one after the other, in the order of arrival.
#[derive(Debug)]
pub struct Ring {
    addr: NodeIdentity,
    connection: Connection,
    joining: bool,
    admitting: Option<Admission>,
    waiting: VecDeque<NodeIdentity>,
}

impl View for Ring {
    type V = RingView;

    closed spec fn view(&self) -> RingView {
        RingView {
            addr: self.addr,
            successor: self.connection.successor(),
            predecessor: self.connection.predecessor(),
            joining: self.joining,
            admitting: self.admitting,
            waiting: self.waiting@,
        }
    }
}

impl Ring {
    /// A node at `address` with the links in `connection`, not joining and
    /// not admitting anybody.
    ///
    /// With the links of [`Connection::new`] for the same address this is a
    /// ring of one: successor and predecessor are the node itself.
    pub fn new(address: NodeIdentity, connection: Connection) -> (ring: Ring)
        ensures
            ring@ == (RingView {
                successor: connection.successor(),
                predecessor: connection.predecessor(),
                ..RingView::fresh(address)
            }),
            connection.successor() == address && connection.predecessor() == address ==> ring@
                == RingView::fresh(address),
            ring@.wf(),
    {
        Ring { addr: address, connection, joining: false, admitting: None, waiting: VecDeque::new() }
    }

    /// The node's own address.
    pub fn addr(&self) -> (addr: NodeIdentity)
        ensures
            addr == self@.addr,
    {
        self.addr
    }

    /// The neighbour links as they are now.
    pub fn connection(&self) -> (connection: Connection)
        ensures
            connection.successor() == self@.successor,
            connection.predecessor() == self@.predecessor,
    {
        self.connection
    }

    /// The next node walking the ring.
    pub fn successor(&self) -> (successor: NodeIdentity)
        ensures
            successor == self@.successor,
    {
        self.connection.get_successor()
    }

    /// The previous node walking the ring.
    pub fn predecessor(&self) -> (predecessor: NodeIdentity)
        ensures
            predecessor == self@.predecessor,
    {
        self.connection.get_predecessor()
    }

    /// Where the node stands with respect to the ring.
    pub fn membership(&self) -> (membership: Membership)
        ensures
            membership == self@.membership(),
    {
        if self.joining {
            Membership::JoinPending
        } else if self.connection.get_successor() == self.addr
            && self.connection.get_predecessor() == self.addr {
            Membership::Unlinked
        } else {
            Membership::Linked
        }
    }

    /// The admission under way, if the node is carrying one out.
    pub fn admitting(&self) -> (admitting: Option<Admission>)
        ensures
            admitting == self@.admitting,
    {
        self.admitting
    }

    /// How many joiners wait for their admission.
    pub fn waiting(&self) -> (waiting: usize)
        ensures
            waiting == self@.waiting.len(),
    {
        self.waiting.len()
    }

    /// Handles a neighbour update for the successor. `host` is the address in
    /// the request, `None` if it could not be read.
    ///
    /// A readable address overwrites the successor, whatever it was and
    /// whoever sent it, and nothing else changes. A malformed one is refused
    /// and the node stays as it was.
    pub fn set_next(&mut self, host: Option<NodeIdentity>) -> (ack: Result<SetHostResponse, RingError>)
        ensures
            (final(self)@, ack) == old(self)@.set_next(host),
    {
        match host {
            Some(successor) => {
                self.connection.set_successor(successor);
                Ok(SetHostResponse {})
            },
            None => Err(RingError::AddressParse),
        }
    }

    /// Handles a neighbour update for the predecessor. `host` is the address
    /// in the request, `None` if it could not be read.
    ///
    /// A readable address overwrites the predecessor, whatever it was and
    /// whoever sent it, and nothing else changes. A malformed one is refused
    /// and the node stays as it was.
    pub fn set_prev(&mut self, host: Option<NodeIdentity>) -> (ack: Result<SetHostResponse, RingError>)
        ensures
            (final(self)@, ack) == old(self)@.set_prev(host),
    {
        match host {
            Some(predecessor) => {
                self.connection.set_predecessor(predecessor);
                Ok(SetHostResponse {})
            },
            None => Err(RingError::AddressParse),
        }
    }

    /// Sets out to join the ring through the contact at `next_addr`.
    ///
    /// The contact becomes the successor at once, the node is join-pending,
    /// and the returned call is the join request for the contact, carrying the
    /// node's own address. Report its outcome with [`Ring::complete_join`].
    pub fn join(&mut self, next_addr: NodeIdentity) -> (request: Outbound)
        ensures
            (final(self)@, request) == old(self)@.join(next_addr),
    {
        self.connection.set_successor(next_addr);
        self.joining = true;
        Outbound { rpc: Rpc::JoinRing, target: next_addr, host: self.addr }
    }

    /// Takes the outcome of the join request.
    ///
    /// On admission the predecessor named in the reply becomes the node's
    /// predecessor and the join is over. A malformed reply or a failed call is
    /// an error and changes nothing: the node stays join-pending, and a new
    /// attempt starts over with [`Ring::join`]. A reply that no request is
    /// outstanding for is refused.
    pub fn complete_join(&mut self, reply: JoinReply) -> (joined: Result<(), RingError>)
        ensures
            (final(self)@, joined) == old(self)@.complete_join(reply),
    {
        if !self.joining {
            return Err(RingError::NotJoining);
        }
        match reply {
            JoinReply::Admitted(predecessor) => {
                self.connection.set_predecessor(predecessor);
                self.joining = false;
                Ok(())
            },
            JoinReply::Malformed => Err(RingError::AddressParse),
            JoinReply::Failed => Err(RingError::RpcDelivery),
        }
    }

    /// Handles a join request. `host` is the requester's address, `None` if
    /// it could not be read.
    ///
    /// A malformed address is refused and the node stays as it was. With no
    /// admission under way, the node notes its predecessor, begins the
    /// admission and returns the call that tells that predecessor of its new
    /// successor; report the call's outcome with
    /// [`Ring::complete_admission`]. During an admission the requester is put
    /// at the end of the queue and everything else stays as it was.
    pub fn join_ring(&mut self, host: Option<NodeIdentity>) -> (step: Result<AdmissionStep, RingError>)
        ensures
            (final(self)@, step) == old(self)@.join_ring(host),
    {
        match host {
            None => Err(RingError::AddressParse),
            Some(requester) => {
                if self.admitting.is_some() {
                    self.waiting.push_back(requester);
                    Ok(AdmissionStep::Queued)
                } else {
                    let admission = Admission {
                        requester,
                        old_predecessor: self.connection.get_predecessor(),
                    };
                    self.admitting = Some(admission);
                    Ok(AdmissionStep::Notify(notify(admission)))
                }
            },
        }
    }

    /// Ends the admission under way. `delivered` says whether the old
    /// predecessor acknowledged the call that [`Ring::join_ring`] or the
    /// previous `complete_admission` returned.
    ///
    /// If it did, the requester becomes the node's predecessor, and the reply
    /// names the requester's own predecessor: the one noted when the admission
    /// began. If it did not, the links stay as they were and the reply is
    /// [`RingError::PartialJoin`]: the requester is never told of a success
    /// that the old predecessor has not acknowledged. Either way the oldest
    /// waiting joiner, if there is one, begins its admission, and `next` holds
    /// the call for it. With no admission under way nothing happens and the
    /// result is `None`.
    pub fn complete_admission(&mut self, delivered: bool) -> (outcome: Option<AdmissionOutcome>)
        ensures
            (final(self)@, outcome) == old(self)@.complete_admission(delivered),
            outcome is Some <==> old(self)@.admitting is Some,
            outcome matches Some(ended) ==> (ended.reply is Ok <==> delivered),
            !delivered ==> final(self)@.successor == old(self)@.successor,
            !delivered ==> final(self)@.predecessor == old(self)@.predecessor,
    {
        match self.admitting {
            None => None,
            Some(admission) => {
                let reply = if delivered {
                    self.connection.set_predecessor(admission.requester);
                    Ok(JoinResponse { host: admission.old_predecessor })
                } else {
                    Err(RingError::PartialJoin)
                };
                match self.waiting.pop_front() {
                    Some(requester) => {
                        let next = Admission {
                            requester,
                            old_predecessor: self.connection.get_predecessor(),
                        };
                        self.admitting = Some(next);
                        Some(AdmissionOutcome {
                            requester: admission.requester,
                            reply,
                            next: Some(notify(next)),
                        })
                    },
                    None => {
                        self.admitting = None;
                        Some(AdmissionOutcome { requester: admission.requester, reply, next: None })
                    },
                }
            },
        }
    }
}

/// The call that tells `admission`'s old predecessor of the joiner.
fn notify(admission: Admission) -> (call: Outbound)
    ensures
        call == RingView::notify(admission),
{
    Outbound {
        rpc: Rpc::SetSuccessor,
        target: admission.old_predecessor,
        host: admission.requester,
    }
}

} // verus!
