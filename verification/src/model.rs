//! The mathematical model of one node: its state, and what each event of the
//! protocol makes of it.
//!
//! Every function here is a total function from a state and an event to the
//! next state and the answer. The executable node refines this model step for
//! step, and the laws of the ring are stated over it.

use vstd::prelude::*;
use crate::identity::NodeIdentity;
use crate::message::{
    Admission, AdmissionOutcome, AdmissionStep, JoinReply, JoinResponse, Membership, Outbound,
    RingError, Rpc, SetHostResponse,
};

verus! {

/// The state of one node.
pub struct RingView {
    /// The node's own address; no step changes it.
    pub addr: NodeIdentity,
    /// The next node walking the ring.
    pub successor: NodeIdentity,
    /// The previous node walking the ring.
    pub predecessor: NodeIdentity,
    /// Whether the node has a join request outstanding.
    pub joining: bool,
    /// The admission that the node is carrying out as a contact, if any.
    pub admitting: Option<Admission>,
    /// The joiners that arrived while an admission was under way, oldest first.
    pub waiting: Seq<NodeIdentity>,
}

impl RingView {
    /// A node that has just started: a ring of one.
    pub open spec fn fresh(addr: NodeIdentity) -> RingView {
        RingView {
            addr,
            successor: addr,
            predecessor: addr,
            joining: false,
            admitting: None,
            waiting: Seq::empty(),
        }
    }

    /// Joiners wait only behind an admission that is under way.
    pub open spec fn wf(self) -> bool {
        self.waiting.len() > 0 ==> self.admitting is Some
    }

    /// No admission is under way and nobody waits for one.
    pub open spec fn idle(self) -> bool {
        self.admitting is None && self.waiting.len() == 0
    }

    /// Where the node stands with respect to the ring.
    pub open spec fn membership(self) -> Membership {
        if self.joining {
            Membership::JoinPending
        } else if self.successor == self.addr && self.predecessor == self.addr {
            Membership::Unlinked
        } else {
            Membership::Linked
        }
    }

    /// A neighbour update for the successor arrives. `host` is the address in
    /// it, `None` if it could not be read.
    pub open spec fn set_next(self, host: Option<NodeIdentity>) -> (RingView, Result<SetHostResponse, RingError>) {
        match host {
            Some(successor) => (RingView { successor, ..self }, Ok(SetHostResponse {})),
            None => (self, Err(RingError::AddressParse)),
        }
    }

    /// A neighbour update for the predecessor arrives. `host` is the address
    /// in it, `None` if it could not be read.
    pub open spec fn set_prev(self, host: Option<NodeIdentity>) -> (RingView, Result<SetHostResponse, RingError>) {
        match host {
            Some(predecessor) => (RingView { predecessor, ..self }, Ok(SetHostResponse {})),
            None => (self, Err(RingError::AddressParse)),
        }
    }

    /// The node sets out to join the ring through `contact`: it points forward
    /// at the contact and asks it for admission.
    pub open spec fn join(self, contact: NodeIdentity) -> (RingView, Outbound) {
        (
            RingView { successor: contact, joining: true, ..self },
            Outbound { rpc: Rpc::JoinRing, target: contact, host: self.addr },
        )
    }

    /// The outcome of the join request arrives.
    ///
    /// Only an admission links the node. Any other outcome leaves the state as
    /// it is, join request still outstanding, so that the node never shows as
    /// linked after a join that failed.
    pub open spec fn complete_join(self, reply: JoinReply) -> (RingView, Result<(), RingError>) {
        if !self.joining {
            (self, Err(RingError::NotJoining))
        } else {
            match reply {
                JoinReply::Admitted(predecessor) => (
                    RingView { predecessor, joining: false, ..self },
                    Ok(()),
                ),
                JoinReply::Malformed => (self, Err(RingError::AddressParse)),
                JoinReply::Failed => (self, Err(RingError::RpcDelivery)),
            }
        }
    }

    /// The call that tells `admission`'s old predecessor of the joiner.
    pub open spec fn notify(admission: Admission) -> Outbound {
        Outbound {
            rpc: Rpc::SetSuccessor,
            target: admission.old_predecessor,
            host: admission.requester,
        }
    }

    /// A join request arrives. `host` is the requester's address, `None` if it
    /// could not be read.
    ///
    /// With no admission under way the node reads its predecessor and begins
    /// one. Otherwise the requester goes to the end of the queue, and neither
    /// the links nor the admission under way are touched.
    pub open spec fn join_ring(self, host: Option<NodeIdentity>) -> (RingView, Result<AdmissionStep, RingError>) {
        match host {
            None => (self, Err(RingError::AddressParse)),
            Some(requester) => {
                if self.admitting is Some {
                    (
                        RingView { waiting: self.waiting.push(requester), ..self },
                        Ok(AdmissionStep::Queued),
                    )
                } else {
                    let admission = Admission { requester, old_predecessor: self.predecessor };
                    (
                        RingView { admitting: Some(admission), ..self },
                        Ok(AdmissionStep::Notify(Self::notify(admission))),
                    )
                }
            },
        }
    }

    /// The state after the admission under way has ended, before the next one
    /// begins: on delivery the requester is the new predecessor, otherwise the
    /// links are as they were.
    pub open spec fn settle(self, delivered: bool) -> RingView
        recommends
            self.admitting is Some,
    {
        if delivered {
            RingView { predecessor: self.admitting->Some_0.requester, admitting: None, ..self }
        } else {
            RingView { admitting: None, ..self }
        }
    }

    /// The answer to the requester of the admission under way.
    pub open spec fn answer(self, delivered: bool) -> Result<JoinResponse, RingError>
        recommends
            self.admitting is Some,
    {
        if delivered {
            Ok(JoinResponse { host: self.admitting->Some_0.old_predecessor })
        } else {
            Err(RingError::PartialJoin)
        }
    }

    /// The outcome of the call to the old predecessor arrives: `delivered`
    /// says whether the old predecessor acknowledged it.
    ///
    /// The admission under way ends. If the call was delivered, the requester
    /// becomes the predecessor and is told its own predecessor, the one read
    /// when the admission began. If not, the links stay and the requester is
    /// told that the join failed. Then the oldest waiting joiner, if any,
    /// begins its admission against the links as they now are.
    pub open spec fn complete_admission(self, delivered: bool) -> (RingView, Option<AdmissionOutcome>) {
        match self.admitting {
            None => (self, None),
            Some(admission) => {
                let settled = self.settle(delivered);
                let reply = self.answer(delivered);
                if settled.waiting.len() > 0 {
                    let next = Admission {
                        requester: settled.waiting[0],
                        old_predecessor: settled.predecessor,
                    };
                    (
                        RingView {
                            admitting: Some(next),
                            waiting: settled.waiting.subrange(1, settled.waiting.len() as int),
                            ..settled
                        },
                        Some(AdmissionOutcome {
                            requester: admission.requester,
                            reply,
                            next: Some(Self::notify(next)),
                        }),
                    )
                } else {
                    (
                        settled,
                        Some(AdmissionOutcome { requester: admission.requester, reply, next: None }),
                    )
                }
            },
        }
    }
}

} // verus!
