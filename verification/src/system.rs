//! Many nodes and the messages between them: joins that overlap in time.
//!
//! The model follows every message on its way. A join request, the update for
//! the old predecessor, its acknowledgement and the answer to the joiner are
//! each delivered on their own, in any order that the network happens to
//! choose, and new nodes may start at any moment. Each delivery is one step of
//! the receiving node and nothing else. No call fails in this model, and a
//! node is named as a contact only once its own join is over.

use vstd::prelude::*;
use crate::identity::NodeIdentity;
use crate::message::{AdmissionStep, JoinReply, Outbound, Rpc};
use crate::model::RingView;

verus! {

/// A message on its way.
pub enum Packet {
    /// A call on its way to `call.target`, made by `from`.
    Call { call: Outbound, from: NodeIdentity },
    /// The acknowledgement of a successor update, on its way back to the
    /// contact `to` that made the call.
    Ack { to: NodeIdentity },
    /// The answer to an admitted joiner `to`, naming its predecessor.
    Reply { to: NodeIdentity, predecessor: NodeIdentity },
}

/// The nodes that have started, and the messages that are under way.
pub struct System {
    pub nodes: Map<NodeIdentity, RingView>,
    pub wire: Set<Packet>,
}

/// What can happen next.
pub enum Event {
    /// A new node starts and sets out to join through `contact`.
    Start { joiner: NodeIdentity, contact: NodeIdentity },
    /// A message that is under way arrives.
    Deliver { packet: Packet },
}

/// The join request of `joiner` for `contact`, on its way.
pub open spec fn join_request(joiner: NodeIdentity, contact: NodeIdentity) -> Packet {
    Packet::Call {
        call: Outbound { rpc: Rpc::JoinRing, target: contact, host: joiner },
        from: joiner,
    }
}

/// A cluster of one node, with nothing under way.
pub open spec fn init(origin: NodeIdentity) -> System {
    System { nodes: map![origin => RingView::fresh(origin)], wire: Set::empty() }
}

/// Whether `event` can happen in `sys`: a node that starts is new, and its
/// contact is a node that has started and has no join of its own outstanding;
/// a message that arrives was under way.
pub open spec fn enabled(sys: System, event: Event) -> bool {
    match event {
        Event::Start { joiner, contact } => {
            &&& !sys.nodes.dom().contains(joiner)
            &&& sys.nodes.dom().contains(contact)
            &&& !sys.nodes[contact].joining
        },
        Event::Deliver { packet } => sys.wire.contains(packet),
    }
}

/// A new node starts: it points at its contact, and its request is under way.
pub open spec fn start(sys: System, joiner: NodeIdentity, contact: NodeIdentity) -> System {
    let (node, request) = RingView::fresh(joiner).join(contact);
    System {
        nodes: sys.nodes.insert(joiner, node),
        wire: sys.wire.insert(Packet::Call { call: request, from: joiner }),
    }
}

/// A call arrives at its target. A join request makes the target begin an
/// admission, which puts the update for the old predecessor under way, or
/// queue the request. A successor update is applied and acknowledged.
pub open spec fn deliver_call(sys: System, call: Outbound, from: NodeIdentity) -> System {
    let rest = sys.wire.remove(Packet::Call { call, from });
    match call.rpc {
        Rpc::JoinRing => {
            let (node, step) = sys.nodes[call.target].join_ring(Some(call.host));
            System {
                nodes: sys.nodes.insert(call.target, node),
                wire: match step {
                    Ok(AdmissionStep::Notify(next)) => rest.insert(
                        Packet::Call { call: next, from: call.target },
                    ),
                    _ => rest,
                },
            }
        },
        Rpc::SetSuccessor => {
            let (node, _ack) = sys.nodes[call.target].set_next(Some(call.host));
            System {
                nodes: sys.nodes.insert(call.target, node),
                wire: rest.insert(Packet::Ack { to: from }),
            }
        },
    }
}

/// An acknowledgement arrives at the contact: the admission ends, the answer
/// to the joiner is under way, and so is the update that begins the next
/// admission if a joiner was waiting.
pub open spec fn deliver_ack(sys: System, to: NodeIdentity) -> System {
    let rest = sys.wire.remove(Packet::Ack { to });
    let (node, outcome) = sys.nodes[to].complete_admission(true);
    let nodes = sys.nodes.insert(to, node);
    match outcome {
        None => System { nodes, wire: rest },
        Some(ended) => {
            let answered = match ended.reply {
                Ok(response) => rest.insert(
                    Packet::Reply { to: ended.requester, predecessor: response.host },
                ),
                Err(_) => rest,
            };
            System {
                nodes,
                wire: match ended.next {
                    Some(next) => answered.insert(Packet::Call { call: next, from: to }),
                    None => answered,
                },
            }
        },
    }
}

/// The answer arrives at the joiner, which takes its predecessor from it.
pub open spec fn deliver_reply(sys: System, to: NodeIdentity, predecessor: NodeIdentity) -> System {
    System {
        nodes: sys.nodes.insert(
            to,
            sys.nodes[to].complete_join(JoinReply::Admitted(predecessor)).0,
        ),
        wire: sys.wire.remove(Packet::Reply { to, predecessor }),
    }
}

/// The system after `event`.
pub open spec fn step(sys: System, event: Event) -> System {
    match event {
        Event::Start { joiner, contact } => start(sys, joiner, contact),
        Event::Deliver { packet } => match packet {
            Packet::Call { call, from } => deliver_call(sys, call, from),
            Packet::Ack { to } => deliver_ack(sys, to),
            Packet::Reply { to, predecessor } => deliver_reply(sys, to, predecessor),
        },
    }
}

/// The system after the events of `events`, in their order, from a cluster of
/// the one node `origin`.
pub open spec fn run(origin: NodeIdentity, events: Seq<Event>) -> System
    decreases events.len(),
{
    if events.len() == 0 {
        init(origin)
    } else {
        step(run(origin, events.drop_last()), events.last())
    }
}

/// Every event of `events` can happen when its turn comes.
pub open spec fn possible(origin: NodeIdentity, events: Seq<Event>) -> bool
    decreases events.len(),
{
    events.len() > 0 ==> {
        &&& possible(origin, events.drop_last())
        &&& enabled(run(origin, events.drop_last()), events.last())
    }
}

/// Nothing is under way.
pub open spec fn quiet(sys: System) -> bool {
    forall|packet: Packet| !sys.wire.contains(packet)
}

} // verus!
