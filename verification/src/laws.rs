//! What holds of a single node, whatever its state: proved over the model
//! that the executable node refines.

use vstd::prelude::*;
use crate::identity::NodeIdentity;
use crate::message::{
    Admission, AdmissionOutcome, AdmissionStep, JoinReply, JoinResponse, Membership, RingError,
    SetHostResponse,
};
use crate::model::RingView;

verus! {

/// A node that has just started is a ring of one: it is its own successor and
/// its own predecessor, it is unlinked, and it admits nobody.
pub proof fn lemma_fresh_node_is_singleton(addr: NodeIdentity)
    ensures
        RingView::fresh(addr).addr == addr,
        RingView::fresh(addr).successor == addr,
        RingView::fresh(addr).predecessor == addr,
        RingView::fresh(addr).membership() == Membership::Unlinked,
        RingView::fresh(addr).idle(),
        RingView::fresh(addr).wf(),
{
}

/// No event breaks the rule that joiners wait only behind an admission.
pub proof fn lemma_steps_keep_wf(
    node: RingView,
    host: Option<NodeIdentity>,
    contact: NodeIdentity,
    reply: JoinReply,
    delivered: bool,
)
    requires
        node.wf(),
    ensures
        node.set_next(host).0.wf(),
        node.set_prev(host).0.wf(),
        node.join(contact).0.wf(),
        node.complete_join(reply).0.wf(),
        node.join_ring(host).0.wf(),
        node.complete_admission(delivered).0.wf(),
{
}

/// No event changes the address of a node.
pub proof fn lemma_steps_keep_addr(
    node: RingView,
    host: Option<NodeIdentity>,
    contact: NodeIdentity,
    reply: JoinReply,
    delivered: bool,
)
    ensures
        node.set_next(host).0.addr == node.addr,
        node.set_prev(host).0.addr == node.addr,
        node.join(contact).0.addr == node.addr,
        node.complete_join(reply).0.addr == node.addr,
        node.join_ring(host).0.addr == node.addr,
        node.complete_admission(delivered).0.addr == node.addr,
{
}

/// A successor update changes the successor and nothing else, and a
/// predecessor update the predecessor and nothing else.
pub proof fn lemma_setter_touches_one_link(node: RingView, host: NodeIdentity)
    ensures
        node.set_next(Some(host)).0 == (RingView { successor: host, ..node }),
        node.set_prev(Some(host)).0 == (RingView { predecessor: host, ..node }),
{
}

/// Applying the same successor update twice leaves the node as applying it
/// once, with the same answer; likewise for the predecessor.
pub proof fn lemma_setter_idempotent(node: RingView, host: Option<NodeIdentity>)
    ensures
        node.set_next(host).0.set_next(host) == node.set_next(host),
        node.set_prev(host).0.set_prev(host) == node.set_prev(host),
{
}

/// A request with a malformed address is refused and leaves the node as it
/// was, whichever request it is.
pub proof fn lemma_malformed_request_changes_nothing(node: RingView)
    ensures
        node.set_next(None) == (node, Err::<SetHostResponse, RingError>(RingError::AddressParse)),
        node.set_prev(None) == (node, Err::<SetHostResponse, RingError>(RingError::AddressParse)),
        node.join_ring(None) == (node, Err::<AdmissionStep, RingError>(RingError::AddressParse)),
{
}

/// A join that succeeds takes the node over join-pending to linked, with the
/// contact as successor and the named node as predecessor.
pub proof fn lemma_join_then_admitted(node: RingView, contact: NodeIdentity, predecessor: NodeIdentity)
    ensures
        node.join(contact).0.membership() == Membership::JoinPending,
        node.join(contact).0.successor == contact,
        node.join(contact).0.predecessor == node.predecessor,
        node.join(contact).0.complete_join(JoinReply::Admitted(predecessor)) == (
            RingView { successor: contact, predecessor, joining: false, ..node },
            Ok::<(), RingError>(()),
        ),
        contact != node.addr ==> node.join(contact).0.complete_join(
            JoinReply::Admitted(predecessor),
        ).0.membership() == Membership::Linked,
{
}

/// A join that fails, because the call failed or because the answer was
/// malformed, is reported as an error, and the node is still join-pending
/// afterwards: it never shows as linked.
pub proof fn lemma_failed_join_is_reported(node: RingView, contact: NodeIdentity, reply: JoinReply)
    requires
        !(reply is Admitted),
    ensures
        node.join(contact).0.complete_join(reply).1 is Err,
        node.join(contact).0.complete_join(reply).0 == node.join(contact).0,
        node.join(contact).0.complete_join(reply).0.membership() == Membership::JoinPending,
{
}

/// If the call to the old predecessor is not delivered, the requester is told
/// that the join failed, never that it succeeded, and the contact's links are
/// as they were before.
pub proof fn lemma_undelivered_notify_fails_join(node: RingView)
    requires
        node.admitting is Some,
    ensures
        node.complete_admission(false).1 is Some,
        node.complete_admission(false).1->Some_0.requester == node.admitting->Some_0.requester,
        node.complete_admission(false).1->Some_0.reply == Err::<JoinResponse, RingError>(
            RingError::PartialJoin,
        ),
        node.complete_admission(false).0.successor == node.successor,
        node.complete_admission(false).0.predecessor == node.predecessor,
{
}

/// The requester is told of a success exactly when the old predecessor has
/// acknowledged the call.
pub proof fn lemma_success_only_after_acknowledgement(node: RingView, delivered: bool)
    requires
        node.admitting is Some,
    ensures
        node.complete_admission(delivered).1->Some_0.reply is Ok <==> delivered,
        delivered ==> node.complete_admission(delivered).1->Some_0.reply == Ok::<JoinResponse, RingError>(
            JoinResponse { host: node.admitting->Some_0.old_predecessor },
        ),
        delivered ==> node.complete_admission(delivered).0.predecessor
            == node.admitting->Some_0.requester,
{
}

/// While an admission is under way, a further join request only joins the
/// queue: the links and the admission under way are untouched.
pub proof fn lemma_request_during_admission_waits(node: RingView, requester: NodeIdentity)
    requires
        node.admitting is Some,
    ensures
        node.join_ring(Some(requester)) == (
            RingView { waiting: node.waiting.push(requester), ..node },
            Ok::<AdmissionStep, RingError>(AdmissionStep::Queued),
        ),
{
}

/// Two join requests that reach an idle contact while the first admission is
/// still under way are admitted one after the other, in the order of arrival.
///
/// The second request waits. Its admission begins only when the first has
/// ended, and against the links that the first has left: the first joiner is
/// the predecessor that the second one is given. The contact ends in the very
/// state it reaches when the second request arrives after the first admission
/// is over.
pub proof fn lemma_concurrent_requests_are_serialized(
    contact: RingView,
    first: NodeIdentity,
    second: NodeIdentity,
)
    requires
        contact.idle(),
    ensures
        ({
            let (c1, step1) = contact.join_ring(Some(first));
            let (c2, step2) = c1.join_ring(Some(second));
            let (c3, end1) = c2.complete_admission(true);
            let (c4, end2) = c3.complete_admission(true);
            let one_by_one = contact.join_ring(Some(first)).0.complete_admission(true).0.join_ring(
                Some(second),
            ).0.complete_admission(true).0;
            &&& step1 == Ok::<AdmissionStep, RingError>(
                AdmissionStep::Notify(
                    RingView::notify(
                        Admission { requester: first, old_predecessor: contact.predecessor },
                    ),
                ),
            )
            &&& step2 == Ok::<AdmissionStep, RingError>(AdmissionStep::Queued)
            &&& end1 == Some(
                AdmissionOutcome {
                    requester: first,
                    reply: Ok(JoinResponse { host: contact.predecessor }),
                    next: Some(
                        RingView::notify(Admission { requester: second, old_predecessor: first }),
                    ),
                },
            )
            &&& end2 == Some(
                AdmissionOutcome {
                    requester: second,
                    reply: Ok(JoinResponse { host: first }),
                    next: None,
                },
            )
            &&& c4.predecessor == second
            &&& c4.idle()
            &&& c4 == one_by_one
        }),
{
    let (c1, step1) = contact.join_ring(Some(first));
    let (c2, step2) = c1.join_ring(Some(second));
    let (c3, end1) = c2.complete_admission(true);
    let (c4, end2) = c3.complete_admission(true);
    assert(contact.waiting =~= Seq::empty());
    assert(c2.waiting =~= seq![second]);
    assert(c3.waiting =~= Seq::empty());
    let s1 = contact.join_ring(Some(first)).0.complete_admission(true).0;
    assert(s1.waiting =~= Seq::empty());
    let s2 = s1.join_ring(Some(second)).0.complete_admission(true).0;
    assert(s2.waiting =~= c4.waiting);
}

} // verus!
