//! What holds of the nodes and the messages at every moment of a run, and
//! why each step keeps it.
//!
//! The nodes that a contact has begun to admit form a ring on paper: `order`.
//! A node's links may lag behind that ring, but only where a message that will
//! mend them is under way, or where the admission that will mend them is.

use vstd::prelude::*;
use crate::identity::NodeIdentity;
use crate::message::{Admission, Outbound, Rpc};
use crate::model::RingView;
use crate::order::{
    lemma_insert_before, lemma_neighbours_in_order, lemma_position_of_member,
    lemma_position_unique, pred_in, succ_in,
};
use crate::cluster::ring_in_order;
use crate::system::{
    deliver_ack, deliver_call, deliver_reply, init, join_request, quiet, start, Packet, System,
};

verus! {

/// The update for the old predecessor of `admission`, made by `contact`, on
/// its way.
pub open spec fn notice(admission: Admission, contact: NodeIdentity) -> Packet {
    Packet::Call { call: RingView::notify(admission), from: contact }
}

/// The admission of `x` is under way at its successor in `order`.
pub open spec fn under_admission(sys: System, order: Seq<NodeIdentity>, x: NodeIdentity) -> bool {
    sys.nodes[succ_in(order, x)].admitting == Some(
        Admission { requester: x, old_predecessor: pred_in(order, x) },
    )
}

/// The answer to `x` is under way.
pub open spec fn answered(sys: System, order: Seq<NodeIdentity>, x: NodeIdentity) -> bool {
    sys.wire.contains(Packet::Reply { to: x, predecessor: pred_in(order, x) })
}

/// The node after `x` in `order` is being admitted, and `x` has not been told
/// of it yet.
pub open spec fn successor_pending(sys: System, order: Seq<NodeIdentity>, x: NodeIdentity) -> bool {
    let s = succ_in(order, x);
    let contact = succ_in(order, s);
    let admission = Admission { requester: s, old_predecessor: x };
    &&& sys.nodes[contact].admitting == Some(admission)
    &&& sys.wire.contains(notice(admission, contact))
}

/// What holds of a node that no contact has begun to admit. `starting` names
/// the contact and the joiner of an admission that is about to begin.
pub open spec fn applicant_ok(
    sys: System,
    order: Seq<NodeIdentity>,
    starting: Option<(NodeIdentity, NodeIdentity)>,
    x: NodeIdentity,
) -> bool {
    let node = sys.nodes[x];
    let contact = node.successor;
    let asked = sys.wire.contains(join_request(x, contact));
    let queued = sys.nodes[contact].waiting.contains(x);
    &&& node.joining
    &&& node.admitting is None
    &&& node.waiting.len() == 0
    &&& order.contains(contact)
    &&& !sys.nodes[contact].joining
    &&& if starting is Some && starting->Some_0.1 == x {
        contact == starting->Some_0.0 && !asked && !queued
    } else {
        asked != queued
    }
}

/// What holds of a node of `order`.
pub open spec fn member_ok(sys: System, order: Seq<NodeIdentity>, x: NodeIdentity) -> bool {
    let node = sys.nodes[x];
    let s = succ_in(order, x);
    let q = pred_in(order, x);
    &&& (node.successor == s || (successor_pending(sys, order, x) && node.successor == succ_in(
        order,
        s,
    )))
    &&& if node.joining {
        &&& node.admitting is None
        &&& node.waiting.len() == 0
        &&& under_admission(sys, order, x) != answered(sys, order, x)
    } else {
        match node.admitting {
            None => node.predecessor == q,
            Some(admission) => {
                &&& admission.requester == q
                &&& admission.old_predecessor == pred_in(order, q)
                &&& node.predecessor == admission.old_predecessor
                &&& sys.nodes[q].joining
                &&& sys.wire.contains(notice(admission, x)) != sys.wire.contains(
                    Packet::Ack { to: x },
                )
            },
        }
    }
}

/// What holds of any node that has started.
pub open spec fn node_ok(
    sys: System,
    order: Seq<NodeIdentity>,
    starting: Option<(NodeIdentity, NodeIdentity)>,
    x: NodeIdentity,
) -> bool {
    let node = sys.nodes[x];
    &&& node.addr == x
    &&& (node.wf() || (starting is Some && starting->Some_0.0 == x))
    &&& node.waiting.no_duplicates()
    &&& forall|i: int|
        0 <= i < node.waiting.len() ==> {
            let w = #[trigger] node.waiting[i];
            &&& sys.nodes.dom().contains(w)
            &&& !order.contains(w)
            &&& sys.nodes[w].successor == x
        }
    &&& if order.contains(x) {
        member_ok(sys, order, x)
    } else {
        applicant_ok(sys, order, starting, x)
    }
}

/// What holds of a message that is under way.
pub open spec fn packet_ok(sys: System, order: Seq<NodeIdentity>, packet: Packet) -> bool {
    match packet {
        Packet::Call { call, from } => match call.rpc {
            Rpc::JoinRing => {
                &&& from == call.host
                &&& sys.nodes.dom().contains(from)
                &&& !order.contains(from)
                &&& sys.nodes[from].successor == call.target
            },
            Rpc::SetSuccessor => {
                &&& order.contains(from)
                &&& !sys.nodes[from].joining
                &&& sys.nodes[from].admitting is Some
                &&& call == RingView::notify(sys.nodes[from].admitting->Some_0)
            },
        },
        Packet::Ack { to } => {
            &&& order.contains(to)
            &&& !sys.nodes[to].joining
            &&& sys.nodes[to].admitting is Some
        },
        Packet::Reply { to, predecessor } => {
            &&& order.contains(to)
            &&& sys.nodes[to].joining
            &&& predecessor == pred_in(order, to)
        },
    }
}

/// The invariant, with the ring on paper given, and with `starting` naming an
/// admission that is about to begin: its contact is idle though joiners may
/// wait at it, and its joiner has neither a request under way nor a place in
/// a queue.
pub open spec fn holds_with(
    sys: System,
    order: Seq<NodeIdentity>,
    starting: Option<(NodeIdentity, NodeIdentity)>,
) -> bool {
    &&& order.len() > 0
    &&& order.no_duplicates()
    &&& forall|x: NodeIdentity| #[trigger] order.contains(x) ==> sys.nodes.dom().contains(x)
    &&& forall|x: NodeIdentity|
        sys.nodes.dom().contains(x) ==> #[trigger] node_ok(sys, order, starting, x)
    &&& forall|packet: Packet| sys.wire.contains(packet) ==> #[trigger] packet_ok(sys, order, packet)
    &&& starting matches Some((contact, joiner)) ==> {
        &&& order.contains(contact)
        &&& !sys.nodes[contact].joining
        &&& sys.nodes[contact].admitting is None
        &&& sys.nodes.dom().contains(joiner)
        &&& !order.contains(joiner)
    }
}

/// The invariant of every run.
pub open spec fn holds(sys: System) -> bool {
    exists|order: Seq<NodeIdentity>| holds_with(sys, order, None)
}

/// The first node alone, with nothing under way, meets the invariant.
pub proof fn lemma_init_holds(origin: NodeIdentity)
    ensures
        holds_with(init(origin), seq![origin], None),
        holds(init(origin)),
{
    let sys = init(origin);
    let order = seq![origin];
    assert(order[0] == origin);
    assert forall|x: NodeIdentity| #[trigger] order.contains(x) implies x == origin by {
        lemma_position_of_member(order, x);
    }
    lemma_position_unique(order, 0);
    assert forall|x: NodeIdentity| sys.nodes.dom().contains(x) implies #[trigger] node_ok(
        sys,
        order,
        None,
        x,
    ) by {
        assert(x == origin);
        assert(order.contains(x));
    }
}

/// Once nothing is under way, the nodes form the ring on paper, and every node
/// that has started is linked in and at rest.
pub proof fn lemma_quiet_is_ring(sys: System, order: Seq<NodeIdentity>)
    requires
        holds_with(sys, order, None),
        quiet(sys),
    ensures
        ring_in_order(sys.nodes, order),
        forall|x: NodeIdentity|
            sys.nodes.dom().contains(x) ==> !(#[trigger] sys.nodes[x]).joining
                && sys.nodes[x].idle(),
{
    assert forall|x: NodeIdentity| sys.nodes.dom().contains(x) implies order.contains(x) by {
        assert(node_ok(sys, order, None, x));
        if !order.contains(x) {
            let contact = sys.nodes[x].successor;
            assert(sys.nodes[contact].waiting.contains(x));
            assert(node_ok(sys, order, None, contact));
            assert(false);
        }
    }
    assert forall|x: NodeIdentity| #[trigger] order.contains(x) implies {
        &&& sys.nodes[x].addr == x
        &&& sys.nodes[x].successor == succ_in(order, x)
        &&& sys.nodes[x].predecessor == pred_in(order, x)
        &&& !sys.nodes[x].joining
        &&& sys.nodes[x].idle()
    } by {
        assert(node_ok(sys, order, None, x));
        lemma_neighbours_in_order(order, x);
        let s = succ_in(order, x);
        assert(node_ok(sys, order, None, s));
    }
    assert forall|x: NodeIdentity| sys.nodes.dom().contains(x) implies !(#[trigger] sys.nodes[x]).joining
        && sys.nodes[x].idle() by {
        assert(order.contains(x));
    }
}

/// A node that starts keeps the invariant.
pub proof fn lemma_start_holds(
    sys: System,
    order: Seq<NodeIdentity>,
    joiner: NodeIdentity,
    contact: NodeIdentity,
)
    requires
        holds_with(sys, order, None),
        !sys.nodes.dom().contains(joiner),
        sys.nodes.dom().contains(contact),
        !sys.nodes[contact].joining,
    ensures
        holds_with(start(sys, joiner, contact), order, None),
{
    let post = start(sys, joiner, contact);
    assert(node_ok(sys, order, None, contact));
    assert(order.contains(contact));
    assert forall|x: NodeIdentity| post.nodes.dom().contains(x) implies #[trigger] node_ok(
        post,
        order,
        None,
        x,
    ) by {
        if x == joiner {
            if post.nodes[contact].waiting.contains(joiner) {
                let i = post.nodes[contact].waiting.index_of(joiner);
                assert(sys.nodes[contact].waiting[i] == joiner);
            }
        } else {
            assert(node_ok(sys, order, None, x));
            lemma_kept(sys, post, order, x);
        }
    }
    assert forall|packet: Packet| post.wire.contains(packet) implies #[trigger] packet_ok(
        post,
        order,
        packet,
    ) by {
        if sys.wire.contains(packet) {
            assert(packet_ok(sys, order, packet));
        }
    }
}

/// A node is as well off after a step as before it if the step has left
/// alone the node, its neighbours on paper and theirs, its queue, the
/// messages that speak of it, and the ring on paper.
proof fn lemma_kept(pre: System, post: System, order: Seq<NodeIdentity>, x: NodeIdentity)
    requires
        order.no_duplicates(),
        forall|y: NodeIdentity| #[trigger] order.contains(y) ==> pre.nodes.dom().contains(y),
        pre.nodes.dom().contains(x),
        node_ok(pre, order, None, x),
        forall|y: NodeIdentity|
            pre.nodes.dom().contains(y) ==> #[trigger] post.nodes.dom().contains(y),
        forall|y: NodeIdentity|
            pre.nodes.dom().contains(y) ==> #[trigger] post.nodes[y] == pre.nodes[y],
        forall|packet: Packet|
            !(packet is Call && packet->call.rpc == Rpc::JoinRing && packet->from != x)
                ==> #[trigger] post.wire.contains(packet) == pre.wire.contains(packet),
    ensures
        node_ok(post, order, None, x),
{
    let node = pre.nodes[x];
    assert(post.nodes[x] == node);
    if order.contains(x) {
        lemma_neighbours_in_order(order, x);
        let s = succ_in(order, x);
        let q = pred_in(order, x);
        lemma_neighbours_in_order(order, s);
        lemma_neighbours_in_order(order, q);
        assert(post.nodes[s] == pre.nodes[s]);
        assert(post.nodes[q] == pre.nodes[q]);
        assert(post.nodes[succ_in(order, s)] == pre.nodes[succ_in(order, s)]);
        let admission = Admission { requester: s, old_predecessor: x };
        assert(post.wire.contains(notice(admission, succ_in(order, s))) == pre.wire.contains(
            notice(admission, succ_in(order, s)),
        ));
        assert(successor_pending(post, order, x) == successor_pending(pre, order, x));
        assert(under_admission(post, order, x) == under_admission(pre, order, x));
        assert(answered(post, order, x) == answered(pre, order, x));
        if node.admitting is Some {
            let a = node.admitting->Some_0;
            assert(post.wire.contains(notice(a, x)) == pre.wire.contains(notice(a, x)));
            assert(post.wire.contains(Packet::Ack { to: x }) == pre.wire.contains(
                Packet::Ack { to: x },
            ));
        }
        assert(member_ok(post, order, x));
    } else {
        let contact = node.successor;
        assert(post.nodes[contact] == pre.nodes[contact]);
        assert(post.wire.contains(join_request(x, contact)) == pre.wire.contains(
            join_request(x, contact),
        ));
        assert(applicant_ok(post, order, None, x));
    }
    assert forall|i: int| 0 <= i < node.waiting.len() implies {
        let w = #[trigger] post.nodes[x].waiting[i];
        &&& post.nodes.dom().contains(w)
        &&& !order.contains(w)
        &&& post.nodes[w].successor == x
    } by {
        let w = node.waiting[i];
        assert(pre.nodes.dom().contains(w));
    }
}

/// The answer that arrives at its joiner keeps the invariant.
pub proof fn lemma_reply_holds(
    sys: System,
    order: Seq<NodeIdentity>,
    to: NodeIdentity,
    predecessor: NodeIdentity,
)
    requires
        holds_with(sys, order, None),
        sys.wire.contains(Packet::Reply { to, predecessor }),
    ensures
        holds_with(deliver_reply(sys, to, predecessor), order, None),
{
    let post = deliver_reply(sys, to, predecessor);
    let packet = Packet::Reply { to, predecessor };
    assert(packet_ok(sys, order, packet));
    assert(node_ok(sys, order, None, to));
    lemma_neighbours_in_order(order, to);
    assert(answered(sys, order, to));
    assert(!under_admission(sys, order, to));
    assert forall|x: NodeIdentity| post.nodes.dom().contains(x) implies #[trigger] node_ok(
        post,
        order,
        None,
        x,
    ) by {
        assert(node_ok(sys, order, None, x));
        lemma_reply_keeps_node(sys, order, to, predecessor, x);
    }
    assert forall|p: Packet| post.wire.contains(p) implies #[trigger] packet_ok(post, order, p) by {
        assert(packet_ok(sys, order, p));
        match p {
            Packet::Call { call, from } => {
                if call.rpc == Rpc::SetSuccessor {
                    assert(node_ok(sys, order, None, from));
                }
            },
            Packet::Ack { to: contact } => {
                assert(node_ok(sys, order, None, contact));
            },
            Packet::Reply { to: other, predecessor: named } => {
                assert(other != to);
            },
        }
    }
}

/// What the arrival of an answer at `to` means for the node `x`.
proof fn lemma_reply_keeps_node(
    sys: System,
    order: Seq<NodeIdentity>,
    to: NodeIdentity,
    predecessor: NodeIdentity,
    x: NodeIdentity,
)
    requires
        holds_with(sys, order, None),
        sys.wire.contains(Packet::Reply { to, predecessor }),
        sys.nodes.dom().contains(x),
    ensures
        node_ok(deliver_reply(sys, to, predecessor), order, None, x),
{
    let post = deliver_reply(sys, to, predecessor);
    let packet = Packet::Reply { to, predecessor };
    assert(packet_ok(sys, order, packet));
    assert(node_ok(sys, order, None, to));
    assert(node_ok(sys, order, None, x));
    lemma_neighbours_in_order(order, to);
    let node = sys.nodes[x];
    assert forall|i: int| 0 <= i < post.nodes[x].waiting.len() implies {
        let w = #[trigger] post.nodes[x].waiting[i];
        &&& post.nodes.dom().contains(w)
        &&& !order.contains(w)
        &&& post.nodes[w].successor == x
    } by {
        let w = node.waiting[i];
        assert(sys.nodes.dom().contains(w));
        assert(w != to);
    }
    if order.contains(x) {
        lemma_neighbours_in_order(order, x);
        let s = succ_in(order, x);
        let q = pred_in(order, x);
        lemma_neighbours_in_order(order, s);
        lemma_neighbours_in_order(order, q);
        assert(node_ok(sys, order, None, s));
        assert(node_ok(sys, order, None, q));
        assert(node_ok(sys, order, None, succ_in(order, s)));
        assert(post.nodes[s].admitting == sys.nodes[s].admitting);
        assert(post.nodes[succ_in(order, s)].admitting == sys.nodes[succ_in(order, s)].admitting);
        assert(successor_pending(post, order, x) == successor_pending(sys, order, x));
        assert(under_admission(post, order, x) == under_admission(sys, order, x));
        if x == to {
            assert(member_ok(post, order, x));
        } else {
            assert(answered(post, order, x) == answered(sys, order, x));
            if !node.joining && node.admitting is Some {
                // The joiner that `x` admits still waits for its answer.
                assert(under_admission(sys, order, q));
                assert(q != to);
            }
            assert(member_ok(post, order, x));
        }
    } else {
        let contact = node.successor;
        assert(x != to);
        assert(node_ok(sys, order, None, contact));
        assert(post.nodes[contact].waiting == sys.nodes[contact].waiting);
        assert(applicant_ok(post, order, None, x));
    }
}

/// A successor update that arrives at the old predecessor keeps the
/// invariant.
pub proof fn lemma_update_holds(
    sys: System,
    order: Seq<NodeIdentity>,
    call: Outbound,
    from: NodeIdentity,
)
    requires
        holds_with(sys, order, None),
        sys.wire.contains(Packet::Call { call, from }),
        call.rpc == Rpc::SetSuccessor,
    ensures
        holds_with(deliver_call(sys, call, from), order, None),
{
    let post = deliver_call(sys, call, from);
    let packet = Packet::Call { call, from };
    assert(packet_ok(sys, order, packet));
    assert(node_ok(sys, order, None, from));
    let joiner = pred_in(order, from);
    lemma_neighbours_in_order(order, from);
    lemma_neighbours_in_order(order, joiner);
    assert(call.target == pred_in(order, joiner));
    assert forall|x: NodeIdentity| post.nodes.dom().contains(x) implies #[trigger] node_ok(
        post,
        order,
        None,
        x,
    ) by {
        lemma_update_keeps_node(sys, order, call, from, x);
    }
    assert forall|p: Packet| post.wire.contains(p) implies #[trigger] packet_ok(post, order, p) by {
        if p != (Packet::Ack { to: from }) {
            assert(packet_ok(sys, order, p));
        }
    }
}

/// What the arrival of a successor update means for the node `x`.
proof fn lemma_update_keeps_node(
    sys: System,
    order: Seq<NodeIdentity>,
    call: Outbound,
    from: NodeIdentity,
    x: NodeIdentity,
)
    requires
        holds_with(sys, order, None),
        sys.wire.contains(Packet::Call { call, from }),
        call.rpc == Rpc::SetSuccessor,
        sys.nodes.dom().contains(x) || x == call.target,
    ensures
        node_ok(deliver_call(sys, call, from), order, None, x),
{
    let post = deliver_call(sys, call, from);
    let packet = Packet::Call { call, from };
    assert(packet_ok(sys, order, packet));
    assert(node_ok(sys, order, None, from));
    let a = sys.nodes[from].admitting->Some_0;
    let joiner = pred_in(order, from);
    let target = call.target;
    lemma_neighbours_in_order(order, from);
    lemma_neighbours_in_order(order, joiner);
    assert(target == pred_in(order, joiner));
    assert(order.contains(target));
    assert(packet == notice(a, from));
    assert(!sys.wire.contains(Packet::Ack { to: from }));
    assert(node_ok(sys, order, None, x));
    assert(node_ok(sys, order, None, joiner));
    let node = sys.nodes[x];
    assert forall|i: int| 0 <= i < post.nodes[x].waiting.len() implies {
        let w = #[trigger] post.nodes[x].waiting[i];
        &&& post.nodes.dom().contains(w)
        &&& !order.contains(w)
        &&& post.nodes[w].successor == x
    } by {
        let w = node.waiting[i];
        assert(sys.nodes.dom().contains(w));
        assert(w != target);
    }
    if order.contains(x) {
        lemma_neighbours_in_order(order, x);
        let s = succ_in(order, x);
        let q = pred_in(order, x);
        lemma_neighbours_in_order(order, s);
        lemma_neighbours_in_order(order, q);
        assert(node_ok(sys, order, None, s));
        assert(node_ok(sys, order, None, q));
        assert(post.nodes[s].admitting == sys.nodes[s].admitting);
        assert(post.nodes[q].joining == sys.nodes[q].joining);
        assert(post.nodes[succ_in(order, s)].admitting == sys.nodes[succ_in(order, s)].admitting);
        assert(under_admission(post, order, x) == under_admission(sys, order, x));
        assert(answered(post, order, x) == answered(sys, order, x));
        if x == target {
            assert(s == joiner);
            assert(post.nodes[x].successor == joiner);
        } else {
            let pending = Admission { requester: s, old_predecessor: x };
            assert(notice(pending, succ_in(order, s)) != packet);
            assert(successor_pending(post, order, x) == successor_pending(sys, order, x));
        }
        if !node.joining && node.admitting is Some {
            let own = node.admitting->Some_0;
            if x != from {
                assert(notice(own, x) != packet);
            }
        }
        assert(member_ok(post, order, x));
    } else {
        let contact = node.successor;
        assert(x != target);
        assert(post.nodes[contact].waiting == sys.nodes[contact].waiting);
        assert(post.nodes[contact].joining == sys.nodes[contact].joining);
        assert(applicant_ok(post, order, None, x));
    }
}

/// A join request that arrives at a contact in the middle of an admission
/// keeps the invariant: the joiner waits.
pub proof fn lemma_queued_holds(
    sys: System,
    order: Seq<NodeIdentity>,
    call: Outbound,
    from: NodeIdentity,
)
    requires
        holds_with(sys, order, None),
        sys.wire.contains(Packet::Call { call, from }),
        call.rpc == Rpc::JoinRing,
        sys.nodes[call.target].admitting is Some,
    ensures
        holds_with(deliver_call(sys, call, from), order, None),
{
    let post = deliver_call(sys, call, from);
    let packet = Packet::Call { call, from };
    assert(packet_ok(sys, order, packet));
    assert(node_ok(sys, order, None, from));
    assert(packet == join_request(from, call.target));
    assert forall|x: NodeIdentity| post.nodes.dom().contains(x) implies #[trigger] node_ok(
        post,
        order,
        None,
        x,
    ) by {
        lemma_queued_keeps_node(sys, order, call, from, x);
    }
    assert forall|p: Packet| post.wire.contains(p) implies #[trigger] packet_ok(post, order, p) by {
        assert(packet_ok(sys, order, p));
    }
}

/// What the queueing of a join request means for the node `x`.
proof fn lemma_queued_keeps_node(
    sys: System,
    order: Seq<NodeIdentity>,
    call: Outbound,
    from: NodeIdentity,
    x: NodeIdentity,
)
    requires
        holds_with(sys, order, None),
        sys.wire.contains(Packet::Call { call, from }),
        call.rpc == Rpc::JoinRing,
        sys.nodes[call.target].admitting is Some,
        sys.nodes.dom().contains(x) || x == call.target,
    ensures
        node_ok(deliver_call(sys, call, from), order, None, x),
{
    let post = deliver_call(sys, call, from);
    let packet = Packet::Call { call, from };
    let contact = call.target;
    assert(packet_ok(sys, order, packet));
    assert(node_ok(sys, order, None, from));
    assert(packet == join_request(from, contact));
    assert(order.contains(contact));
    assert(!sys.nodes[contact].waiting.contains(from));
    assert(node_ok(sys, order, None, contact));
    assert(node_ok(sys, order, None, x));
    let node = sys.nodes[x];
    let before = sys.nodes[contact].waiting;
    let after = before.push(from);
    assert(post.nodes[contact].waiting == after);
    assert forall|y: NodeIdentity| after.contains(y) == (before.contains(y) || y == from) by {
        if before.contains(y) {
            let i = before.index_of(y);
            assert(after[i] == y);
        }
        if y == from {
            assert(after[before.len() as int] == y);
        }
        if after.contains(y) {
            let i = after.index_of(y);
            if i < before.len() {
                assert(before[i] == y);
            }
        }
    }
    assert forall|i: int| 0 <= i < post.nodes[x].waiting.len() implies {
        let w = #[trigger] post.nodes[x].waiting[i];
        &&& post.nodes.dom().contains(w)
        &&& !order.contains(w)
        &&& post.nodes[w].successor == x
    } by {
        if i < node.waiting.len() {
            let w = node.waiting[i];
            assert(sys.nodes.dom().contains(w));
            assert(post.nodes[x].waiting[i] == w);
        }
    }
    if x == contact {
        assert forall|i: int, j: int| 0 <= i < after.len() && 0 <= j < after.len() && i != j implies after[i] != after[j] by {
            if i < before.len() && j < before.len() {
                assert(before[i] != before[j]);
            } else if i < before.len() {
                assert(before.contains(before[i]));
            } else {
                assert(before.contains(before[j]));
            }
        }
    }
    if order.contains(x) {
        lemma_neighbours_in_order(order, x);
        let s = succ_in(order, x);
        let q = pred_in(order, x);
        lemma_neighbours_in_order(order, s);
        lemma_neighbours_in_order(order, q);
        assert(post.nodes[s].admitting == sys.nodes[s].admitting);
        assert(post.nodes[q].joining == sys.nodes[q].joining);
        assert(post.nodes[succ_in(order, s)].admitting == sys.nodes[succ_in(order, s)].admitting);
        assert(under_admission(post, order, x) == under_admission(sys, order, x));
        assert(answered(post, order, x) == answered(sys, order, x));
        assert(successor_pending(post, order, x) == successor_pending(sys, order, x));
        assert(member_ok(post, order, x));
    } else {
        let c = node.successor;
        assert(post.nodes[c].joining == sys.nodes[c].joining);
        if x != from {
            assert(join_request(x, c) != packet);
        }
        assert(applicant_ok(post, order, None, x));
    }
}

/// The system once `contact` has begun to admit `joiner`: the admission is
/// noted with the contact's predecessor of that moment, and the update for
/// that predecessor is under way.
pub open spec fn begin(sys: System, contact: NodeIdentity, joiner: NodeIdentity) -> System {
    let admission = Admission {
        requester: joiner,
        old_predecessor: sys.nodes[contact].predecessor,
    };
    System {
        nodes: sys.nodes.insert(
            contact,
            RingView { admitting: Some(admission), ..sys.nodes[contact] },
        ),
        wire: sys.wire.insert(notice(admission, contact)),
    }
}

/// The system once `packet` has left the wire, nothing else changed.
pub open spec fn taken(sys: System, packet: Packet) -> System {
    System { nodes: sys.nodes, wire: sys.wire.remove(packet) }
}

/// The system once the admission at `contact` has ended with success, before
/// the next one begins: the joiner is the contact's predecessor, its answer
/// is under way, and the oldest waiting joiner has left the queue.
pub open spec fn settled(sys: System, contact: NodeIdentity) -> System {
    let node = sys.nodes[contact];
    let admission = node.admitting->Some_0;
    let ended = node.settle(true);
    let waiting = if ended.waiting.len() > 0 {
        ended.waiting.subrange(1, ended.waiting.len() as int)
    } else {
        ended.waiting
    };
    System {
        nodes: sys.nodes.insert(contact, RingView { waiting, ..ended }),
        wire: sys.wire.remove(Packet::Ack { to: contact }).insert(
            Packet::Reply { to: admission.requester, predecessor: admission.old_predecessor },
        ),
    }
}

/// The admission that is about to begin once the one at `contact` has ended:
/// that of the oldest waiting joiner, if one waits.
pub open spec fn next_up(sys: System, contact: NodeIdentity) -> Option<(NodeIdentity, NodeIdentity)> {
    if sys.nodes[contact].waiting.len() > 0 {
        Some((contact, sys.nodes[contact].waiting[0]))
    } else {
        None
    }
}

/// A join request that an idle contact takes off the wire leaves the
/// invariant in the form in which an admission is about to begin.
proof fn lemma_taken_holds(sys: System, order: Seq<NodeIdentity>, call: Outbound, from: NodeIdentity)
    requires
        holds_with(sys, order, None),
        sys.wire.contains(Packet::Call { call, from }),
        call.rpc == Rpc::JoinRing,
        sys.nodes[call.target].admitting is None,
    ensures
        holds_with(taken(sys, Packet::Call { call, from }), order, Some((call.target, from))),
{
    let packet = Packet::Call { call, from };
    let mid = taken(sys, packet);
    let starting = Some((call.target, from));
    assert(packet_ok(sys, order, packet));
    assert(node_ok(sys, order, None, from));
    assert(packet == join_request(from, call.target));
    assert forall|x: NodeIdentity| mid.nodes.dom().contains(x) implies #[trigger] node_ok(
        mid,
        order,
        starting,
        x,
    ) by {
        assert(node_ok(sys, order, None, x));
        if order.contains(x) {
            lemma_neighbours_in_order(order, x);
            let s = succ_in(order, x);
            assert(under_admission(mid, order, x) == under_admission(sys, order, x));
            assert(answered(mid, order, x) == answered(sys, order, x));
            let pending = Admission { requester: s, old_predecessor: x };
            assert(notice(pending, succ_in(order, s)) != packet);
            assert(successor_pending(mid, order, x) == successor_pending(sys, order, x));
            if sys.nodes[x].admitting is Some {
                assert(notice(sys.nodes[x].admitting->Some_0, x) != packet);
            }
            assert(member_ok(mid, order, x));
        } else {
            if x != from {
                assert(join_request(x, sys.nodes[x].successor) != packet);
            }
            assert(applicant_ok(mid, order, starting, x));
        }
    }
    assert forall|p: Packet| mid.wire.contains(p) implies #[trigger] packet_ok(mid, order, p) by {
        assert(packet_ok(sys, order, p));
    }
}

/// The end of an admission leaves the invariant, in the form in which the
/// next admission is about to begin if a joiner waits.
proof fn lemma_settled_holds(sys: System, order: Seq<NodeIdentity>, contact: NodeIdentity)
    requires
        holds_with(sys, order, None),
        sys.wire.contains(Packet::Ack { to: contact }),
    ensures
        holds_with(settled(sys, contact), order, next_up(sys, contact)),
{
    let mid = settled(sys, contact);
    let starting = next_up(sys, contact);
    let ack = Packet::Ack { to: contact };
    assert(packet_ok(sys, order, ack));
    assert(node_ok(sys, order, None, contact));
    let a = sys.nodes[contact].admitting->Some_0;
    let joiner = a.requester;
    lemma_neighbours_in_order(order, contact);
    lemma_neighbours_in_order(order, joiner);
    assert(node_ok(sys, order, None, joiner));
    assert forall|x: NodeIdentity| mid.nodes.dom().contains(x) implies #[trigger] node_ok(
        mid,
        order,
        starting,
        x,
    ) by {
        lemma_settled_keeps_node(sys, order, contact, x);
    }
    assert forall|p: Packet| mid.wire.contains(p) implies #[trigger] packet_ok(mid, order, p) by {
        if p != (Packet::Reply { to: joiner, predecessor: a.old_predecessor }) {
            assert(packet_ok(sys, order, p));
            assert(p != ack);
            if p is Call && p->call.rpc == Rpc::SetSuccessor && p->from == contact {
                assert(p == notice(a, contact));
            }
        }
    }
    if starting is Some {
        let w = sys.nodes[contact].waiting[0];
        assert(sys.nodes.dom().contains(w) && !order.contains(w));
    }
}

/// What the end of the admission at `contact` means for the node `x`.
proof fn lemma_settled_keeps_node(
    sys: System,
    order: Seq<NodeIdentity>,
    contact: NodeIdentity,
    x: NodeIdentity,
)
    requires
        holds_with(sys, order, None),
        sys.wire.contains(Packet::Ack { to: contact }),
        sys.nodes.dom().contains(x) || x == contact,
    ensures
        node_ok(settled(sys, contact), order, next_up(sys, contact), x),
{
    let mid = settled(sys, contact);
    let starting = next_up(sys, contact);
    let ack = Packet::Ack { to: contact };
    assert(packet_ok(sys, order, ack));
    assert(node_ok(sys, order, None, contact));
    let a = sys.nodes[contact].admitting->Some_0;
    let joiner = a.requester;
    let old_pred = a.old_predecessor;
    let reply = Packet::Reply { to: joiner, predecessor: old_pred };
    lemma_neighbours_in_order(order, contact);
    lemma_neighbours_in_order(order, joiner);
    assert(joiner == pred_in(order, contact));
    assert(old_pred == pred_in(order, joiner));
    assert(!sys.wire.contains(notice(a, contact)));
    assert(node_ok(sys, order, None, joiner));
    assert(node_ok(sys, order, None, x));
    assert(joiner != contact);
    let node = sys.nodes[x];
    let before = sys.nodes[contact].waiting;
    let after = mid.nodes[contact].waiting;
    assert forall|y: NodeIdentity|
        after.contains(y) == (before.contains(y) && !(before.len() > 0 && y == before[0])) by {
        if before.len() > 0 {
            if after.contains(y) {
                let i = after.index_of(y);
                assert(before[i + 1] == y);
            }
            if before.contains(y) && y != before[0] {
                let i = before.index_of(y);
                assert(after[i - 1] == y);
            }
        }
    }
    assert forall|i: int| 0 <= i < mid.nodes[x].waiting.len() implies {
        let w = #[trigger] mid.nodes[x].waiting[i];
        &&& mid.nodes.dom().contains(w)
        &&& !order.contains(w)
        &&& mid.nodes[w].successor == x
    } by {
        if x == contact && before.len() > 0 {
            let w = before[i + 1];
            assert(sys.nodes.dom().contains(w));
        } else {
            let w = node.waiting[i];
            assert(sys.nodes.dom().contains(w));
        }
    }
    if x == contact && before.len() > 0 {
        assert forall|i: int, j: int|
            0 <= i < after.len() && 0 <= j < after.len() && i != j implies after[i] != after[j] by {
            assert(before[i + 1] != before[j + 1]);
        }
    }
    if order.contains(x) {
        lemma_neighbours_in_order(order, x);
        let s = succ_in(order, x);
        let q = pred_in(order, x);
        lemma_neighbours_in_order(order, s);
        lemma_neighbours_in_order(order, q);
        assert(node_ok(sys, order, None, s));
        assert(node_ok(sys, order, None, q));
        let ss = succ_in(order, s);
        assert(node_ok(sys, order, None, ss));
        assert(mid.nodes[q].joining == sys.nodes[q].joining);
        let pending = Admission { requester: s, old_predecessor: x };
        if ss == contact {
            assert(!successor_pending(sys, order, x));
            assert(!successor_pending(mid, order, x));
        } else {
            assert(mid.nodes[ss].admitting == sys.nodes[ss].admitting);
            assert(notice(pending, ss) != reply);
            assert(successor_pending(mid, order, x) == successor_pending(sys, order, x));
        }
        if x == joiner {
            assert(s == contact);
            assert(under_admission(sys, order, x));
            assert(!under_admission(mid, order, x));
            assert(answered(mid, order, x));
        } else {
            assert(s != contact);
            assert(mid.nodes[s].admitting == sys.nodes[s].admitting);
            assert(under_admission(mid, order, x) == under_admission(sys, order, x));
            assert(answered(mid, order, x) == answered(sys, order, x));
        }
        if x != contact && !node.joining && node.admitting is Some {
            let own = node.admitting->Some_0;
            assert(notice(own, x) != reply);
            assert(mid.wire.contains(notice(own, x)) == sys.wire.contains(notice(own, x)));
        }
        assert(member_ok(mid, order, x));
    } else {
        let c = node.successor;
        assert(node_ok(sys, order, None, c));
        assert(mid.nodes[c].joining == sys.nodes[c].joining);
        assert(join_request(x, c) != reply);
        assert(applicant_ok(mid, order, starting, x));
    }
}

/// An admission that begins turns the invariant back into its plain form,
/// with the joiner put into the ring on paper just before the contact.
proof fn lemma_begin_holds(
    mid: System,
    order: Seq<NodeIdentity>,
    contact: NodeIdentity,
    joiner: NodeIdentity,
)
    requires
        holds_with(mid, order, Some((contact, joiner))),
    ensures
        holds_with(
            begin(mid, contact, joiner),
            order.insert(order.index_of(contact), joiner),
            None,
        ),
{
    let starting = Some((contact, joiner));
    let post = begin(mid, contact, joiner);
    let k = order.index_of(contact);
    let longer = order.insert(k, joiner);
    lemma_position_of_member(order, contact);
    lemma_insert_before(order, k, joiner);
    assert(node_ok(mid, order, starting, contact));
    assert(node_ok(mid, order, starting, joiner));
    let old_pred = pred_in(order, contact);
    let admission = Admission { requester: joiner, old_predecessor: old_pred };
    assert(mid.nodes[contact].predecessor == old_pred);
    assert forall|x: NodeIdentity| #[trigger] longer.contains(x) implies post.nodes.dom().contains(
        x,
    ) by {
        if x != joiner {
            assert(order.contains(x));
        }
    }
    assert forall|x: NodeIdentity| post.nodes.dom().contains(x) implies #[trigger] node_ok(
        post,
        longer,
        None,
        x,
    ) by {
        lemma_begin_keeps_node(mid, order, contact, joiner, x);
    }
    assert forall|p: Packet| post.wire.contains(p) implies #[trigger] packet_ok(post, longer, p) by {
        if p != notice(admission, contact) {
            assert(packet_ok(mid, order, p));
            match p {
                Packet::Call { call, from } => {
                    if call.rpc == Rpc::JoinRing {
                        if from == joiner {
                            assert(p == join_request(joiner, contact));
                        }
                    }
                },
                Packet::Ack { to } => {},
                Packet::Reply { to, predecessor } => {
                    assert(to != contact);
                },
            }
        }
    }
}

/// What the beginning of the admission of `joiner` at `contact` means for
/// the node `x`.
proof fn lemma_begin_keeps_node(
    mid: System,
    order: Seq<NodeIdentity>,
    contact: NodeIdentity,
    joiner: NodeIdentity,
    x: NodeIdentity,
)
    requires
        holds_with(mid, order, Some((contact, joiner))),
        mid.nodes.dom().contains(x),
    ensures
        node_ok(
            begin(mid, contact, joiner),
            order.insert(order.index_of(contact), joiner),
            None,
            x,
        ),
{
    let starting = Some((contact, joiner));
    let post = begin(mid, contact, joiner);
    let k = order.index_of(contact);
    let longer = order.insert(k, joiner);
    lemma_position_of_member(order, contact);
    lemma_insert_before(order, k, joiner);
    lemma_neighbours_in_order(order, contact);
    assert(node_ok(mid, order, starting, contact));
    assert(node_ok(mid, order, starting, joiner));
    assert(node_ok(mid, order, starting, x));
    let old_pred = pred_in(order, contact);
    let admission = Admission { requester: joiner, old_predecessor: old_pred };
    let new_notice = notice(admission, contact);
    assert(mid.nodes[contact].predecessor == old_pred);
    assert(post.nodes[contact].admitting == Some(admission));
    assert(post.wire.contains(new_notice));
    assert(order.contains(old_pred));
    assert(node_ok(mid, order, starting, old_pred));
    if mid.wire.contains(Packet::Ack { to: contact }) {
        assert(packet_ok(mid, order, Packet::Ack { to: contact }));
    }
    if mid.wire.contains(new_notice) {
        assert(packet_ok(mid, order, new_notice));
    }
    let node = mid.nodes[x];
    assert forall|i: int| 0 <= i < post.nodes[x].waiting.len() implies {
        let w = #[trigger] post.nodes[x].waiting[i];
        &&& post.nodes.dom().contains(w)
        &&& !longer.contains(w)
        &&& post.nodes[w].successor == x
    } by {
        let w = node.waiting[i];
        assert(mid.nodes.dom().contains(w));
        assert(!order.contains(w));
        assert(mid.nodes[w].successor == x);
        if w == joiner {
            assert(x == contact);
            assert(mid.nodes[contact].waiting.contains(joiner));
        }
    }
    if x == joiner {
        if post.wire.contains(Packet::Reply { to: joiner, predecessor: old_pred }) {
            assert(packet_ok(mid, order, Packet::Reply { to: joiner, predecessor: old_pred }));
        }
        assert(under_admission(post, longer, x));
        assert(!answered(post, longer, x));
        assert(member_ok(post, longer, x));
    } else if order.contains(x) {
        lemma_neighbours_in_order(order, x);
        let s = succ_in(order, x);
        let q = pred_in(order, x);
        lemma_neighbours_in_order(order, s);
        lemma_neighbours_in_order(order, q);
        let ss = succ_in(order, s);
        assert(node_ok(mid, order, starting, s));
        assert(node_ok(mid, order, starting, q));
        assert(node_ok(mid, order, starting, ss));
        // The successor link.
        if x == old_pred {
            assert(s == contact);
            assert(!successor_pending(mid, order, x));
            assert(succ_in(longer, x) == joiner);
            assert(succ_in(longer, joiner) == contact);
            assert(successor_pending(post, longer, x));
        } else {
            assert(succ_in(longer, x) == s);
            if successor_pending(mid, order, x) {
                assert(ss != contact);
                assert(s != old_pred);
                assert(succ_in(longer, s) == ss);
                assert(post.nodes[ss] == mid.nodes[ss]);
                assert(successor_pending(post, longer, x));
            }
        }
        // The admission that the node asks for or carries out.
        if x == contact {
            assert(pred_in(longer, x) == joiner);
            assert(pred_in(longer, joiner) == old_pred);
            assert(!post.wire.contains(Packet::Ack { to: contact }));
        } else {
            assert(pred_in(longer, x) == q);
            assert(post.nodes[x] == node);
            if node.joining {
                if x == old_pred {
                    assert(!under_admission(mid, order, x));
                    assert(!under_admission(post, longer, x));
                } else if s == contact {
                    assert(!under_admission(mid, order, x));
                    assert(!under_admission(post, longer, x));
                } else {
                    assert(post.nodes[s] == mid.nodes[s]);
                    assert(under_admission(post, longer, x) == under_admission(mid, order, x));
                }
                assert(answered(post, longer, x) == answered(mid, order, x));
            } else if node.admitting is Some {
                let own = node.admitting->Some_0;
                assert(mid.nodes[q].joining);
                assert(q != contact);
                assert(pred_in(longer, q) == pred_in(order, q));
                assert(notice(own, x) != new_notice);
                assert(post.nodes[q].joining);
            }
        }
        assert(member_ok(post, longer, x));
    } else {
        let c = node.successor;
        assert(order.contains(c));
        assert(longer.contains(c));
        assert(post.nodes[c].waiting == mid.nodes[c].waiting);
        assert(post.nodes[c].joining == mid.nodes[c].joining);
        assert(join_request(x, c) != new_notice);
        assert(applicant_ok(post, longer, None, x));
    }
}

/// A join request that arrives at an idle contact keeps the invariant: the
/// admission begins, and the joiner takes its place in the ring on paper.
pub proof fn lemma_admitted_holds(
    sys: System,
    order: Seq<NodeIdentity>,
    call: Outbound,
    from: NodeIdentity,
)
    requires
        holds_with(sys, order, None),
        sys.wire.contains(Packet::Call { call, from }),
        call.rpc == Rpc::JoinRing,
        sys.nodes[call.target].admitting is None,
    ensures
        holds_with(
            deliver_call(sys, call, from),
            order.insert(order.index_of(call.target), from),
            None,
        ),
{
    let packet = Packet::Call { call, from };
    assert(packet_ok(sys, order, packet));
    lemma_taken_holds(sys, order, call, from);
    let mid = taken(sys, packet);
    lemma_begin_holds(mid, order, call.target, from);
    let post = deliver_call(sys, call, from);
    let begun = begin(mid, call.target, from);
    assert(post.nodes =~= begun.nodes);
    assert(post.wire =~= begun.wire);
}

/// An acknowledgement that arrives at its contact keeps the invariant: the
/// admission ends, and the oldest waiting joiner, if there is one, takes its
/// place in the ring on paper.
pub proof fn lemma_ack_holds(sys: System, order: Seq<NodeIdentity>, contact: NodeIdentity)
    requires
        holds_with(sys, order, None),
        sys.wire.contains(Packet::Ack { to: contact }),
    ensures
        holds_with(
            deliver_ack(sys, contact),
            match next_up(sys, contact) {
                Some((_, joiner)) => order.insert(order.index_of(contact), joiner),
                None => order,
            },
            None,
        ),
{
    assert(packet_ok(sys, order, Packet::Ack { to: contact }));
    lemma_settled_holds(sys, order, contact);
    let mid = settled(sys, contact);
    let post = deliver_ack(sys, contact);
    match next_up(sys, contact) {
        Some((_, joiner)) => {
            lemma_begin_holds(mid, order, contact, joiner);
            let begun = begin(mid, contact, joiner);
            assert(post.nodes =~= begun.nodes);
            assert(post.wire =~= begun.wire);
        },
        None => {
            assert(post.nodes =~= mid.nodes);
            assert(post.wire =~= mid.wire);
        },
    }
}

} // verus!
