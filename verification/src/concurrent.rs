//! Joins that overlap in time leave a single ring.

use vstd::prelude::*;
use crate::cluster::{is_ring, ring_in_order};
use crate::identity::NodeIdentity;
use crate::inductive::{
    holds, holds_with, lemma_ack_holds, lemma_admitted_holds, lemma_init_holds,
    lemma_queued_holds, lemma_quiet_is_ring, lemma_reply_holds, lemma_start_holds,
    lemma_update_holds, next_up, node_ok, packet_ok,
};
use crate::message::{Admission, Rpc};
use crate::model::RingView;
use crate::order::lemma_neighbours_in_order;
use crate::system::{
    enabled, init, join_request, possible, quiet, run, step, Event, Packet, System,
};

verus! {

/// `id` is the first node or a node that starts in the course of `events`.
pub open spec fn has_started(origin: NodeIdentity, events: Seq<Event>, id: NodeIdentity) -> bool {
    id == origin || exists|i: int|
        0 <= i < events.len() && (#[trigger] events[i]) is Start && events[i]->joiner == id
}

/// Whatever can happen keeps the invariant.
pub proof fn lemma_step_holds(sys: System, event: Event)
    requires
        holds(sys),
        enabled(sys, event),
    ensures
        holds(step(sys, event)),
{
    let order = choose|order: Seq<NodeIdentity>| holds_with(sys, order, None);
    let post = step(sys, event);
    match event {
        Event::Start { joiner, contact } => {
            lemma_start_holds(sys, order, joiner, contact);
            assert(holds_with(post, order, None));
        },
        Event::Deliver { packet } => match packet {
            Packet::Call { call, from } => {
                if call.rpc == Rpc::SetSuccessor {
                    lemma_update_holds(sys, order, call, from);
                    assert(holds_with(post, order, None));
                } else if sys.nodes[call.target].admitting is Some {
                    lemma_queued_holds(sys, order, call, from);
                    assert(holds_with(post, order, None));
                } else {
                    lemma_admitted_holds(sys, order, call, from);
                    assert(holds_with(
                        post,
                        order.insert(order.index_of(call.target), from),
                        None,
                    ));
                }
            },
            Packet::Ack { to } => {
                lemma_ack_holds(sys, order, to);
                let after = match next_up(sys, to) {
                    Some((_, joiner)) => order.insert(order.index_of(to), joiner),
                    None => order,
                };
                assert(holds_with(post, after, None));
            },
            Packet::Reply { to, predecessor } => {
                lemma_reply_holds(sys, order, to, predecessor);
                assert(holds_with(post, order, None));
            },
        },
    }
}

/// No step adds a node but the start of one, and no step removes one.
pub proof fn lemma_step_nodes(sys: System, event: Event)
    requires
        holds(sys),
        enabled(sys, event),
    ensures
        step(sys, event).nodes.dom() == match event {
            Event::Start { joiner, contact } => sys.nodes.dom().insert(joiner),
            Event::Deliver { packet } => sys.nodes.dom(),
        },
{
    let order = choose|order: Seq<NodeIdentity>| holds_with(sys, order, None);
    let post = step(sys, event);
    match event {
        Event::Start { joiner, contact } => {
            assert(post.nodes.dom() =~= sys.nodes.dom().insert(joiner));
        },
        Event::Deliver { packet } => {
            assert(packet_ok(sys, order, packet));
            match packet {
                Packet::Call { call, from } => {
                    assert(node_ok(sys, order, None, from));
                    if call.rpc == Rpc::SetSuccessor {
                        let joiner = sys.nodes[from].admitting->Some_0.requester;
                        lemma_neighbours_in_order(order, from);
                        lemma_neighbours_in_order(order, joiner);
                    }
                    assert(order.contains(call.target));
                    assert(sys.nodes.dom().contains(call.target));
                },
                Packet::Ack { to } => {},
                Packet::Reply { to, predecessor } => {},
            }
            assert(post.nodes.dom() =~= sys.nodes.dom());
        },
    }
}

/// Every run keeps the invariant, and its nodes are those that have started.
pub proof fn lemma_run_holds(origin: NodeIdentity, events: Seq<Event>)
    requires
        possible(origin, events),
    ensures
        holds(run(origin, events)),
        forall|id: NodeIdentity|
            run(origin, events).nodes.dom().contains(id) <==> has_started(origin, events, id),
    decreases events.len(),
{
    if events.len() == 0 {
        lemma_init_holds(origin);
    } else {
        let earlier = events.drop_last();
        let last = events.last();
        lemma_run_holds(origin, earlier);
        let before = run(origin, earlier);
        lemma_step_holds(before, last);
        lemma_step_nodes(before, last);
        let after = run(origin, events);
        assert forall|id: NodeIdentity| after.nodes.dom().contains(id) implies has_started(
            origin,
            events,
            id,
        ) by {
            if before.nodes.dom().contains(id) {
                assert(has_started(origin, earlier, id));
                if id != origin {
                    let i = choose|i: int|
                        0 <= i < earlier.len() && (#[trigger] earlier[i]) is Start
                            && earlier[i]->joiner == id;
                    assert(events[i] is Start && events[i]->joiner == id);
                }
            } else {
                assert(events[events.len() - 1] is Start && events[events.len() - 1]->joiner
                    == id);
            }
        }
        assert forall|id: NodeIdentity| has_started(origin, events, id) implies after.nodes.dom().contains(
            id,
        ) by {
            if id != origin {
                let i = choose|i: int|
                    0 <= i < events.len() && (#[trigger] events[i]) is Start && events[i]->joiner
                        == id;
                if i < earlier.len() {
                    assert(earlier[i] is Start && earlier[i]->joiner == id);
                    assert(has_started(origin, earlier, id));
                }
            } else {
                assert(has_started(origin, earlier, id));
            }
        }
    }
}

/// However the joins of a run overlap, and in whatever order its messages
/// arrive, once nothing is under way the nodes form a single ring.
///
/// The ring holds the first node and every node that has started, each once.
/// Every one of them has completed its join, and no contact is left with an
/// admission under way or a joiner waiting. This covers any number of joiners
/// that ask the same contact at the same time: the contact admits them one
/// after the other, and none is lost or linked in twice.
pub proof fn lemma_concurrent_joins_leave_ring(origin: NodeIdentity, events: Seq<Event>)
    requires
        possible(origin, events),
        quiet(run(origin, events)),
    ensures
        is_ring(run(origin, events).nodes),
        forall|id: NodeIdentity|
            run(origin, events).nodes.dom().contains(id) <==> has_started(origin, events, id),
        forall|id: NodeIdentity|
            has_started(origin, events, id) ==> {
                let node = #[trigger] run(origin, events).nodes[id];
                &&& node.addr == id
                &&& !node.joining
                &&& node.idle()
            },
{
    lemma_run_holds(origin, events);
    let sys = run(origin, events);
    let order = choose|order: Seq<NodeIdentity>| holds_with(sys, order, None);
    lemma_quiet_is_ring(sys, order);
    assert(ring_in_order(sys.nodes, order));
    assert forall|id: NodeIdentity| has_started(origin, events, id) implies {
        let node = #[trigger] sys.nodes[id];
        &&& node.addr == id
        &&& !node.joining
        &&& node.idle()
    } by {
        assert(sys.nodes.dom().contains(id));
        assert(order.contains(id));
    }
}

/// A run that goes on by one event.
pub proof fn lemma_run_push(origin: NodeIdentity, events: Seq<Event>, event: Event)
    ensures
        run(origin, events.push(event)) == step(run(origin, events), event),
        possible(origin, events.push(event)) == (possible(origin, events) && enabled(
            run(origin, events),
            event,
        )),
{
    assert(events.push(event).drop_last() =~= events);
}

/// Two joiners ask the same contact at the same time, and the ring comes out
/// whole.
///
/// `b` and `c` both start with `a` as their contact, which stands alone. `a`
/// takes the request of `c` while it is still admitting `b`, so `c` waits.
/// When `b` is admitted, the admission of `c` begins, and its update reaches
/// `b` even before `b` has had the answer to its own request. In the end the
/// successors run `a`, `b`, `c` and back to `a`, and the predecessors the
/// other way round.
pub proof fn lemma_two_joiners_at_one_contact(a: NodeIdentity, b: NodeIdentity, c: NodeIdentity)
    requires
        a != b,
        a != c,
        b != c,
    ensures
        ({
            let first = Admission { requester: b, old_predecessor: a };
            let second = Admission { requester: c, old_predecessor: b };
            let events = seq![
                Event::Start { joiner: b, contact: a },
                Event::Start { joiner: c, contact: a },
                Event::Deliver { packet: join_request(b, a) },
                Event::Deliver { packet: join_request(c, a) },
                Event::Deliver { packet: Packet::Call { call: RingView::notify(first), from: a } },
                Event::Deliver { packet: Packet::Ack { to: a } },
                Event::Deliver { packet: Packet::Call { call: RingView::notify(second), from: a } },
                Event::Deliver { packet: Packet::Reply { to: b, predecessor: a } },
                Event::Deliver { packet: Packet::Ack { to: a } },
                Event::Deliver { packet: Packet::Reply { to: c, predecessor: b } },
            ];
            let end = run(a, events);
            &&& possible(a, events)
            &&& quiet(end)
            &&& end.nodes[a].successor == b
            &&& end.nodes[b].successor == c
            &&& end.nodes[c].successor == a
            &&& end.nodes[a].predecessor == c
            &&& end.nodes[c].predecessor == b
            &&& end.nodes[b].predecessor == a
            &&& is_ring(end.nodes)
        }),
{
    let first = Admission { requester: b, old_predecessor: a };
    let second = Admission { requester: c, old_predecessor: b };
    let tell_a = Packet::Call { call: RingView::notify(first), from: a };
    let tell_b = Packet::Call { call: RingView::notify(second), from: a };
    let ack = Packet::Ack { to: a };
    let answer_b = Packet::Reply { to: b, predecessor: a };
    let answer_c = Packet::Reply { to: c, predecessor: b };
    let e0 = Event::Start { joiner: b, contact: a };
    let e1 = Event::Start { joiner: c, contact: a };
    let e2 = Event::Deliver { packet: join_request(b, a) };
    let e3 = Event::Deliver { packet: join_request(c, a) };
    let e4 = Event::Deliver { packet: tell_a };
    let e5 = Event::Deliver { packet: ack };
    let e6 = Event::Deliver { packet: tell_b };
    let e7 = Event::Deliver { packet: answer_b };
    let e8 = Event::Deliver { packet: ack };
    let e9 = Event::Deliver { packet: answer_c };
    let events = seq![e0, e1, e2, e3, e4, e5, e6, e7, e8, e9];

    let alone = RingView::fresh(a);
    let asking_b = RingView { successor: a, joining: true, ..RingView::fresh(b) };
    let asking_c = RingView { successor: a, joining: true, ..RingView::fresh(c) };
    let none = Seq::<NodeIdentity>::empty();

    let t0 = Seq::<Event>::empty();
    let s0 = init(a);
    assert(run(a, t0) == s0 && possible(a, t0));

    let t1 = t0.push(e0);
    let s1 = System { nodes: map![a => alone, b => asking_b], wire: set![join_request(b, a)] };
    lemma_run_push(a, t0, e0);
    assert(step(s0, e0).nodes =~= s1.nodes && step(s0, e0).wire =~= s1.wire);

    let t2 = t1.push(e1);
    let s2 = System {
        nodes: map![a => alone, b => asking_b, c => asking_c],
        wire: set![join_request(b, a), join_request(c, a)],
    };
    lemma_run_push(a, t1, e1);
    assert(step(s1, e1).nodes =~= s2.nodes && step(s1, e1).wire =~= s2.wire);

    let t3 = t2.push(e2);
    let a3 = RingView { admitting: Some(first), ..alone };
    let s3 = System {
        nodes: map![a => a3, b => asking_b, c => asking_c],
        wire: set![join_request(c, a), tell_a],
    };
    lemma_run_push(a, t2, e2);
    assert(step(s2, e2).nodes =~= s3.nodes && step(s2, e2).wire =~= s3.wire);

    let t4 = t3.push(e3);
    let a4 = RingView { waiting: seq![c], ..a3 };
    let s4 = System { nodes: map![a => a4, b => asking_b, c => asking_c], wire: set![tell_a] };
    lemma_run_push(a, t3, e3);
    assert(a3.waiting.push(c) =~= seq![c]);
    assert(step(s3, e3).nodes =~= s4.nodes && step(s3, e3).wire =~= s4.wire);

    let t5 = t4.push(e4);
    let a5 = RingView { successor: b, ..a4 };
    let s5 = System { nodes: map![a => a5, b => asking_b, c => asking_c], wire: set![ack] };
    lemma_run_push(a, t4, e4);
    assert(step(s4, e4).nodes =~= s5.nodes && step(s4, e4).wire =~= s5.wire);

    let t6 = t5.push(e5);
    let a6 = RingView { predecessor: b, admitting: Some(second), waiting: none, ..a5 };
    let s6 = System {
        nodes: map![a => a6, b => asking_b, c => asking_c],
        wire: set![answer_b, tell_b],
    };
    lemma_run_push(a, t5, e5);
    assert(a5.waiting[0] == c);
    assert(a5.waiting.subrange(1, 1) =~= none);
    assert(a5.complete_admission(true).0 == a6);
    assert(step(s5, e5).nodes =~= s6.nodes && step(s5, e5).wire =~= s6.wire);

    let t7 = t6.push(e6);
    let b7 = RingView { successor: c, ..asking_b };
    let s7 = System { nodes: map![a => a6, b => b7, c => asking_c], wire: set![answer_b, ack] };
    lemma_run_push(a, t6, e6);
    assert(step(s6, e6).nodes =~= s7.nodes && step(s6, e6).wire =~= s7.wire);

    let t8 = t7.push(e7);
    let b8 = RingView { predecessor: a, joining: false, ..b7 };
    let s8 = System { nodes: map![a => a6, b => b8, c => asking_c], wire: set![ack] };
    lemma_run_push(a, t7, e7);
    assert(step(s7, e7).nodes =~= s8.nodes && step(s7, e7).wire =~= s8.wire);

    let t9 = t8.push(e8);
    let a9 = RingView { predecessor: c, admitting: None, ..a6 };
    let s9 = System { nodes: map![a => a9, b => b8, c => asking_c], wire: set![answer_c] };
    lemma_run_push(a, t8, e8);
    assert(a6.complete_admission(true).0 == a9);
    assert(step(s8, e8).nodes =~= s9.nodes && step(s8, e8).wire =~= s9.wire);

    let t10 = t9.push(e9);
    let c10 = RingView { predecessor: b, joining: false, ..asking_c };
    let s10 = System { nodes: map![a => a9, b => b8, c => c10], wire: Set::empty() };
    lemma_run_push(a, t9, e9);
    assert(step(s9, e9).nodes =~= s10.nodes && step(s9, e9).wire =~= s10.wire);

    assert(t10 =~= events);
    assert(run(a, events) == s10);
    lemma_concurrent_joins_leave_ring(a, events);
}

} // verus!
