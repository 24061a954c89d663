//! A whole cluster: when its nodes form one ring, and what a join makes of it.

use vstd::prelude::*;
use crate::identity::NodeIdentity;
use crate::message::JoinReply;
use crate::model::RingView;
use crate::order::{lemma_insert_before, lemma_position_unique, pred_in, succ_in};

verus! {

/// The nodes of `cluster` form the ring `order`: `order` names each node of
/// the cluster once, and the links of every node are its neighbours in it.
pub open spec fn ring_in_order(
    cluster: Map<NodeIdentity, RingView>,
    order: Seq<NodeIdentity>,
) -> bool {
    &&& order.len() > 0
    &&& order.no_duplicates()
    &&& forall|id: NodeIdentity| cluster.dom().contains(id) <==> #[trigger] order.contains(id)
    &&& forall|id: NodeIdentity| #[trigger]
        order.contains(id) ==> {
            &&& cluster[id].addr == id
            &&& cluster[id].successor == succ_in(order, id)
            &&& cluster[id].predecessor == pred_in(order, id)
        }
}

/// The nodes of `cluster` form a single cycle that visits each of them once.
pub open spec fn is_ring(cluster: Map<NodeIdentity, RingView>) -> bool {
    exists|order: Seq<NodeIdentity>| ring_in_order(cluster, order)
}

/// The cluster after `target` has taken a successor update naming `host`.
pub open spec fn deliver_set_next(
    cluster: Map<NodeIdentity, RingView>,
    target: NodeIdentity,
    host: NodeIdentity,
) -> Map<NodeIdentity, RingView> {
    cluster.insert(target, cluster[target].set_next(Some(host)).0)
}

/// The cluster after `joiner` has started and joined through `contact`, every
/// call delivered and nothing else happening in between.
///
/// The steps are those of the nodes themselves, in the order of the protocol:
/// the joiner points at the contact and asks; the contact begins the
/// admission; its old predecessor takes the update; the contact completes the
/// admission; the joiner takes the reply.
pub open spec fn join_through(
    cluster: Map<NodeIdentity, RingView>,
    joiner: NodeIdentity,
    contact: NodeIdentity,
) -> Map<NodeIdentity, RingView> {
    let (asking, request) = RingView::fresh(joiner).join(contact);
    let (admitting, _step) = cluster[request.target].join_ring(Some(request.host));
    let call = RingView::notify(admitting.admitting->Some_0);
    let begun = cluster.insert(contact, admitting);
    let told = deliver_set_next(begun, call.target, call.host);
    let (admitted, outcome) = told[contact].complete_admission(true);
    let ended = told.insert(contact, admitted);
    let (joined, _done) = asking.complete_join(
        JoinReply::Admitted(outcome->Some_0.reply->Ok_0.host),
    );
    ended.insert(joiner, joined)
}

/// A node alone is a ring.
pub proof fn lemma_singleton_is_ring(addr: NodeIdentity)
    ensures
        ring_in_order(map![addr => RingView::fresh(addr)], seq![addr]),
        is_ring(map![addr => RingView::fresh(addr)]),
{
    let cluster = map![addr => RingView::fresh(addr)];
    let order = seq![addr];
    assert(order[0] == addr);
    assert forall|id: NodeIdentity| cluster.dom().contains(id) <==> #[trigger] order.contains(
        id,
    ) by {
        if order.contains(id) {
            let i = order.index_of(id);
            assert(order[i] == id);
        }
    }
    assert forall|id: NodeIdentity| #[trigger] order.contains(id) implies {
        &&& cluster[id].addr == id
        &&& cluster[id].successor == succ_in(order, id)
        &&& cluster[id].predecessor == pred_in(order, id)
    } by {
        let i = order.index_of(id);
        assert(order[i] == id);
    }
}

/// A join through a contact that is not in the middle of another admission
/// puts the joiner between the contact and the contact's predecessor, and
/// leaves a ring.
///
/// With `p` the contact's predecessor before the join, afterwards `p` points
/// forward at the joiner, the joiner back at `p` and forward at the contact,
/// and the contact back at the joiner. Nobody else's links change, and the
/// cluster is the ring it was with the joiner put in before the contact.
pub proof fn lemma_join_keeps_ring(
    cluster: Map<NodeIdentity, RingView>,
    order: Seq<NodeIdentity>,
    joiner: NodeIdentity,
    contact: NodeIdentity,
)
    requires
        ring_in_order(cluster, order),
        cluster.dom().contains(contact),
        !cluster.dom().contains(joiner),
        cluster[contact].admitting is None,
    ensures
        ({
            let after = join_through(cluster, joiner, contact);
            let p = cluster[contact].predecessor;
            &&& after[p].successor == joiner
            &&& after[joiner].predecessor == p
            &&& after[joiner].successor == contact
            &&& after[contact].predecessor == joiner
            &&& after.dom() == cluster.dom().insert(joiner)
            &&& forall|id: NodeIdentity|
                cluster.dom().contains(id) && id != p ==> #[trigger] after[id].successor
                    == cluster[id].successor
            &&& forall|id: NodeIdentity|
                cluster.dom().contains(id) && id != contact ==> #[trigger] after[id].predecessor
                    == cluster[id].predecessor
            &&& ring_in_order(after, order.insert(order.index_of(contact), joiner))
            &&& is_ring(after)
        }),
{
    let after = join_through(cluster, joiner, contact);
    let p = cluster[contact].predecessor;
    let k = order.index_of(contact);
    let longer = order.insert(k, joiner);
    assert(order.contains(contact));
    assert(order[k] == contact);
    assert(!order.contains(joiner));
    lemma_insert_before(order, k, joiner);
    assert(p == pred_in(order, contact));
    crate::order::lemma_neighbours_in_order(order, contact);
    assert(order.contains(p));
    assert(cluster.dom().contains(p));
    assert(after.dom() =~= cluster.dom().insert(joiner));
    assert forall|id: NodeIdentity| after.dom().contains(id) <==> #[trigger] longer.contains(
        id,
    ) by {
        assert(order.contains(id) <==> cluster.dom().contains(id));
    }
    assert forall|id: NodeIdentity| #[trigger] longer.contains(id) implies {
        &&& after[id].addr == id
        &&& after[id].successor == succ_in(longer, id)
        &&& after[id].predecessor == pred_in(longer, id)
    } by {
        if id != joiner {
            assert(order.contains(id));
            if id != p {
                assert(succ_in(longer, id) == succ_in(order, id));
            }
            if id != contact {
                assert(pred_in(longer, id) == pred_in(order, id));
            }
        }
    }
}

/// Joining one after the other keeps the ring, however many join: each join
/// in `joins` names a joiner that is new and a contact that is in the cluster
/// by then and admits nobody else at that moment.
pub open spec fn joins_in_turn(
    cluster: Map<NodeIdentity, RingView>,
    joins: Seq<(NodeIdentity, NodeIdentity)>,
) -> Map<NodeIdentity, RingView>
    decreases joins.len(),
{
    if joins.len() == 0 {
        cluster
    } else {
        let before = joins_in_turn(cluster, joins.drop_last());
        join_through(before, joins.last().0, joins.last().1)
    }
}

/// Every join of `joins`, taken in turn from `cluster`, has a new joiner and a
/// contact that is a member and not in the middle of an admission.
pub open spec fn joins_admissible(
    cluster: Map<NodeIdentity, RingView>,
    joins: Seq<(NodeIdentity, NodeIdentity)>,
) -> bool
    decreases joins.len(),
{
    if joins.len() == 0 {
        true
    } else {
        let before = joins_in_turn(cluster, joins.drop_last());
        &&& joins_admissible(cluster, joins.drop_last())
        &&& before.dom().contains(joins.last().1)
        &&& !before.dom().contains(joins.last().0)
        &&& before[joins.last().1].admitting is None
    }
}

/// Any number of joins, each completed before the next begins, leaves a
/// single ring that holds the nodes of before and every joiner.
pub proof fn lemma_joins_in_turn_keep_ring(
    cluster: Map<NodeIdentity, RingView>,
    joins: Seq<(NodeIdentity, NodeIdentity)>,
)
    requires
        is_ring(cluster),
        joins_admissible(cluster, joins),
    ensures
        is_ring(joins_in_turn(cluster, joins)),
        forall|id: NodeIdentity|
            joins_in_turn(cluster, joins).dom().contains(id) <==> (cluster.dom().contains(id)
                || exists|i: int| 0 <= i < joins.len() && #[trigger] joins[i].0 == id),
    decreases joins.len(),
{
    if joins.len() > 0 {
        let earlier = joins.drop_last();
        let joiner = joins.last().0;
        let contact = joins.last().1;
        lemma_joins_in_turn_keep_ring(cluster, earlier);
        let before = joins_in_turn(cluster, earlier);
        let order = choose|order: Seq<NodeIdentity>| ring_in_order(before, order);
        lemma_join_keeps_ring(before, order, joiner, contact);
        let after = joins_in_turn(cluster, joins);
        assert(after == join_through(before, joiner, contact));
        assert(after.dom() == before.dom().insert(joiner));
        assert forall|id: NodeIdentity| after.dom().contains(id) implies (cluster.dom().contains(
            id,
        ) || exists|i: int| 0 <= i < joins.len() && #[trigger] joins[i].0 == id) by {
            if id == joiner {
                assert(joins[joins.len() - 1].0 == id);
            } else if !cluster.dom().contains(id) {
                assert(before.dom().contains(id));
                let i = choose|i: int| 0 <= i < earlier.len() && #[trigger] earlier[i].0 == id;
                assert(joins[i].0 == id);
            }
        }
        assert forall|id: NodeIdentity|
            (cluster.dom().contains(id) || exists|i: int|
                0 <= i < joins.len() && #[trigger] joins[i].0 == id) implies after.dom().contains(
            id,
        ) by {
            if !cluster.dom().contains(id) {
                let i = choose|i: int| 0 <= i < joins.len() && #[trigger] joins[i].0 == id;
                if i < joins.len() - 1 {
                    assert(earlier[i].0 == id);
                    assert(before.dom().contains(id));
                }
            }
        }
    }
}

/// Two nodes: `b` joins through `a`, which started alone. Afterwards each is
/// both neighbours of the other.
pub proof fn lemma_two_node_join(a: NodeIdentity, b: NodeIdentity)
    requires
        a != b,
    ensures
        ({
            let after = join_through(map![a => RingView::fresh(a)], b, a);
            &&& after[a].successor == b
            &&& after[a].predecessor == b
            &&& after[b].successor == a
            &&& after[b].predecessor == a
            &&& ring_in_order(after, seq![b, a])
        }),
{
    let start = map![a => RingView::fresh(a)];
    lemma_singleton_is_ring(a);
    lemma_join_keeps_ring(start, seq![a], b, a);
    lemma_position_unique(seq![a], 0);
    assert(seq![a].insert(0, b) =~= seq![b, a]);
}

/// Three nodes: `b` joins through `a`, which started alone, then `c` joins
/// through `a` as well. `c` comes to stand between `b` and `a`, because `b`
/// is `a`'s predecessor when `c` joins: the successors run `a`, `b`, `c`, and
/// back to `a`.
pub proof fn lemma_three_node_join(a: NodeIdentity, b: NodeIdentity, c: NodeIdentity)
    requires
        a != b,
        a != c,
        b != c,
    ensures
        ({
            let two = join_through(map![a => RingView::fresh(a)], b, a);
            let three = join_through(two, c, a);
            &&& three[a].predecessor == c
            &&& three[c].successor == a
            &&& three[c].predecessor == b
            &&& three[b].successor == c
            &&& three[a].successor == b
            &&& three[b].predecessor == a
            &&& ring_in_order(three, seq![b, c, a])
        }),
{
    lemma_two_node_join(a, b);
    let two = join_through(map![a => RingView::fresh(a)], b, a);
    let order = seq![b, a];
    assert(order[1] == a);
    lemma_position_unique(order, 1);
    lemma_join_keeps_ring(two, order, c, a);
    assert(order.insert(1, c) =~= seq![b, c, a]);
}

} // verus!
