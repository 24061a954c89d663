//! Walking a ring: a sequence of nodes read as a cycle.
//!
//! A ring is written down as the sequence of its nodes in the direction of
//! the successor links, starting anywhere. The node after the last one is the
//! first one again.

use vstd::prelude::*;
use crate::identity::NodeIdentity;

verus! {

/// The position after `i` in a cycle of `n` positions.
pub open spec fn next_index(i: int, n: int) -> int {
    if i + 1 == n {
        0
    } else {
        i + 1
    }
}

/// The position before `i` in a cycle of `n` positions.
pub open spec fn prev_index(i: int, n: int) -> int {
    if i == 0 {
        n - 1
    } else {
        i - 1
    }
}

/// The node that follows `node` in `order`.
pub open spec fn succ_in(order: Seq<NodeIdentity>, node: NodeIdentity) -> NodeIdentity
    recommends
        order.contains(node),
{
    order[next_index(order.index_of(node), order.len() as int)]
}

/// The node that precedes `node` in `order`.
pub open spec fn pred_in(order: Seq<NodeIdentity>, node: NodeIdentity) -> NodeIdentity
    recommends
        order.contains(node),
{
    order[prev_index(order.index_of(node), order.len() as int)]
}

/// In a sequence without repetition a node stands at one position only.
pub proof fn lemma_position_unique(order: Seq<NodeIdentity>, i: int)
    requires
        order.no_duplicates(),
        0 <= i < order.len(),
    ensures
        order.index_of(order[i]) == i,
        order.contains(order[i]),
{
    let j = order.index_of(order[i]);
    assert(0 <= j < order.len() && order[j] == order[i]);
}

/// A node of the sequence stands at the position that `index_of` names.
pub proof fn lemma_position_of_member(order: Seq<NodeIdentity>, node: NodeIdentity)
    requires
        order.contains(node),
    ensures
        0 <= order.index_of(node) < order.len(),
        order[order.index_of(node)] == node,
{
}

/// Following and preceding undo each other, and both stay inside the
/// sequence.
pub proof fn lemma_neighbours_in_order(order: Seq<NodeIdentity>, node: NodeIdentity)
    requires
        order.no_duplicates(),
        order.contains(node),
    ensures
        order.contains(succ_in(order, node)),
        order.contains(pred_in(order, node)),
        pred_in(order, succ_in(order, node)) == node,
        succ_in(order, pred_in(order, node)) == node,
{
    let n = order.len() as int;
    let i = order.index_of(node);
    lemma_position_unique(order, next_index(i, n));
    lemma_position_unique(order, prev_index(i, n));
}

/// What `order.insert(k, joiner)` holds at each position.
pub proof fn lemma_insert_positions(order: Seq<NodeIdentity>, k: int, joiner: NodeIdentity)
    requires
        0 <= k <= order.len(),
    ensures
        order.insert(k, joiner).len() == order.len() + 1,
        order.insert(k, joiner)[k] == joiner,
        forall|j: int| 0 <= j < k ==> #[trigger] order.insert(k, joiner)[j] == order[j],
        forall|j: int|
            k < j <= order.len() ==> #[trigger] order.insert(k, joiner)[j] == order[j - 1],
{
}

/// Putting a new node into a ring just before the node at position `k` gives
/// a ring again, one longer, in which the new node stands between that node
/// and its former predecessor, and every other neighbourhood is as before.
pub proof fn lemma_insert_before(order: Seq<NodeIdentity>, k: int, joiner: NodeIdentity)
    requires
        order.no_duplicates(),
        0 <= k < order.len(),
        !order.contains(joiner),
    ensures
        ({
            let longer = order.insert(k, joiner);
            let contact = order[k];
            let old_pred = pred_in(order, contact);
            &&& longer.len() == order.len() + 1
            &&& longer.no_duplicates()
            &&& forall|x: NodeIdentity|
                #[trigger] longer.contains(x) <==> (order.contains(x) || x == joiner)
            &&& succ_in(longer, joiner) == contact
            &&& pred_in(longer, joiner) == old_pred
            &&& pred_in(longer, contact) == joiner
            &&& succ_in(longer, old_pred) == joiner
            &&& forall|x: NodeIdentity|
                order.contains(x) && x != old_pred ==> #[trigger] succ_in(longer, x) == succ_in(
                    order,
                    x,
                )
            &&& forall|x: NodeIdentity|
                order.contains(x) && x != contact ==> #[trigger] pred_in(longer, x) == pred_in(
                    order,
                    x,
                )
        }),
{
    let longer = order.insert(k, joiner);
    let n = order.len() as int;
    let contact = order[k];
    let old_pred = pred_in(order, contact);
    lemma_insert_positions(order, k, joiner);
    lemma_position_unique(order, k);
    // Where each node of the old ring stands in the new one.
    let shifted = |j: int| if j < k { j } else { j + 1 };
    assert forall|j: int| 0 <= j < n implies #[trigger] longer[shifted(j)] == order[j] by {}
    assert forall|i: int, j: int| 0 <= i < n + 1 && 0 <= j < n + 1 && i != j implies longer[i]
        != longer[j] by {
        let a = if i < k { i } else { i - 1 };
        let b = if j < k { j } else { j - 1 };
        if i == k {
            assert(longer[j] == order[b]);
            assert(order.contains(order[b]));
        } else if j == k {
            assert(longer[i] == order[a]);
            assert(order.contains(order[a]));
        } else {
            assert(longer[i] == order[a] && longer[j] == order[b]);
            assert(a != b);
        }
    }
    assert(longer.no_duplicates());
    assert forall|x: NodeIdentity| #[trigger]
        longer.contains(x) <==> (order.contains(x) || x == joiner) by {
        if longer.contains(x) {
            let i = longer.index_of(x);
            if i != k {
                let a = if i < k { i } else { i - 1 };
                assert(order[a] == x);
            }
        }
        if order.contains(x) {
            let j = order.index_of(x);
            assert(longer[shifted(j)] == x);
        }
        if x == joiner {
            assert(longer[k] == x);
        }
    }
    lemma_position_unique(longer, k);
    lemma_position_unique(longer, k + 1);
    assert(longer[k + 1] == contact);
    assert(succ_in(longer, joiner) == contact);
    assert(pred_in(longer, contact) == joiner);
    let pk = prev_index(k, n);
    assert(old_pred == order[pk]);
    lemma_position_unique(longer, shifted(pk));
    assert(longer[shifted(pk)] == old_pred);
    assert(pred_in(longer, joiner) == old_pred);
    assert(succ_in(longer, old_pred) == joiner);
    assert forall|x: NodeIdentity| order.contains(x) && x != old_pred implies #[trigger] succ_in(
        longer,
        x,
    ) == succ_in(order, x) by {
        let j = order.index_of(x);
        lemma_position_unique(longer, shifted(j));
        lemma_position_unique(order, pk);
        assert(j != pk);
        let nj = next_index(j, n);
        assert(longer[shifted(nj)] == order[nj]);
        assert(next_index(shifted(j), n + 1) == shifted(nj));
    }
    assert forall|x: NodeIdentity| order.contains(x) && x != contact implies #[trigger] pred_in(
        longer,
        x,
    ) == pred_in(order, x) by {
        let j = order.index_of(x);
        lemma_position_unique(longer, shifted(j));
        assert(j != k);
        let pj = prev_index(j, n);
        assert(longer[shifted(pj)] == order[pj]);
        assert(prev_index(shifted(j), n + 1) == shifted(pj));
    }
}

} // verus!
