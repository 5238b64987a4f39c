//! The marks of a tree as a mathematical value: what a mark on a directory
//! says of the nodes below it, and what marking a node does.

use crate::count::{
    flat_sum, lemma_flat_sum_total, lemma_total_bound, lemma_tree_sum_is_flat, total, tree_sum,
    tree_sum_children,
};
use crate::shape::{
    in_subtree, is_leaf, lemma_subtree_down, lemma_subtree_order, lemma_subtree_up, wf_arena,
    wf_child, wf_node, Entry, NodeId,
};
use vstd::prelude::*;

verus! {

/// The selection state of a node.
#[derive(Debug, Clone, Copy, PartialEq, Eq, Structural)]
pub enum Mark {
    Unselected,
    PartiallySelected,
    Selected,
}

/// Whether every child of node `i` carries the mark `x`.
pub open spec fn all_children_marked(t: Seq<Entry>, m: Seq<Mark>, i: int, x: Mark) -> bool {
    forall|j: int| 0 <= j < t[i].children.len() ==> m[#[trigger] t[i].children[j] as int] == x
}

/// The mark that the marks of its children give to node `i`: their common
/// mark where they are all selected or all unselected, partially selected
/// otherwise. A node without children keeps the mark it has.
pub open spec fn aggregate(t: Seq<Entry>, m: Seq<Mark>, i: int) -> Mark {
    if is_leaf(t, i) {
        m[i]
    } else if all_children_marked(t, m, i, Mark::Selected) {
        Mark::Selected
    } else if all_children_marked(t, m, i, Mark::Unselected) {
        Mark::Unselected
    } else {
        Mark::PartiallySelected
    }
}

/// Every node carries the mark that the marks of its children give it.
pub open spec fn marks_consistent(t: Seq<Entry>, m: Seq<Mark>) -> bool {
    &&& m.len() == t.len()
    &&& forall|i: int| 0 <= i < t.len() ==> #[trigger] m[i] == aggregate(t, m, i)
}

/// Whether node `i` lies below one of the first `j` children of node `a`.
pub open spec fn under_children(t: Seq<Entry>, i: int, a: int, j: int) -> bool
    decreases j,
{
    if j <= 0 {
        false
    } else {
        under_children(t, i, a, j - 1) || in_subtree(t, i, t[a].children[j - 1] as int)
    }
}

/// The marks after the node `id` and all that lies below it were given the
/// mark `x`.
pub open spec fn marked_down(t: Seq<Entry>, m: Seq<Mark>, id: int, x: Mark) -> Seq<Mark> {
    Seq::new(
        m.len(),
        |i: int|
            if in_subtree(t, i, id) {
                x
            } else {
                m[i]
            },
    )
}

/// Whether node `a` lies properly above node `id`.
pub open spec fn is_above(t: Seq<Entry>, a: int, id: int) -> bool {
    a != id && in_subtree(t, id, a)
}

/// Whether `after` are the marks that marking node `id` with `x` leaves
/// where the marks were `before`: `x` on the node and on all that lies below
/// it, on each node above it the mark that the marks of its children give
/// it, and the mark it had on every other node.
pub open spec fn marked(
    t: Seq<Entry>,
    before: Seq<Mark>,
    after: Seq<Mark>,
    id: int,
    x: Mark,
) -> bool {
    &&& after.len() == before.len()
    &&& forall|i: int|
        0 <= i < before.len() ==> #[trigger] after[i] == if in_subtree(t, i, id) {
            x
        } else if is_above(t, i, id) {
            aggregate(t, after, i)
        } else {
            before[i]
        }
}

/// The number of selected leaves that a walk down from node `n` counts if
/// it does not enter what lies below an unselected node.
pub open spec fn visible_selected(t: Seq<Entry>, m: Seq<Mark>, n: int) -> nat
    decreases t.len() - n, t[n].children.len() + 1,
{
    if !(0 <= n < t.len()) || m[n] == Mark::Unselected {
        0
    } else if is_leaf(t, n) {
        if m[n] == Mark::Selected {
            1
        } else {
            0
        }
    } else {
        visible_selected_children(t, m, n, t[n].children.len() as int)
    }
}

/// The sum of `visible_selected` over the first `j` children of node `n`.
pub open spec fn visible_selected_children(t: Seq<Entry>, m: Seq<Mark>, n: int, j: int) -> nat
    decreases t.len() - n, j,
{
    if !(0 <= n < t.len()) || j <= 0 || j > t[n].children.len() {
        0
    } else {
        let c = t[n].children[j - 1] as int;
        visible_selected_children(t, m, n, j - 1) + if n < c < t.len() {
            visible_selected(t, m, c)
        } else {
            0
        }
    }
}

/// The number of nodes among the first `k` that are leaves and selected.
pub open spec fn selected_leaves(t: Seq<Entry>, m: Seq<Mark>, k: int) -> nat
    decreases k,
{
    if k <= 0 {
        0
    } else {
        selected_leaves(t, m, k - 1) + if is_leaf(t, k - 1) && m[k - 1] == Mark::Selected {
            1nat
        } else {
            0nat
        }
    }
}

/// A node lies below one of the first `j` children of `a` if and only if it
/// lies below a child with an index under `j`.
pub proof fn lemma_under_children(t: Seq<Entry>, i: int, a: int, j: int)
    requires
        0 <= j,
    ensures
        under_children(t, i, a, j) <==> exists|x: int|
            0 <= x < j && #[trigger] in_subtree(t, i, t[a].children[x] as int),
    decreases j,
{
    if j > 0 {
        lemma_under_children(t, i, a, j - 1);
        if under_children(t, i, a, j - 1) {
            let x = choose|x: int| 0 <= x < j - 1 && #[trigger] in_subtree(t, i, t[a].children[x] as int);
            assert(0 <= x < j && in_subtree(t, i, t[a].children[x] as int));
        }
        if in_subtree(t, i, t[a].children[j - 1] as int) {
            assert(0 <= j - 1 < j && in_subtree(t, i, t[a].children[j - 1] as int));
        }
    }
}

/// What lies below a node is the node and what lies below its children.
pub proof fn lemma_subtree_split(t: Seq<Entry>, i: int, a: int)
    requires
        wf_arena(t),
        0 <= i < t.len(),
        0 <= a < t.len(),
    ensures
        in_subtree(t, i, a) <==> i == a || under_children(t, i, a, t[a].children.len() as int),
{
    let n = t[a].children.len() as int;
    lemma_under_children(t, i, a, n);
    if in_subtree(t, i, a) && i != a {
        let j = lemma_subtree_down(t, i, a);
        assert(0 <= j < n && in_subtree(t, i, t[a].children[j] as int));
    }
    if under_children(t, i, a, n) {
        let x = choose|x: int| 0 <= x < n && #[trigger] in_subtree(t, i, t[a].children[x] as int);
        assert(wf_child(t, a, x));
        lemma_subtree_up(t, i, t[a].children[x] as int);
    }
}

/// The mark that its children give a node depends on their marks alone, and
/// for a node without children on its own.
pub proof fn lemma_aggregate_frame(t: Seq<Entry>, m1: Seq<Mark>, m2: Seq<Mark>, i: int)
    requires
        forall|j: int| 0 <= j < t[i].children.len() ==> m1[#[trigger] t[i].children[j] as int] == m2[t[i].children[j] as int],
        is_leaf(t, i) ==> m1[i] == m2[i],
    ensures
        aggregate(t, m1, i) == aggregate(t, m2, i),
{
    assert(all_children_marked(t, m1, i, Mark::Selected) == all_children_marked(
        t,
        m2,
        i,
        Mark::Selected,
    ));
    assert(all_children_marked(t, m1, i, Mark::Unselected) == all_children_marked(
        t,
        m2,
        i,
        Mark::Unselected,
    ));
}

/// The weight one on every selected leaf, zero on every other node.
pub open spec fn selected_weights(t: Seq<Entry>, m: Seq<Mark>) -> Seq<nat> {
    Seq::new(
        t.len(),
        |i: int|
            if is_leaf(t, i) && m[i] == Mark::Selected {
                1nat
            } else {
                0nat
            },
    )
}

/// The sum of `visible_selected` over the nodes of `stack`.
pub open spec fn visible_sum(t: Seq<Entry>, m: Seq<Mark>, stack: Seq<NodeId>) -> nat
    decreases stack.len(),
{
    if stack.len() == 0 {
        0
    } else {
        visible_sum(t, m, stack.drop_last()) + visible_selected(t, m, stack.last() as int)
    }
}

/// The weight one on every node.
pub open spec fn unit_weights(t: Seq<Entry>) -> Seq<nat> {
    Seq::new(t.len(), |i: int| 1nat)
}

/// The number of nodes that a walk from the nodes of `stack` can still visit.
pub open spec fn pending(t: Seq<Entry>, stack: Seq<NodeId>) -> nat
    decreases stack.len(),
{
    if stack.len() == 0 {
        0
    } else {
        pending(t, stack.drop_last()) + tree_sum(t, unit_weights(t), stack.last() as int)
    }
}

/// Under an unselected node of consistent marks every node is unselected, and
/// under a selected node every node is selected.
pub proof fn lemma_mark_covers_subtree(t: Seq<Entry>, m: Seq<Mark>, d: int, n: int)
    requires
        wf_arena(t),
        marks_consistent(t, m),
        0 <= d < t.len(),
        in_subtree(t, d, n),
        m[n] != Mark::PartiallySelected,
    ensures
        m[d] == m[n],
    decreases d,
{
    if d != n {
        lemma_subtree_order(t, d, n);
        assert(wf_node(t, d));
        let p = t[d].parent->0 as int;
        lemma_mark_covers_subtree(t, m, p, n);
        let x = choose|x: int| 0 <= x < t[p].children.len() && t[p].children[x] == d as NodeId;
        assert(m[p] == aggregate(t, m, p));
        assert(m[t[p].children[x] as int] == m[d]);
    }
}

/// The walk that passes over what lies below unselected nodes counts no more
/// than the selected leaves below the node it starts from.
pub proof fn lemma_visible_bound(t: Seq<Entry>, m: Seq<Mark>, n: int)
    requires
        wf_arena(t),
        0 <= n < t.len(),
    ensures
        visible_selected(t, m, n) <= tree_sum(t, selected_weights(t, m), n),
    decreases t.len() - n, t[n].children.len() + 1,
{
    lemma_visible_children_bound(t, m, n, t[n].children.len() as int);
}

/// The same of the sum over the first `j` children of a node.
pub proof fn lemma_visible_children_bound(t: Seq<Entry>, m: Seq<Mark>, n: int, j: int)
    requires
        wf_arena(t),
        0 <= n < t.len(),
        0 <= j <= t[n].children.len(),
    ensures
        visible_selected_children(t, m, n, j) <= tree_sum_children(
            t,
            selected_weights(t, m),
            n,
            j,
        ),
    decreases t.len() - n, j,
{
    if j > 0 {
        lemma_visible_children_bound(t, m, n, j - 1);
        assert(wf_child(t, n, j - 1));
        lemma_visible_bound(t, m, t[n].children[j - 1] as int);
    }
}

/// Over nodes of weight zero the sum is zero.
pub proof fn lemma_flat_sum_zero(t: Seq<Entry>, w: Seq<nat>, n: int, k: int)
    requires
        0 <= k <= t.len(),
        forall|i: int| 0 <= i < k && in_subtree(t, i, n) ==> #[trigger] w[i] == 0,
    ensures
        flat_sum(t, w, n, k) == 0,
    decreases k,
{
    if k > 0 {
        lemma_flat_sum_zero(t, w, n, k - 1);
    }
}

/// Where the marks are consistent, the walk that passes over what lies below
/// unselected nodes counts the selected leaves below the node it starts from.
pub proof fn lemma_visible_is_tree_sum(t: Seq<Entry>, m: Seq<Mark>, n: int)
    requires
        wf_arena(t),
        marks_consistent(t, m),
        0 <= n < t.len(),
    ensures
        visible_selected(t, m, n) == tree_sum(t, selected_weights(t, m), n),
    decreases t.len() - n, t[n].children.len() + 1,
{
    let w = selected_weights(t, m);
    if m[n] == Mark::Unselected {
        assert forall|i: int| 0 <= i < t.len() && in_subtree(t, i, n) implies #[trigger] w[i]
            == 0 by {
            lemma_mark_covers_subtree(t, m, i, n);
        }
        lemma_flat_sum_zero(t, w, n, t.len() as int);
        lemma_tree_sum_is_flat(t, w, n);
    } else {
        lemma_visible_children_is_tree_sum(t, m, n, t[n].children.len() as int);
        if is_leaf(t, n) {
            assert(tree_sum_children(t, w, n, 0) == 0);
        }
    }
}

/// The same of the sum over the first `j` children of a node.
pub proof fn lemma_visible_children_is_tree_sum(t: Seq<Entry>, m: Seq<Mark>, n: int, j: int)
    requires
        wf_arena(t),
        marks_consistent(t, m),
        0 <= n < t.len(),
        0 <= j <= t[n].children.len(),
    ensures
        visible_selected_children(t, m, n, j) == tree_sum_children(
            t,
            selected_weights(t, m),
            n,
            j,
        ),
    decreases t.len() - n, j,
{
    if j > 0 {
        lemma_visible_children_is_tree_sum(t, m, n, j - 1);
        assert(wf_child(t, n, j - 1));
        lemma_visible_is_tree_sum(t, m, t[n].children[j - 1] as int);
    }
}

/// The number of selected leaves is the sum of their weights.
pub proof fn lemma_selected_leaves_total(t: Seq<Entry>, m: Seq<Mark>, k: int)
    requires
        0 <= k <= t.len(),
    ensures
        selected_leaves(t, m, k) == total(selected_weights(t, m), k),
        selected_leaves(t, m, k) <= k,
    decreases k,
{
    if k > 0 {
        lemma_selected_leaves_total(t, m, k - 1);
    }
}

/// The walk that passes over what lies below unselected nodes counts no more
/// leaves than the tree has nodes.
pub proof fn lemma_visible_fits(t: Seq<Entry>, m: Seq<Mark>, n: int)
    requires
        wf_arena(t),
        0 <= n < t.len(),
    ensures
        visible_selected(t, m, n) <= t.len(),
{
    let w = selected_weights(t, m);
    lemma_visible_bound(t, m, n);
    lemma_tree_sum_is_flat(t, w, n);
    lemma_flat_sum_total(t, w, n, t.len() as int);
    lemma_total_bound(w, t.len() as int);
}

/// Where the marks are consistent, the walk from the root that passes over
/// what lies below unselected nodes counts every selected leaf of the tree.
pub proof fn lemma_visible_counts_selected_leaves(t: Seq<Entry>, m: Seq<Mark>)
    requires
        wf_arena(t),
        marks_consistent(t, m),
    ensures
        visible_selected(t, m, 0) == selected_leaves(t, m, t.len() as int),
{
    let w = selected_weights(t, m);
    lemma_visible_is_tree_sum(t, m, 0);
    lemma_tree_sum_is_flat(t, w, 0);
    lemma_flat_sum_total(t, w, 0, t.len() as int);
    lemma_selected_leaves_total(t, m, t.len() as int);
}

/// Marking a node leaves consistent marks consistent.
pub proof fn lemma_marked_consistent(
    t: Seq<Entry>,
    before: Seq<Mark>,
    after: Seq<Mark>,
    id: int,
    x: Mark,
)
    requires
        wf_arena(t),
        0 <= id < t.len(),
        marks_consistent(t, before),
        marked(t, before, after, id, x),
    ensures
        marks_consistent(t, after),
{
    assert forall|i: int| 0 <= i < t.len() implies #[trigger] after[i] == aggregate(
        t,
        after,
        i,
    ) by {
        if in_subtree(t, i, id) {
            assert forall|j: int| 0 <= j < t[i].children.len() implies after[#[trigger] t[i].children[j] as int]
                == x by {
                assert(wf_child(t, i, j));
                let c = t[i].children[j] as int;
                assert(in_subtree(t, c, id));
            }
            if !is_leaf(t, i) {
                assert(wf_child(t, i, 0));
                assert(after[t[i].children[0] as int] == x);
            }
        } else if is_above(t, i, id) {
        } else {
            assert forall|j: int| 0 <= j < t[i].children.len() implies after[#[trigger] t[i].children[j] as int]
                == before[t[i].children[j] as int] by {
                assert(wf_child(t, i, j));
                let c = t[i].children[j] as int;
                if in_subtree(t, c, id) {
                    // then `c` is `id`, or `i` lies below `id`
                    assert(c == id);
                    assert(in_subtree(t, i, i));
                    assert(in_subtree(t, id, i));
                }
                if is_above(t, c, id) {
                    lemma_subtree_up(t, id, c);
                    lemma_subtree_order(t, id, c);
                }
            }
            lemma_aggregate_frame(t, before, after, i);
        }
    }
}

} // verus!
