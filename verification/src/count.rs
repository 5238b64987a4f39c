//! Sums over a tree: a sum taken along the children of each node is the sum
//! over the nodes that lie below it.

use crate::selection::{lemma_subtree_split, lemma_under_children, under_children};
use crate::shape::{
    in_subtree, lemma_subtree_of_root, lemma_subtree_one_child, lemma_subtree_order, wf_arena,
    wf_child, Entry,
};
use vstd::prelude::*;

verus! {

/// The sum of the weights `w` over node `n` and all that lies below it, taken
/// along the children of each node.
pub open spec fn tree_sum(t: Seq<Entry>, w: Seq<nat>, n: int) -> nat
    decreases t.len() - n, t[n].children.len() + 1,
{
    if !(0 <= n < t.len()) {
        0
    } else {
        w[n] + tree_sum_children(t, w, n, t[n].children.len() as int)
    }
}

/// The sum of `tree_sum` over the first `j` children of node `n`.
pub open spec fn tree_sum_children(t: Seq<Entry>, w: Seq<nat>, n: int, j: int) -> nat
    decreases t.len() - n, j,
{
    if !(0 <= n < t.len()) || j <= 0 || j > t[n].children.len() {
        0
    } else {
        let c = t[n].children[j - 1] as int;
        tree_sum_children(t, w, n, j - 1) + if n < c < t.len() {
            tree_sum(t, w, c)
        } else {
            0
        }
    }
}

/// The sum of the weights `w` over those of the first `k` nodes that are node
/// `n` or lie below it.
pub open spec fn flat_sum(t: Seq<Entry>, w: Seq<nat>, n: int, k: int) -> nat
    decreases k,
{
    if k <= 0 {
        0
    } else {
        flat_sum(t, w, n, k - 1) + if in_subtree(t, k - 1, n) {
            w[k - 1]
        } else {
            0
        }
    }
}

/// The sum of `flat_sum` over the first `j` children of node `n`.
pub open spec fn flat_sum_children(t: Seq<Entry>, w: Seq<nat>, n: int, j: int, k: int) -> nat
    decreases j,
{
    if j <= 0 {
        0
    } else {
        flat_sum_children(t, w, n, j - 1, k) + flat_sum(t, w, t[n].children[j - 1] as int, k)
    }
}

/// The number of those among the first `j` children of node `n` that node
/// `i` lies below.
pub open spec fn under_count(t: Seq<Entry>, i: int, n: int, j: int) -> nat
    decreases j,
{
    if j <= 0 {
        0
    } else {
        under_count(t, i, n, j - 1) + if in_subtree(t, i, t[n].children[j - 1] as int) {
            1nat
        } else {
            0nat
        }
    }
}

/// The sum of the first `k` weights.
pub open spec fn total(w: Seq<nat>, k: int) -> nat
    decreases k,
{
    if k <= 0 {
        0
    } else {
        total(w, k - 1) + w[k - 1]
    }
}

/// A node lies below at most one child of a node: below one if it lies
/// properly below the node, below none otherwise.
pub proof fn lemma_under_count(t: Seq<Entry>, i: int, n: int, j: int)
    requires
        wf_arena(t),
        0 <= n < t.len(),
        0 <= j <= t[n].children.len(),
    ensures
        under_count(t, i, n, j) == if under_children(t, i, n, j) {
            1nat
        } else {
            0nat
        },
    decreases j,
{
    if j > 0 {
        lemma_under_count(t, i, n, j - 1);
        if under_children(t, i, n, j - 1) && in_subtree(t, i, t[n].children[j - 1] as int) {
            lemma_under_children(t, i, n, j - 1);
            let x = choose|x: int| 0 <= x < j - 1 && #[trigger] in_subtree(t, i, t[n].children[x] as int);
            lemma_subtree_one_child(t, i, n, x, j - 1);
        }
    }
}

/// Taking one more node into account adds its weight to the sum over the
/// children once if it lies below one of them.
pub proof fn lemma_flat_sum_children_step(t: Seq<Entry>, w: Seq<nat>, n: int, j: int, k: int)
    requires
        0 <= j,
        0 < k,
    ensures
        flat_sum_children(t, w, n, j, k) == flat_sum_children(t, w, n, j, k - 1) + under_count(
            t,
            k - 1,
            n,
            j,
        ) * w[k - 1],
    decreases j,
{
    if j > 0 {
        lemma_flat_sum_children_step(t, w, n, j - 1, k);
        let a = under_count(t, k - 1, n, j - 1);
        let b: nat = if in_subtree(t, k - 1, t[n].children[j - 1] as int) {
            1
        } else {
            0
        };
        assert((a + b) * w[k - 1] == a * w[k - 1] + b * w[k - 1]) by (nonlinear_arith);
    } else {
        assert(0 * w[k - 1] == 0) by (nonlinear_arith);
    }
}

/// The sum over what lies below a node is the weight of the node and the sums
/// over what lies below its children.
pub proof fn lemma_flat_sum_split(t: Seq<Entry>, w: Seq<nat>, n: int, k: int)
    requires
        wf_arena(t),
        0 <= n < t.len(),
        0 <= k <= t.len(),
    ensures
        flat_sum(t, w, n, k) == (if n < k {
            w[n]
        } else {
            0
        }) + flat_sum_children(t, w, n, t[n].children.len() as int, k),
    decreases k,
{
    let j = t[n].children.len() as int;
    if k > 0 {
        let i = k - 1;
        lemma_flat_sum_split(t, w, n, k - 1);
        lemma_flat_sum_children_step(t, w, n, j, k);
        lemma_under_count(t, i, n, j);
        lemma_subtree_split(t, i, n);
        if i == n && under_children(t, i, n, j) {
            lemma_under_children(t, i, n, j);
            let x = choose|x: int| 0 <= x < j && #[trigger] in_subtree(t, i, t[n].children[x] as int);
            assert(wf_child(t, n, x));
            lemma_subtree_order(t, i, t[n].children[x] as int);
        }
        assert(1 * w[i] == w[i]) by (nonlinear_arith);
        assert(0 * w[i] == 0) by (nonlinear_arith);
    } else {
        lemma_flat_sum_children_zero(t, w, n, j);
    }
}

/// Over no nodes the sum over the children is zero.
pub proof fn lemma_flat_sum_children_zero(t: Seq<Entry>, w: Seq<nat>, n: int, j: int)
    ensures
        flat_sum_children(t, w, n, j, 0) == 0,
    decreases j,
{
    if j > 0 {
        lemma_flat_sum_children_zero(t, w, n, j - 1);
    }
}

/// The sum taken along the children is the sum over the nodes below.
pub proof fn lemma_tree_sum_is_flat(t: Seq<Entry>, w: Seq<nat>, n: int)
    requires
        wf_arena(t),
        0 <= n < t.len(),
    ensures
        tree_sum(t, w, n) == flat_sum(t, w, n, t.len() as int),
    decreases t.len() - n, t[n].children.len() + 1,
{
    lemma_tree_sum_children_is_flat(t, w, n, t[n].children.len() as int);
    lemma_flat_sum_split(t, w, n, t.len() as int);
}

/// The sums taken along the children of the first `j` children are the sums
/// over the nodes below them.
pub proof fn lemma_tree_sum_children_is_flat(t: Seq<Entry>, w: Seq<nat>, n: int, j: int)
    requires
        wf_arena(t),
        0 <= n < t.len(),
        0 <= j <= t[n].children.len(),
    ensures
        tree_sum_children(t, w, n, j) == flat_sum_children(t, w, n, j, t.len() as int),
    decreases t.len() - n, j,
{
    if j > 0 {
        lemma_tree_sum_children_is_flat(t, w, n, j - 1);
        assert(wf_child(t, n, j - 1));
        lemma_tree_sum_is_flat(t, w, t[n].children[j - 1] as int);
    }
}

/// The sum over what lies below a node is at most the sum over all nodes, and
/// for the root it is that sum.
pub proof fn lemma_flat_sum_total(t: Seq<Entry>, w: Seq<nat>, n: int, k: int)
    requires
        wf_arena(t),
        0 <= k <= t.len(),
    ensures
        flat_sum(t, w, n, k) <= total(w, k),
        flat_sum(t, w, 0, k) == total(w, k),
    decreases k,
{
    if k > 0 {
        lemma_flat_sum_total(t, w, n, k - 1);
        lemma_subtree_of_root(t, k - 1);
    }
}

/// Where no weight is above one, the sum of the first `k` is at most `k`.
pub proof fn lemma_total_bound(w: Seq<nat>, k: int)
    requires
        0 <= k <= w.len(),
        forall|i: int| 0 <= i < w.len() ==> #[trigger] w[i] <= 1,
    ensures
        total(w, k) <= k,
    decreases k,
{
    if k > 0 {
        lemma_total_bound(w, k - 1);
    }
}

} // verus!
