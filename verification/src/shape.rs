//! The shape of a path tree as a mathematical value: an arena of entries
//! that refer to each other by index, and what it means for such an arena to
//! be a tree of paths.

use crate::path::{components, is_file_name, is_name, root_component, valid_components};
use vstd::prelude::*;

verus! {

/// Index of a node in the arena of its tree. The root has index 0.
pub type NodeId = usize;

/// A node without its mark: its name, its place in the tree and, for a file,
/// the path it was inserted under.
pub struct Entry {
    pub key: Option<Seq<char>>,
    pub fullpath: Option<Seq<char>>,
    pub parent: Option<NodeId>,
    pub children: Seq<NodeId>,
}

/// The entry that a fresh root has.
pub open spec fn root_entry() -> Entry {
    Entry { key: None, fullpath: None, parent: None, children: Seq::empty() }
}

/// The name of node `i`.
pub open spec fn key_of(t: Seq<Entry>, i: int) -> Seq<char> {
    t[i].key->0
}

/// Whether node `i` has no children.
pub open spec fn is_leaf(t: Seq<Entry>, i: int) -> bool {
    t[i].children.len() == 0
}

/// Whether node `i` is a file: a node that was inserted as the end of a path.
pub open spec fn is_file(t: Seq<Entry>, i: int) -> bool {
    t[i].fullpath is Some
}

/// Whether `c` is a child of `p` that goes by the name `key`.
pub open spec fn is_child_with_key(t: Seq<Entry>, p: int, c: NodeId, key: Seq<char>) -> bool {
    &&& 0 <= p < t.len()
    &&& c < t.len()
    &&& t[p].children.contains(c)
    &&& t[c as int].key == Some(key)
}

/// The child of `p` that goes by the name `key`, if there is one.
pub open spec fn child_with_key(t: Seq<Entry>, p: int, key: Seq<char>) -> Option<NodeId> {
    if exists|c: NodeId| is_child_with_key(t, p, c, key) {
        Some(choose|c: NodeId| is_child_with_key(t, p, c, key))
    } else {
        None
    }
}

/// The node that the component sequence `cs` leads to from the root, if every
/// component finds a child to descend into.
pub open spec fn resolve(t: Seq<Entry>, cs: Seq<Seq<char>>) -> Option<NodeId>
    decreases cs.len(),
{
    if cs.len() == 0 {
        Some(0)
    } else {
        match resolve(t, cs.drop_last()) {
            Some(p) => child_with_key(t, p as int, cs.last()),
            None => None,
        }
    }
}

/// The number of leading components of `cs` that lead to a node of `t`.
pub open spec fn matched_len(t: Seq<Entry>, cs: Seq<Seq<char>>) -> nat
    decreases cs.len(),
{
    if cs.len() == 0 {
        0
    } else if resolve(t, cs) is Some {
        cs.len()
    } else {
        matched_len(t, cs.drop_last())
    }
}

/// The names on the way from the root down to node `i`.
pub open spec fn path_of(t: Seq<Entry>, i: int) -> Seq<Seq<char>>
    decreases i,
{
    if 0 < i < t.len() && t[i].parent is Some && t[i].parent->0 < i {
        path_of(t, t[i].parent->0 as int).push(key_of(t, i))
    } else {
        Seq::empty()
    }
}

/// Whether node `d` is node `a` or lies below it.
pub open spec fn in_subtree(t: Seq<Entry>, d: int, a: int) -> bool
    decreases d,
{
    if d == a {
        true
    } else if 0 < d < t.len() && t[d].parent is Some && t[d].parent->0 < d {
        in_subtree(t, t[d].parent->0 as int, a)
    } else {
        false
    }
}

/// The files among the first `k` nodes, in the order of their creation.
pub open spec fn file_ids(t: Seq<Entry>, k: int) -> Seq<NodeId>
    decreases k,
{
    if k <= 0 {
        Seq::empty()
    } else if is_file(t, k - 1) {
        file_ids(t, k - 1).push((k - 1) as NodeId)
    } else {
        file_ids(t, k - 1)
    }
}

/// The file that the component sequence `cs` leads to, if it leads to one.
pub open spec fn find_file(t: Seq<Entry>, cs: Seq<Seq<char>>) -> Option<NodeId> {
    match resolve(t, cs) {
        Some(i) => if is_file(t, i as int) {
            Some(i)
        } else {
            None
        },
        None => None,
    }
}

/// The paths under which the files `ids` were inserted.
pub open spec fn paths_of_ids(t: Seq<Entry>, ids: Seq<NodeId>) -> Seq<Seq<char>> {
    ids.map_values(|i: NodeId| t[i as int].fullpath->0)
}

/// What holds of the root: it has no name, no parent and is no file. The
/// arena holds no more nodes than an index can tell apart.
pub open spec fn wf_root(t: Seq<Entry>) -> bool {
    &&& 1 <= t.len() <= usize::MAX
    &&& t[0].key is None
    &&& t[0].parent is None
    &&& t[0].fullpath is None
}

/// What holds of a node other than the root: it has a name, and a parent that
/// was created before it and lists it among its children. The root component
/// of a rooted path names children of the root only.
pub open spec fn wf_node(t: Seq<Entry>, i: int) -> bool {
    &&& t[i].key is Some
    &&& t[i].parent is Some
    &&& t[i].parent->0 < i
    &&& t[t[i].parent->0 as int].children.contains(i as NodeId)
    &&& (is_name(key_of(t, i)) || (key_of(t, i) == root_component() && t[i].parent->0 == 0))
}

/// What holds of the `j`-th child of node `i`: it was created after `i` and
/// names `i` as its parent.
pub open spec fn wf_child(t: Seq<Entry>, i: int, j: int) -> bool {
    &&& i < t[i].children[j] < t.len()
    &&& t[t[i].children[j] as int].parent == Some(i as NodeId)
}

/// What holds of a file: its path is the path that leads to it, and ends in a
/// file name.
pub open spec fn wf_file(t: Seq<Entry>, i: int) -> bool {
    &&& i >= 1
    &&& components(t[i].fullpath->0) == path_of(t, i)
    &&& is_file_name(key_of(t, i))
}

/// An arena that is a tree of paths.
pub open spec fn wf_arena(t: Seq<Entry>) -> bool {
    &&& wf_root(t)
    &&& forall|i: int| 1 <= i < t.len() ==> #[trigger] wf_node(t, i)
    &&& forall|i: int, j: int|
        0 <= i < t.len() && 0 <= j < t[i].children.len() ==> #[trigger] wf_child(t, i, j)
    &&& forall|i: int, j1: int, j2: int|
        0 <= i < t.len() && 0 <= j1 < j2 < t[i].children.len() ==> t[#[trigger] t[i].children[j1] as int].key
            != t[#[trigger] t[i].children[j2] as int].key
    &&& forall|i: int| 0 <= i < t.len() && #[trigger] is_file(t, i) ==> wf_file(t, i)
    &&& forall|i: int| 1 <= i < t.len() && !is_file(t, i) ==> !#[trigger] is_leaf(t, i)
}

/// Two children of one node that go by one name are one child.
pub proof fn lemma_child_unique(t: Seq<Entry>, p: int, c1: NodeId, c2: NodeId, key: Seq<char>)
    requires
        wf_arena(t),
        is_child_with_key(t, p, c1, key),
        is_child_with_key(t, p, c2, key),
    ensures
        c1 == c2,
{
    let j1 = choose|j: int| 0 <= j < t[p].children.len() && t[p].children[j] == c1;
    let j2 = choose|j: int| 0 <= j < t[p].children.len() && t[p].children[j] == c2;
    if j1 < j2 {
        assert(t[t[p].children[j1] as int].key != t[t[p].children[j2] as int].key);
    } else if j2 < j1 {
        assert(t[t[p].children[j2] as int].key != t[t[p].children[j1] as int].key);
    }
}

/// A node is the child of its parent that goes by its name.
pub proof fn lemma_child_lookup(t: Seq<Entry>, c: int)
    requires
        wf_arena(t),
        1 <= c < t.len(),
    ensures
        child_with_key(t, t[c].parent->0 as int, key_of(t, c)) == Some(c as NodeId),
{
    let p = t[c].parent->0 as int;
    assert(wf_node(t, c));
    assert(is_child_with_key(t, p, c as NodeId, key_of(t, c)));
    let found = choose|x: NodeId| is_child_with_key(t, p, x, key_of(t, c));
    lemma_child_unique(t, p, found, c as NodeId, key_of(t, c));
}

/// What a lookup by name finds is a child, created after its parent.
pub proof fn lemma_child_found(t: Seq<Entry>, p: int, key: Seq<char>)
    requires
        wf_arena(t),
        child_with_key(t, p, key) is Some,
    ensures
        is_child_with_key(t, p, child_with_key(t, p, key)->0, key),
        p < child_with_key(t, p, key)->0 < t.len(),
        t[child_with_key(t, p, key)->0 as int].parent == Some(p as NodeId),
{
    let c = child_with_key(t, p, key)->0;
    let j = choose|j: int| 0 <= j < t[p].children.len() && t[p].children[j] == c;
    assert(wf_child(t, p, j));
}

/// The path of a node leads to that node.
pub proof fn lemma_resolve_path_of(t: Seq<Entry>, i: int)
    requires
        wf_arena(t),
        0 <= i < t.len(),
    ensures
        resolve(t, path_of(t, i)) == Some(i as NodeId),
    decreases i,
{
    if i > 0 {
        assert(wf_node(t, i));
        let p = t[i].parent->0 as int;
        lemma_resolve_path_of(t, p);
        lemma_child_lookup(t, i);
        let cs = path_of(t, i);
        assert(cs.drop_last() =~= path_of(t, p));
        assert(cs.last() == key_of(t, i));
    }
}

/// A component sequence that leads to a node is the path of that node.
pub proof fn lemma_path_of_resolve(t: Seq<Entry>, cs: Seq<Seq<char>>)
    requires
        wf_arena(t),
        resolve(t, cs) is Some,
    ensures
        resolve(t, cs)->0 < t.len(),
        path_of(t, resolve(t, cs)->0 as int) == cs,
        cs.len() > 0 ==> resolve(t, cs)->0 > 0,
    decreases cs.len(),
{
    if cs.len() > 0 {
        lemma_path_of_resolve(t, cs.drop_last());
        let p = resolve(t, cs.drop_last())->0 as int;
        lemma_child_found(t, p, cs.last());
        let i = resolve(t, cs)->0 as int;
        assert(path_of(t, i) =~= path_of(t, p).push(key_of(t, i)));
        assert(cs =~= cs.drop_last().push(cs.last()));
    }
}

/// The path of a node is a valid component sequence, and it is empty for
/// the root only.
pub proof fn lemma_path_valid(t: Seq<Entry>, i: int)
    requires
        wf_arena(t),
        0 <= i < t.len(),
    ensures
        valid_components(path_of(t, i)),
        path_of(t, i).len() == 0 <==> i == 0,
        i > 0 ==> path_of(t, i).last() == key_of(t, i),
    decreases i,
{
    if i > 0 {
        assert(wf_node(t, i));
        let p = t[i].parent->0 as int;
        lemma_path_valid(t, p);
        let cs = path_of(t, i);
        assert forall|k: int| 0 <= k < cs.len() implies is_name(#[trigger] cs[k]) || (k == 0
            && cs[k] == root_component()) by {
            if k < cs.len() - 1 {
                assert(cs[k] == path_of(t, p)[k]);
            }
        }
    }
}

/// A node lies at or behind every node that it lies below.
pub proof fn lemma_subtree_order(t: Seq<Entry>, d: int, a: int)
    requires
        in_subtree(t, d, a),
    ensures
        a <= d,
    decreases d,
{
    if d != a {
        lemma_subtree_order(t, t[d].parent->0 as int, a);
    }
}

/// What lies below a node lies below the parent of that node.
pub proof fn lemma_subtree_up(t: Seq<Entry>, d: int, c: int)
    requires
        in_subtree(t, d, c),
        0 < c < t.len(),
        t[c].parent is Some,
        t[c].parent->0 < c,
    ensures
        in_subtree(t, d, t[c].parent->0 as int),
    decreases d,
{
    if d != c {
        lemma_subtree_up(t, t[d].parent->0 as int, c);
        lemma_subtree_order(t, t[d].parent->0 as int, c);
    } else {
        assert(in_subtree(t, t[c].parent->0 as int, t[c].parent->0 as int));
    }
}

/// What lies properly below a node lies below one of its children.
pub proof fn lemma_subtree_down(t: Seq<Entry>, d: int, a: int) -> (j: int)
    requires
        wf_arena(t),
        0 <= d < t.len(),
        in_subtree(t, d, a),
        d != a,
    ensures
        0 <= j < t[a].children.len(),
        in_subtree(t, d, t[a].children[j] as int),
        0 <= a < d,
    decreases d,
{
    lemma_subtree_order(t, d, a);
    assert(wf_node(t, d));
    let p = t[d].parent->0 as int;
    if p == a {
        let j = choose|j: int| 0 <= j < t[a].children.len() && t[a].children[j] == d as NodeId;
        j
    } else {
        lemma_subtree_order(t, p, a);
        lemma_subtree_down(t, p, a)
    }
}

/// Every node lies below the root.
pub proof fn lemma_subtree_of_root(t: Seq<Entry>, d: int)
    requires
        wf_arena(t),
        0 <= d < t.len(),
    ensures
        in_subtree(t, d, 0),
    decreases d,
{
    if d > 0 {
        assert(wf_node(t, d));
        lemma_subtree_of_root(t, t[d].parent->0 as int);
    }
}

/// The nodes that a node lies below form a chain.
pub proof fn lemma_subtree_chain(t: Seq<Entry>, d: int, x: int, y: int)
    requires
        in_subtree(t, d, x),
        in_subtree(t, d, y),
        x <= y,
    ensures
        in_subtree(t, y, x),
    decreases d,
{
    if d == y {
    } else if d == x {
        lemma_subtree_order(t, d, y);
    } else {
        lemma_subtree_chain(t, t[d].parent->0 as int, x, y);
    }
}

/// No node lies below two children of one node.
pub proof fn lemma_subtree_one_child(t: Seq<Entry>, d: int, a: int, j1: int, j2: int)
    requires
        wf_arena(t),
        0 <= a < t.len(),
        0 <= j1 < t[a].children.len(),
        0 <= j2 < t[a].children.len(),
        in_subtree(t, d, t[a].children[j1] as int),
        in_subtree(t, d, t[a].children[j2] as int),
    ensures
        j1 == j2,
{
    let c1 = t[a].children[j1] as int;
    let c2 = t[a].children[j2] as int;
    assert(wf_child(t, a, j1));
    assert(wf_child(t, a, j2));
    if c1 < c2 {
        lemma_subtree_chain(t, d, c1, c2);
        lemma_subtree_order(t, a, c1);
    } else if c2 < c1 {
        lemma_subtree_chain(t, d, c2, c1);
        lemma_subtree_order(t, a, c2);
    } else if j1 != j2 {
        if j1 < j2 {
            assert(t[t[a].children[j1] as int].key != t[t[a].children[j2] as int].key);
        } else {
            assert(t[t[a].children[j2] as int].key != t[t[a].children[j1] as int].key);
        }
    }
}

/// Where a component sequence leads to a node, so does each of its prefixes.
pub proof fn lemma_resolve_prefix(t: Seq<Entry>, cs: Seq<Seq<char>>, k: int)
    requires
        resolve(t, cs) is Some,
        0 <= k <= cs.len(),
    ensures
        resolve(t, cs.take(k)) is Some,
    decreases cs.len(),
{
    if k == cs.len() {
        assert(cs.take(k) =~= cs);
    } else {
        lemma_resolve_prefix(t, cs.drop_last(), k);
        assert(cs.drop_last().take(k) =~= cs.take(k));
    }
}

/// The files among the first `k` nodes are listed once each, in rising order.
pub proof fn lemma_file_ids(t: Seq<Entry>, k: int)
    requires
        0 <= k <= t.len() <= usize::MAX,
    ensures
        file_ids(t, k).len() <= k,
        forall|j: int| 0 <= j < file_ids(t, k).len() ==> (#[trigger] file_ids(t, k)[j]) < k && is_file(t, file_ids(t, k)[j] as int),
        forall|j1: int, j2: int| 0 <= j1 < j2 < file_ids(t, k).len() ==> file_ids(t, k)[j1] < file_ids(t, k)[j2],
        forall|i: int| 0 <= i < k && is_file(t, i) ==> file_ids(t, k).contains(i as NodeId),
    decreases k,
{
    if k > 0 {
        lemma_file_ids(t, k - 1);
        let before = file_ids(t, k - 1);
        let now = file_ids(t, k);
        if is_file(t, k - 1) {
            assert(now.last() == (k - 1) as NodeId);
            assert forall|i: int| 0 <= i < k && is_file(t, i) implies now.contains(i as NodeId) by {
                if i < k - 1 {
                    let j = choose|j: int| 0 <= j < before.len() && before[j] == i as NodeId;
                    assert(now[j] == i as NodeId);
                } else {
                    assert(now[now.len() - 1] == i as NodeId);
                }
            }
        }
    }
}

} // verus!
