//! The path tree: an arena of nodes, one per directory or file, with a
//! three-state mark on each.

use crate::count::{tree_sum, tree_sum_children};
use crate::insertion::{
    can_extend, extended, insert, insert_all, lemma_extended_entries, lemma_extended_files,
    lemma_extended_wf, lemma_matched_len_is,
};
use crate::laws::{
    law_insert, law_insert_all_files, law_unselected_consistent, lemma_file_paths_fresh,
    lemma_ids_with_mark_rising, lemma_unselected_and_selected, selected_leaves_are_spent_files,
};
use crate::path::{
    all_have_file_names, clean_path, cleaned_all, cleaned_path, components, has_file_name,
    is_file_name_text, join, join_components, lemma_components_of_join, lemma_components_valid,
    split_components, strings_view,
};
pub use crate::selection::Mark;
use crate::selection::{
    aggregate, is_above, lemma_aggregate_frame, lemma_marked_consistent, lemma_subtree_split,
    lemma_visible_counts_selected_leaves, lemma_visible_fits, marked, marked_down,
    marks_consistent, pending, selected_leaves, under_children, unit_weights, visible_selected,
    visible_selected_children, visible_sum,
};
pub use crate::shape::NodeId;
use crate::shape::{
    child_with_key, file_ids, find_file, in_subtree, is_child_with_key, is_file, is_leaf,
    lemma_child_found, lemma_child_unique, lemma_file_ids, lemma_path_of_resolve,
    lemma_path_valid, lemma_resolve_prefix, lemma_subtree_chain, lemma_subtree_order,
    lemma_subtree_up, path_of, paths_of_ids, resolve, root_entry, wf_arena, wf_child, wf_node,
    Entry,
};
use vstd::prelude::*;

verus! {

/// Why a tree operation did not go through.
#[derive(Debug, PartialEq, Eq)]
pub enum TreeError {
    /// A node that should have children has none.
    ChildrenIsNoneError,
    /// A walk ran out of nodes.
    StackIsEmptyError,
    /// The path has no final component that could name a file.
    CannotGetFileNameError,
    /// There is nothing to browse: the tree holds no path.
    EmptyTreeError,
    /// An index names no node.
    OutofIndexError,
    /// A leaf carries no mark.
    LeafNodeHasNoneMarkError,
}

/// One path component in the tree: a directory or a file.
#[derive(Debug)]
pub struct Node {
    /// The name of the component; `None` for the root only.
    pub key: Option<String>,
    /// The selection state; on a directory, what the marks below it add up to.
    pub mark: Mark,
    /// The normalised path of a file; `None` for a directory.
    pub fullpath: Option<String>,
    /// The node this one hangs under; `None` for the root only.
    pub parent: Option<NodeId>,
    /// The nodes that hang under this one, each under its own name.
    pub children: Vec<NodeId>,
}

/// The view of an optional string.
pub open spec fn text_of(s: Option<String>) -> Option<Seq<char>> {
    match s {
        Some(s) => Some(s@),
        None => None,
    }
}

impl Node {
    /// The node without its mark, as a mathematical value.
    pub open spec fn entry(&self) -> Entry {
        Entry {
            key: text_of(self.key),
            fullpath: text_of(self.fullpath),
            parent: self.parent,
            children: self.children@,
        }
    }

    /// The root of a tree that holds no path: unselected, without name, parent
    /// or children.
    pub fn new_root() -> (node: Node)
        ensures
            node.entry() == root_entry(),
            node.mark == Mark::Unselected,
    {
        Node { key: None, mark: Mark::Unselected, fullpath: None, parent: None, children: Vec::new() }
    }

    /// Whether the node is a leaf: a node without children.
    pub fn is_leaf_node(&self) -> (r: bool)
        ensures
            r == (self.entry().children.len() == 0),
    {
        self.children.len() == 0
    }
}

/// The nodes of an arena without their marks.
pub open spec fn entries_of(nodes: Seq<Node>) -> Seq<Entry> {
    Seq::new(nodes.len(), |i: int| nodes[i].entry())
}

/// The marks of the nodes of an arena.
pub open spec fn marks_of(nodes: Seq<Node>) -> Seq<Mark> {
    Seq::new(nodes.len(), |i: int| nodes[i].mark)
}

/// The marks of `n` nodes that were just created.
pub open spec fn unselected(n: nat) -> Seq<Mark> {
    Seq::new(n, |d: int| Mark::Unselected)
}

/// The members of `ids` that carry the mark `x`, in their order.
pub open spec fn ids_with_mark(m: Seq<Mark>, ids: Seq<NodeId>, x: Mark) -> Seq<NodeId>
    decreases ids.len(),
{
    if ids.len() == 0 {
        ids
    } else {
        let before = ids_with_mark(m, ids.drop_last(), x);
        if m[ids.last() as int] == x {
            before.push(ids.last())
        } else {
            before
        }
    }
}

/// One more id at the end joins the ids with mark `x` if it carries `x`.
pub proof fn lemma_ids_with_mark_push(m: Seq<Mark>, ids: Seq<NodeId>, id: NodeId, x: Mark)
    ensures
        ids_with_mark(m, ids.push(id), x) == if m[id as int] == x {
            ids_with_mark(m, ids, x).push(id)
        } else {
            ids_with_mark(m, ids, x)
        },
{
    assert(ids.push(id).drop_last() =~= ids);
}

/// One more id at the end adds its path at the end.
pub proof fn lemma_paths_of_ids_push(t: Seq<Entry>, ids: Seq<NodeId>, id: NodeId)
    ensures
        paths_of_ids(t, ids.push(id)) == paths_of_ids(t, ids).push(t[id as int].fullpath->0),
{
    assert(paths_of_ids(t, ids.push(id)) =~= paths_of_ids(t, ids).push(t[id as int].fullpath->0));
}

/// Whether `id` is a file of `t`.
pub open spec fn is_file_id(t: Seq<Entry>, id: NodeId) -> bool {
    id < t.len() && is_file(t, id as int)
}

/// The paths of files end in file names.
pub proof fn lemma_unselected_paths_named(t: Seq<Entry>, m: Seq<Mark>, ids: Seq<NodeId>)
    requires
        wf_arena(t),
        forall|k: int| 0 <= k < ids.len() ==> #[trigger] is_file_id(t, ids[k]),
    ensures
        all_have_file_names(paths_of_ids(t, ids_with_mark(m, ids, Mark::Unselected))),
        forall|k: int|
            0 <= k < ids_with_mark(m, ids, Mark::Unselected).len() ==> #[trigger] is_file_id(
                t,
                ids_with_mark(m, ids, Mark::Unselected)[k],
            ),
    decreases ids.len(),
{
    if ids.len() > 0 {
        let init = ids.drop_last();
        assert forall|k: int| 0 <= k < init.len() implies #[trigger] is_file_id(t, init[k]) by {
            assert(init[k] == ids[k]);
        }
        lemma_unselected_paths_named(t, m, init);
        let chosen = ids_with_mark(m, ids, Mark::Unselected);
        let before = ids_with_mark(m, init, Mark::Unselected);
        assert(is_file_id(t, ids[ids.len() - 1]));
        assert forall|k: int| 0 <= k < chosen.len() implies #[trigger] is_file_id(
            t,
            chosen[k],
        ) by {
            if k < before.len() {
                assert(chosen[k] == before[k]);
            }
        }
        let ps = paths_of_ids(t, chosen);
        assert forall|i: int| 0 <= i < ps.len() implies has_file_name(
            components(#[trigger] ps[i]),
        ) by {
            let id = chosen[i] as int;
            assert(is_file_id(t, chosen[i]));
            assert(crate::shape::wf_file(t, id));
            crate::shape::lemma_path_valid(t, id);
        }
    }
}

/// Looks among the children of `parent` for the one that goes by `key`.
fn find_child(nodes: &Vec<Node>, parent: NodeId, key: &String) -> (found: Option<NodeId>)
    requires
        wf_arena(entries_of(nodes@)),
        parent < nodes.len(),
    ensures
        found == child_with_key(entries_of(nodes@), parent as int, key@),
{
    let ghost t = entries_of(nodes@);
    let n: usize = nodes[parent].children.len();
    let mut j: usize = 0;
    while j < n
        invariant
            j <= n,
            t == entries_of(nodes@),
            wf_arena(t),
            parent < nodes.len(),
            n == nodes[parent as int].children.len(),
            forall|k: int| 0 <= k < j ==> t[t[parent as int].children[k] as int].key != Some(key@),
        decreases n - j,
    {
        let child: NodeId = nodes[parent].children[j];
        assert(wf_child(t, parent as int, j as int));
        assert(t[parent as int].children[j as int] == child);
        let same: bool = match &nodes[child].key {
            Some(k) => *k == *key,
            None => false,
        };
        if same {
            proof {
                assert(is_child_with_key(t, parent as int, child, key@));
                let other = choose|c: NodeId| is_child_with_key(t, parent as int, c, key@);
                lemma_child_unique(t, parent as int, other, child, key@);
            }
            return Some(child);
        }
        j = j + 1;
    }
    proof {
        if exists|c: NodeId| is_child_with_key(t, parent as int, c, key@) {
            let c = choose|c: NodeId| is_child_with_key(t, parent as int, c, key@);
            let k = choose|k: int| 0 <= k < t[parent as int].children.len() && t[parent as int].children[k] == c;
            assert(t[t[parent as int].children[k] as int].key != Some(key@));
        }
    }
    None
}

/// Follows `comps` down from the root as far as there are nodes: returns how
/// many components were followed and the node that was reached.
fn descend(nodes: &Vec<Node>, comps: &Vec<String>) -> (reached: (usize, NodeId))
    requires
        wf_arena(entries_of(nodes@)),
    ensures
        reached.0 <= comps.len(),
        reached.1 < nodes.len(),
        resolve(entries_of(nodes@), strings_view(comps@).take(reached.0 as int)) == Some(
            reached.1,
        ),
        reached.0 < comps.len() ==> child_with_key(
            entries_of(nodes@),
            reached.1 as int,
            comps@[reached.0 as int]@,
        ) is None,
{
    let ghost t = entries_of(nodes@);
    let ghost cs = strings_view(comps@);
    let mut cur: NodeId = 0;
    let mut j: usize = 0;
    assert(cs.take(0) =~= Seq::<Seq<char>>::empty());
    while j < comps.len()
        invariant
            j <= comps.len(),
            t == entries_of(nodes@),
            cs == strings_view(comps@),
            wf_arena(t),
            cur < nodes.len(),
            resolve(t, cs.take(j as int)) == Some(cur),
        decreases comps.len() - j,
    {
        let ghost next = cs.take(j + 1);
        assert(next.drop_last() =~= cs.take(j as int));
        assert(next.last() == comps@[j as int]@);
        match find_child(nodes, cur, &comps[j]) {
            Some(child) => {
                proof {
                    lemma_child_found(t, cur as int, comps@[j as int]@);
                }
                cur = child;
            },
            None => {
                return (j, cur);
            },
        }
        j = j + 1;
    }
    (j, cur)
}

/// Gives the mark `new_mark` to the node `node_id` and to all that lies
/// below it.
fn mark_impl(nodes: &mut Vec<Node>, node_id: NodeId, new_mark: Mark)
    requires
        wf_arena(entries_of(old(nodes)@)),
        node_id < old(nodes).len(),
    ensures
        entries_of(final(nodes)@) == entries_of(old(nodes)@),
        marks_of(final(nodes)@) == marked_down(
            entries_of(old(nodes)@),
            marks_of(old(nodes)@),
            node_id as int,
            new_mark,
        ),
    decreases old(nodes).len() - node_id,
{
    let ghost t = entries_of(nodes@);
    let ghost m0 = marks_of(nodes@);
    nodes[node_id].mark = new_mark;
    assert(entries_of(nodes@) =~= t);
    let n: usize = nodes[node_id].children.len();
    let mut j: usize = 0;
    while j < n
        invariant
            j <= n,
            wf_arena(t),
            node_id < nodes.len(),
            nodes.len() == t.len(),
            nodes.len() == old(nodes).len(),
            entries_of(nodes@) == t,
            n == t[node_id as int].children.len(),
            m0.len() == t.len(),
            forall|i: int|
                0 <= i < t.len() ==> #[trigger] marks_of(nodes@)[i] == if i == node_id
                    || under_children(t, i, node_id as int, j as int) {
                    new_mark
                } else {
                    m0[i]
                },
        decreases n - j,
    {
        let child: NodeId = nodes[node_id].children[j];
        let ghost before = marks_of(nodes@);
        assert(t[node_id as int].children[j as int] == child);
        assert(wf_child(t, node_id as int, j as int));
        mark_impl(nodes, child, new_mark);
        proof {
            let now = marks_of(nodes@);
            assert forall|i: int| 0 <= i < t.len() implies #[trigger] now[i] == if i == node_id
                || under_children(t, i, node_id as int, j + 1) {
                new_mark
            } else {
                m0[i]
            } by {
                assert(now[i] == marked_down(t, before, child as int, new_mark)[i]);
                if i == node_id && in_subtree(t, i, child as int) {
                    lemma_subtree_order(t, i, child as int);
                }
            }
        }
        j = j + 1;
    }
    proof {
        let now = marks_of(nodes@);
        let goal = marked_down(t, m0, node_id as int, new_mark);
        assert forall|i: int| 0 <= i < t.len() implies now[i] == goal[i] by {
            lemma_subtree_split(t, i, node_id as int);
        }
        assert(now =~= goal);
    }
}

/// The mark that the marks of its children give to the node `node_id`.
fn compute_mark_from_children(nodes: &Vec<Node>, node_id: NodeId) -> (mark: Mark)
    requires
        wf_arena(entries_of(nodes@)),
        node_id < nodes.len(),
    ensures
        mark == aggregate(entries_of(nodes@), marks_of(nodes@), node_id as int),
{
    let ghost t = entries_of(nodes@);
    let ghost m = marks_of(nodes@);
    let node = &nodes[node_id];
    if node.is_leaf_node() {
        return node.mark;
    }
    let n: usize = node.children.len();
    let mut all_selected: bool = true;
    let mut all_unselected: bool = true;
    let mut j: usize = 0;
    while j < n
        invariant
            j <= n,
            wf_arena(t),
            t == entries_of(nodes@),
            m == marks_of(nodes@),
            node_id < nodes.len(),
            n == t[node_id as int].children.len(),
            node.children@ == t[node_id as int].children,
            all_selected == forall|x: int|
                0 <= x < j ==> m[#[trigger] t[node_id as int].children[x] as int]
                    == Mark::Selected,
            all_unselected == forall|x: int|
                0 <= x < j ==> m[#[trigger] t[node_id as int].children[x] as int]
                    == Mark::Unselected,
        decreases n - j,
    {
        let child: NodeId = node.children[j];
        assert(wf_child(t, node_id as int, j as int));
        assert(t[node_id as int].children[j as int] == child);
        let child_mark: Mark = nodes[child].mark;
        assert(child_mark == m[child as int]);
        if child_mark != Mark::Selected {
            all_selected = false;
        }
        if child_mark != Mark::Unselected {
            all_unselected = false;
        }
        j = j + 1;
    }
    if all_selected {
        Mark::Selected
    } else if all_unselected {
        Mark::Unselected
    } else {
        Mark::PartiallySelected
    }
}

/// The marks after every node above `id` was given, from the parent of `id`
/// upward, the mark that the marks of its children give it.
pub open spec fn corrected_above(t: Seq<Entry>, before: Seq<Mark>, after: Seq<Mark>, id: int) -> bool {
    &&& after.len() == before.len()
    &&& forall|i: int|
        0 <= i < before.len() ==> #[trigger] after[i] == if is_above(t, i, id) {
            aggregate(t, after, i)
        } else {
            before[i]
        }
}

/// Gives every node above `node_id`, from its parent up to the root, the
/// mark that the marks of its children give it.
fn correct_parents_mark(nodes: &mut Vec<Node>, node_id: NodeId)
    requires
        wf_arena(entries_of(old(nodes)@)),
        node_id < old(nodes).len(),
    ensures
        entries_of(final(nodes)@) == entries_of(old(nodes)@),
        corrected_above(
            entries_of(old(nodes)@),
            marks_of(old(nodes)@),
            marks_of(final(nodes)@),
            node_id as int,
        ),
{
    let ghost t = entries_of(nodes@);
    let ghost m0 = marks_of(nodes@);
    let mut cur: NodeId = node_id;
    proof {
        assert forall|i: int| 0 <= i < t.len() && is_above(t, i, node_id as int) implies i
            < node_id by {
            lemma_subtree_order(t, node_id as int, i);
        }
    }
    loop
        invariant
            wf_arena(t),
            entries_of(nodes@) == t,
            nodes.len() == t.len(),
            m0.len() == t.len(),
            cur <= node_id < t.len(),
            in_subtree(t, node_id as int, cur as int),
            forall|i: int|
                0 <= i < t.len() ==> #[trigger] marks_of(nodes@)[i] == if is_above(
                    t,
                    i,
                    node_id as int,
                ) && i >= cur {
                    aggregate(t, marks_of(nodes@), i)
                } else {
                    m0[i]
                },
        ensures
            entries_of(nodes@) == t,
            corrected_above(t, m0, marks_of(nodes@), node_id as int),
        decreases cur,
    {
        match nodes[cur].parent {
            None => {
                proof {
                    if cur > 0 {
                        assert(wf_node(t, cur as int));
                    }
                }
                break ;
            },
            Some(parent) => {
                proof {
                    assert(t[0].parent is None);
                    assert(wf_node(t, cur as int));
                }
                let ghost before = marks_of(nodes@);
                let mark = compute_mark_from_children(nodes, parent);
                nodes[parent].mark = mark;
                proof {
                    let now = marks_of(nodes@);
                    assert(entries_of(nodes@) =~= t);
                    lemma_subtree_up(t, node_id as int, cur as int);
                    assert(now =~= before.update(parent as int, mark));
                    assert forall|i: int| 0 <= i < t.len() implies #[trigger] now[i] == if is_above(
                        t,
                        i,
                        node_id as int,
                    ) && i >= parent {
                        aggregate(t, now, i)
                    } else {
                        m0[i]
                    } by {
                        if is_above(t, i, node_id as int) && i >= parent {
                            // the children of `i` lie behind `parent`, so their marks stay
                            assert forall|j: int| 0 <= j < t[i].children.len() implies before[#[trigger] t[i].children[j] as int]
                                == now[t[i].children[j] as int] by {
                                assert(wf_child(t, i, j));
                            }
                            if i == parent {
                                let x = choose|x: int| 0 <= x < t[i].children.len() && t[i].children[x] == cur;
                                assert(!is_leaf(t, i));
                            }
                            lemma_aggregate_frame(t, before, now, i);
                            if i > parent && i < cur {
                                lemma_subtree_chain(t, node_id as int, i, cur as int);
                                lemma_subtree_order(t, parent as int, i);
                            }
                        }
                    }
                }
                cur = parent;
            },
        }
    }
}

/// Counts the selected leaves by a walk from the root that does not enter
/// what lies below an unselected node.
fn count_visible_selected(nodes: &Vec<Node>) -> (count: usize)
    requires
        wf_arena(entries_of(nodes@)),
    ensures
        count == visible_selected(entries_of(nodes@), marks_of(nodes@), 0),
{
    let ghost t = entries_of(nodes@);
    let ghost m = marks_of(nodes@);
    let mut num_selected: usize = 0;
    let mut stack: Vec<NodeId> = Vec::new();
    stack.push(0);
    proof {
        assert(stack@.drop_last() =~= Seq::<NodeId>::empty());
        assert(visible_sum(t, m, Seq::<NodeId>::empty()) == 0);
    }
    while stack.len() > 0
        invariant
            wf_arena(t),
            t == entries_of(nodes@),
            m == marks_of(nodes@),
            forall|i: int| 0 <= i < stack.len() ==> #[trigger] stack@[i] < t.len(),
            num_selected + visible_sum(t, m, stack@) == visible_selected(t, m, 0),
        decreases pending(t, stack@),
    {
        let ghost full = stack@;
        let node_id: NodeId = stack.pop().unwrap();
        let ghost rest = stack@;
        assert(rest =~= full.drop_last());
        assert(node_id == full.last());
        assert(full[full.len() - 1] < t.len());
        let node = &nodes[node_id];
        assert(tree_sum(t, unit_weights(t), node_id as int) >= 1);
        if node.mark != Mark::Unselected {
            let n: usize = node.children.len();
            let mut j: usize = 0;
            while j < n
                invariant
                    j <= n,
                    wf_arena(t),
                    t == entries_of(nodes@),
                    node_id < t.len(),
                    node.children@ == t[node_id as int].children,
                    n == node.children.len(),
                    forall|i: int| 0 <= i < stack.len() ==> #[trigger] stack@[i] < t.len(),
                    visible_sum(t, m, stack@) == visible_sum(t, m, rest)
                        + visible_selected_children(t, m, node_id as int, j as int),
                    pending(t, stack@) == pending(t, rest) + tree_sum_children(
                        t,
                        unit_weights(t),
                        node_id as int,
                        j as int,
                    ),
                decreases n - j,
            {
                let child: NodeId = node.children[j];
                let ghost before = stack@;
                assert(wf_child(t, node_id as int, j as int));
                stack.push(child);
                assert(stack@.drop_last() =~= before);
                j = j + 1;
            }
            if node.is_leaf_node() && node.mark == Mark::Selected {
                proof {
                    lemma_visible_fits(t, m, 0);
                }
                num_selected = num_selected + 1;
            }
        }
    }
    assert(visible_sum(t, m, stack@) == 0);
    num_selected
}

/// A tree of paths with a mark on every node.
#[derive(Debug)]
pub struct Tree {
    nodes: Vec<Node>,
    leaf_node_ids: Vec<NodeId>,
    /// The number of files in the tree.
    pub num_leaf_node: usize,
    /// The number of selected leaves, as of the last marking.
    pub num_selected: usize,
}

impl Tree {
    /// The shape of the tree: its nodes without their marks.
    pub closed spec fn entries(&self) -> Seq<Entry> {
        entries_of(self.nodes@)
    }

    /// The mark of every node.
    pub closed spec fn marks(&self) -> Seq<Mark> {
        marks_of(self.nodes@)
    }

    /// The files of the tree in the order of their insertion.
    pub closed spec fn leaf_ids(&self) -> Seq<NodeId> {
        self.leaf_node_ids@
    }

    /// The count of files that the tree keeps.
    pub closed spec fn leaf_count(&self) -> nat {
        self.num_leaf_node as nat
    }

    /// The count of selected leaves that the tree keeps.
    pub closed spec fn selected_count(&self) -> nat {
        self.num_selected as nat
    }

    /// The paths of the files, in the order of their insertion.
    pub open spec fn leaf_paths(&self) -> Seq<Seq<char>> {
        paths_of_ids(self.entries(), self.leaf_ids())
    }

    /// Whether nothing is selected: every node is unselected and the count
    /// of selected leaves is zero.
    pub open spec fn nothing_selected(&self) -> bool {
        &&& self.marks() == unselected(self.entries().len())
        &&& self.selected_count() == 0
    }

    /// Whether the count of selected leaves is the number of leaves that are
    /// selected.
    pub open spec fn counter_consistent(&self) -> bool {
        self.selected_count() == selected_leaves(
            self.entries(),
            self.marks(),
            self.entries().len() as int,
        )
    }

    /// The invariants of the selection: every node carries the mark that the
    /// marks of its children give it, and the count of selected leaves is
    /// the number of leaves that are selected.
    pub open spec fn selection_invariants(&self) -> bool {
        &&& marks_consistent(self.entries(), self.marks())
        &&& self.counter_consistent()
    }

    /// Whether the selected leaves are the files that are not unselected:
    /// no file has children or is partially selected, unless it is
    /// unselected, and no leaf but a file is selected.
    pub open spec fn selected_leaves_are_spent_files(&self) -> bool {
        selected_leaves_are_spent_files(self.entries(), self.marks())
    }

    /// The invariant of the tree: its arena is a tree of paths, every node
    /// has a mark, and the list and the count of files are those of the arena.
    pub open spec fn wf(&self) -> bool {
        &&& wf_arena(self.entries())
        &&& self.marks().len() == self.entries().len()
        &&& self.leaf_ids() == file_ids(self.entries(), self.entries().len() as int)
        &&& self.leaf_count() == self.leaf_ids().len()
    }

    /// A tree that holds the files that `file_paths` name once they are
    /// normalised, inserted in their order, with nothing selected. Fails where
    /// one of the paths does not end in a file name.
    pub fn new_from_paths(file_paths: Vec<String>) -> (r: Result<Tree, TreeError>)
        ensures
            r is Ok <==> all_have_file_names(cleaned_all(strings_view(file_paths@))),
            r is Err ==> r->Err_0 == TreeError::CannotGetFileNameError,
            r is Ok ==> {
                &&& r->Ok_0.wf()
                &&& r->Ok_0.entries() == insert_all(
                    seq![root_entry()],
                    cleaned_all(strings_view(file_paths@)),
                )
                &&& r->Ok_0.nothing_selected()
                &&& r->Ok_0.selection_invariants()
            },
    {
        let mut tree = Tree::default();
        let ghost paths = cleaned_all(strings_view(file_paths@));
        let mut j: usize = 0;
        proof {
            assert(paths.take(0) =~= Seq::<Seq<char>>::empty());
            assert(tree.marks() =~= unselected(1));
        }
        while j < file_paths.len()
            invariant
                j <= file_paths.len(),
                paths == cleaned_all(strings_view(file_paths@)),
                tree.wf(),
                all_have_file_names(paths.take(j as int)),
                tree.entries() == insert_all(seq![root_entry()], paths.take(j as int)),
                tree.nothing_selected(),
                tree.selection_invariants(),
            decreases file_paths.len() - j,
        {
            let ghost before = tree.entries();
            let ghost taken = paths.take(j + 1);
            assert(taken.drop_last() =~= paths.take(j as int));
            assert(taken.last() == cleaned_path(file_paths@[j as int]@));
            match tree.add(file_paths[j].clone()) {
                Ok(()) => {},
                Err(e) => {
                    assert(!has_file_name(components(paths[j as int])));
                    return Err(e);
                },
            }
            proof {
                assert forall|i: int| 0 <= i < taken.len() implies has_file_name(
                    components(#[trigger] taken[i]),
                ) by {
                    if i < j {
                        assert(paths.take(j as int)[i] == taken[i]);
                    }
                }
            }
            j = j + 1;
        }
        assert(paths.take(file_paths.len() as int) =~= paths);
        Ok(tree)
    }

    /// A tree that holds no path.
    pub fn new_ptr() -> (tree: Tree)
        ensures
            tree.wf(),
            tree.entries() == seq![root_entry()],
            tree.marks() == seq![Mark::Unselected],
            tree.leaf_count() == 0,
            tree.selected_count() == 0,
            tree.nothing_selected(),
            tree.selection_invariants(),
    {
        Tree::default()
    }

    /// The number of files and the count of selected leaves.
    pub fn stats(&self) -> (counts: (usize, usize))
        ensures
            counts.0 == self.leaf_count(),
            counts.1 == self.selected_count(),
    {
        (self.num_leaf_node, self.num_selected)
    }

    /// The index of the root.
    pub fn root_id(&self) -> (id: NodeId)
        ensures
            id == 0,
    {
        0
    }

    /// The number of nodes, the root among them.
    pub fn size(&self) -> (n: usize)
        ensures
            n == self.entries().len(),
    {
        self.nodes.len()
    }

    /// The node with the index `node_id`, which is an index of this tree.
    pub fn get_node(&self, node_id: NodeId) -> (node: &Node)
        requires
            node_id < self.entries().len(),
        ensures
            node.entry() == self.entries()[node_id as int],
            node.mark == self.marks()[node_id as int],
    {
        &self.nodes[node_id]
    }

    /// The children of a node, in no order that callers may rely on.
    pub fn children_of(&self, node_id: NodeId) -> (children: Vec<NodeId>)
        requires
            node_id < self.entries().len(),
        ensures
            children@ == self.entries()[node_id as int].children,
    {
        let node = &self.nodes[node_id];
        let mut children: Vec<NodeId> = Vec::new();
        let mut j: usize = 0;
        while j < node.children.len()
            invariant
                j <= node.children.len(),
                children@ == node.children@.take(j as int),
            decreases node.children.len() - j,
        {
            children.push(node.children[j]);
            assert(node.children@.take(j + 1) =~= node.children@.take(j as int).push(
                node.children@[j as int],
            ));
            j = j + 1;
        }
        assert(node.children@.take(node.children.len() as int) =~= node.children@);
        children
    }

    /// Inserts the file that an already normalised path names: follows the
    /// components of the path from the root as far as there are nodes, and
    /// creates a node for each component that has none, the last one as a
    /// file. A path that does not end in a file name is refused, and the
    /// tree stays as it is.
    pub fn add_cleaned(&mut self, cleaned: String) -> (r: Result<(), TreeError>)
        requires
            old(self).wf(),
        ensures
            final(self).wf(),
            r is Ok <==> has_file_name(components(cleaned@)),
            r is Err ==> {
                &&& r == Err::<(), TreeError>(TreeError::CannotGetFileNameError)
                &&& final(self).entries() == old(self).entries()
                &&& final(self).marks() == old(self).marks()
                &&& final(self).leaf_ids() == old(self).leaf_ids()
            },
            r is Ok ==> {
                &&& final(self).entries() == insert(
                    old(self).entries(),
                    components(cleaned@),
                    cleaned@,
                )
                &&& final(self).marks() == old(self).marks() + unselected(
                    (final(self).entries().len() - old(self).entries().len()) as nat,
                )
                &&& final(self).leaf_ids() == if final(self).entries().len() > old(
                    self,
                ).entries().len() {
                    old(self).leaf_ids().push((final(self).entries().len() - 1) as NodeId)
                } else {
                    old(self).leaf_ids()
                }
            },
            final(self).selected_count() == old(self).selected_count(),
            r is Ok ==> resolve(final(self).entries(), components(cleaned@)) is Some,
            old(self).nothing_selected() ==> final(self).nothing_selected() && final(self).selection_invariants(),
    {
        proof {
            law_unselected_consistent(self.entries(), self.entries().len() as int);
        }
        let comps = split_components(cleaned.as_str());
        let n: usize = comps.len();
        if n == 0 || !is_file_name_text(&comps[n - 1]) {
            return Err(TreeError::CannotGetFileNameError);
        }
        let ghost t0 = self.entries();
        let ghost m0 = self.marks();
        let ghost cs = strings_view(comps@);
        let ghost full = cleaned@;
        let (k, attach) = descend(&self.nodes, &comps);
        let base: usize = self.nodes.len();
        proof {
            lemma_matched_len_is(t0, cs, k as int);
            lemma_path_of_resolve(t0, cs.take(k as int));
            lemma_components_valid(full);
            assert(cs.last() == comps@[n - 1]@);
            assert(m0 + unselected(0) =~= m0);
        }
        let mut cur: NodeId = attach;
        let mut j: usize = k;
        while j < n
            invariant
                k <= j <= n,
                n == comps.len(),
                cs == strings_view(comps@),
                full == cleaned@,
                attach < base,
                base == t0.len(),
                base == m0.len(),
                self.nodes.len() == base + j - k,
                cur == if j == k {
                    attach
                } else {
                    (base + j - k - 1) as NodeId
                },
                entries_of(self.nodes@) == extended(t0, k as int, attach, cs, full, j as int),
                marks_of(self.nodes@) == m0 + unselected((j - k) as nat),
                self.leaf_node_ids@ == old(self).leaf_node_ids@,
                self.num_leaf_node == old(self).num_leaf_node,
                self.num_selected == old(self).num_selected,
            decreases n - j,
        {
            let child_id: NodeId = self.nodes.len();
            let is_last: bool = j + 1 == n;
            let ghost before = entries_of(self.nodes@);
            let ghost marks_before = marks_of(self.nodes@);
            proof {
                if j > k {
                    lemma_extended_entries(t0, k as int, attach, cs, full, j as int);
                }
            }
            let node = Node {
                key: Some(comps[j].clone()),
                mark: Mark::Unselected,
                fullpath: if is_last {
                    Some(cleaned.clone())
                } else {
                    None
                },
                parent: Some(cur),
                children: Vec::new(),
            };
            self.nodes.push(node);
            self.nodes[cur].children.push(child_id);
            proof {
                lemma_extended_entries(t0, k as int, attach, cs, full, j + 1);
                let now = entries_of(self.nodes@);
                let goal = extended(t0, k as int, attach, cs, full, j + 1);
                assert(now.len() == goal.len());
                assert forall|i: int| 0 <= i < now.len() implies now[i] == goal[i] by {
                    if i < base + j - k {
                        if i != cur {
                            assert(now[i] == before[i]);
                        } else {
                            assert(now[i].children =~= before[i].children.push(child_id));
                        }
                    } else {
                        assert(now[i].children =~= Seq::<NodeId>::empty());
                    }
                }
                assert(now =~= goal);
                let marks_now = marks_of(self.nodes@);
                assert forall|i: int| 0 <= i < marks_now.len() implies marks_now[i] == (m0
                    + unselected((j + 1 - k) as nat))[i] by {
                    if i < base + j - k {
                        assert(marks_now[i] == marks_before[i]);
                    }
                }
                assert(marks_now =~= m0 + unselected((j + 1 - k) as nat));
            }
            cur = child_id;
            j = j + 1;
        }
        if k < n {
            proof {
                lemma_file_ids(t0, base as int);
                assert(can_extend(t0, k as int, attach, cs, full));
                lemma_extended_wf(t0, k as int, attach, cs, full);
                lemma_extended_files(t0, k as int, attach, cs, full, base + n - k);
            }
            self.num_leaf_node = self.num_leaf_node + 1;
            self.leaf_node_ids.push(cur);
        }
        proof {
            law_insert(t0, cs, full);
            law_unselected_consistent(self.entries(), self.entries().len() as int);
            if old(self).nothing_selected() {
                assert(self.marks() =~= unselected(self.entries().len()));
            }
        }
        Ok(())
    }

    /// Inserts the file that `value` names once it is normalised.
    pub fn add(&mut self, value: String) -> (r: Result<(), TreeError>)
        requires
            old(self).wf(),
        ensures
            final(self).wf(),
            r is Ok <==> has_file_name(components(cleaned_path(value@))),
            r is Err ==> {
                &&& r == Err::<(), TreeError>(TreeError::CannotGetFileNameError)
                &&& final(self).entries() == old(self).entries()
                &&& final(self).marks() == old(self).marks()
                &&& final(self).leaf_ids() == old(self).leaf_ids()
            },
            r is Ok ==> {
                &&& final(self).entries() == insert(
                    old(self).entries(),
                    components(cleaned_path(value@)),
                    cleaned_path(value@),
                )
                &&& final(self).marks() == old(self).marks() + unselected(
                    (final(self).entries().len() - old(self).entries().len()) as nat,
                )
                &&& final(self).leaf_ids() == if final(self).entries().len() > old(
                    self,
                ).entries().len() {
                    old(self).leaf_ids().push((final(self).entries().len() - 1) as NodeId)
                } else {
                    old(self).leaf_ids()
                }
            },
            final(self).selected_count() == old(self).selected_count(),
            r is Ok ==> resolve(final(self).entries(), components(cleaned_path(value@))) is Some,
            old(self).nothing_selected() ==> final(self).nothing_selected() && final(self).selection_invariants(),
    {
        let cleaned = clean_path(value.as_str());
        self.add_cleaned(cleaned)
    }

    /// Counts the selected leaves anew, by a walk from the root that does
    /// not enter what lies below an unselected node.
    fn update_num_selected(&mut self)
        requires
            old(self).wf(),
        ensures
            final(self).wf(),
            final(self).entries() == old(self).entries(),
            final(self).marks() == old(self).marks(),
            final(self).leaf_ids() == old(self).leaf_ids(),
            final(self).selected_count() == visible_selected(
                old(self).entries(),
                old(self).marks(),
                0,
            ),
    {
        self.num_selected = count_visible_selected(&self.nodes);
    }

    /// Marks a node: gives `new_mark` to the node and to all that lies below
    /// it, then gives every node above it, from its parent up to the root,
    /// the mark that the marks of its children give it, and counts the
    /// selected leaves anew. Consistent marks stay consistent, and the
    /// count is then the number of selected leaves.
    pub fn mark(&mut self, node_id: NodeId, new_mark: Mark)
        requires
            old(self).wf(),
            node_id < old(self).entries().len(),
        ensures
            final(self).wf(),
            final(self).entries() == old(self).entries(),
            final(self).leaf_ids() == old(self).leaf_ids(),
            marked(
                old(self).entries(),
                old(self).marks(),
                final(self).marks(),
                node_id as int,
                new_mark,
            ),
            final(self).selected_count() == visible_selected(
                final(self).entries(),
                final(self).marks(),
                0,
            ),
            marks_consistent(old(self).entries(), old(self).marks()) ==> final(self).selection_invariants(),
    {
        let ghost t = self.entries();
        let ghost m0 = self.marks();
        mark_impl(&mut self.nodes, node_id, new_mark);
        let ghost m1 = self.marks();
        correct_parents_mark(&mut self.nodes, node_id);
        let ghost m2 = self.marks();
        proof {
            assert forall|i: int| 0 <= i < t.len() implies #[trigger] m2[i] == if in_subtree(
                t,
                i,
                node_id as int,
            ) {
                new_mark
            } else if is_above(t, i, node_id as int) {
                aggregate(t, m2, i)
            } else {
                m0[i]
            } by {
                assert(m1[i] == marked_down(t, m0, node_id as int, new_mark)[i]);
                if in_subtree(t, i, node_id as int) && is_above(t, i, node_id as int) {
                    lemma_subtree_order(t, i, node_id as int);
                    lemma_subtree_order(t, node_id as int, i);
                }
            }
            assert(marked(t, m0, m2, node_id as int, new_mark));
        }
        self.update_num_selected();
        proof {
            if marks_consistent(t, m0) {
                lemma_marked_consistent(t, m0, m2, node_id as int, new_mark);
                lemma_visible_counts_selected_leaves(t, m2);
            }
        }
    }

    /// Looks up the file that an already normalised path names.
    pub fn find_cleaned(&self, cleaned: &str) -> (found: Option<NodeId>)
        requires
            self.wf(),
        ensures
            found == find_file(self.entries(), components(cleaned@)),
            found is Some ==> found->0 < self.entries().len(),
    {
        let comps = split_components(cleaned);
        let (k, id) = descend(&self.nodes, &comps);
        proof {
            let t = self.entries();
            let cs = strings_view(comps@);
            if k < comps.len() {
                if resolve(t, cs) is Some {
                    lemma_resolve_prefix(t, cs, k + 1);
                    assert(cs.take(k + 1).drop_last() =~= cs.take(k as int));
                    assert(cs.take(k + 1).last() == cs[k as int]);
                }
            } else {
                assert(cs.take(k as int) =~= cs);
            }
        }
        if k == comps.len() && self.nodes[id].fullpath.is_some() {
            Some(id)
        } else {
            None
        }
    }

    /// Looks up the file that `value` names once it is normalised. A path
    /// that leads to a directory, or to no node, finds nothing.
    pub fn find_node(&self, value: String) -> (found: Option<NodeId>)
        requires
            self.wf(),
        ensures
            found == find_file(self.entries(), components(cleaned_path(value@))),
            found is Some ==> found->0 < self.entries().len(),
    {
        let cleaned = clean_path(value.as_str());
        self.find_cleaned(cleaned.as_str())
    }

    /// The text of the path that leads to a node: the names from the root
    /// down to it, joined.
    pub fn get_path_buf(&self, node_id: NodeId) -> (path: String)
        requires
            self.wf(),
            node_id < self.entries().len(),
        ensures
            path@ == join(path_of(self.entries(), node_id as int)),
            components(path@) == path_of(self.entries(), node_id as int),
    {
        let ghost t = self.entries();
        proof {
            lemma_path_valid(t, node_id as int);
            lemma_components_of_join(path_of(t, node_id as int));
        }
        let mut stack: Vec<String> = Vec::new();
        let mut cur: NodeId = node_id;
        assert(strings_view(stack@).reverse() =~= Seq::<Seq<char>>::empty());
        assert(path_of(t, cur as int) + Seq::<Seq<char>>::empty() =~= path_of(t, cur as int));
        loop
            invariant
                t == self.entries(),
                self.wf(),
                cur < self.nodes.len(),
                path_of(t, node_id as int) == path_of(t, cur as int) + strings_view(
                    stack@,
                ).reverse(),
            ensures
                cur == 0,
                path_of(t, node_id as int) == strings_view(stack@).reverse(),
            decreases cur,
        {
            let node = &self.nodes[cur];
            match node.parent {
                None => {
                    proof {
                        if cur > 0 {
                            assert(wf_node(t, cur as int));
                        }
                        assert(path_of(t, 0) =~= Seq::<Seq<char>>::empty());
                        assert(path_of(t, 0) + strings_view(stack@).reverse() =~= strings_view(
                            stack@,
                        ).reverse());
                    }
                    break ;
                },
                Some(parent) => {
                    proof {
                        assert(t[0].parent is None);
                        assert(wf_node(t, cur as int));
                    }
                    let ghost before = strings_view(stack@);
                    match &node.key {
                        Some(key) => {
                            stack.push(key.clone());
                        },
                        None => {},
                    }
                    proof {
                        let now = strings_view(stack@);
                        let key = t[cur as int].key->0;
                        assert(now =~= before.push(key));
                        assert(now.reverse() =~= seq![key] + before.reverse());
                        assert(path_of(t, cur as int) =~= path_of(t, parent as int).push(key));
                        assert(path_of(t, parent as int).push(key) + before.reverse() =~= path_of(
                            t,
                            parent as int,
                        ) + (seq![key] + before.reverse()));
                    }
                    cur = parent;
                },
            }
        }
        let mut comps: Vec<String> = Vec::new();
        let mut k: usize = stack.len();
        while k > 0
            invariant
                k <= stack.len(),
                comps.len() == stack.len() - k,
                forall|i: int| 0 <= i < comps.len() ==> comps@[i]@ == stack@[stack.len() - 1 - i]@,
            decreases k,
        {
            k = k - 1;
            comps.push(stack[k].clone());
        }
        assert(strings_view(comps@) =~= strings_view(stack@).reverse());
        join_components(&comps)
    }

    /// The paths of the selected files, in the order of their insertion.
    pub open spec fn selected_paths(&self) -> Seq<Seq<char>> {
        paths_of_ids(self.entries(), ids_with_mark(self.marks(), self.leaf_ids(), Mark::Selected))
    }

    /// The paths of the unselected files, in the order of their insertion.
    pub open spec fn unselected_paths(&self) -> Seq<Seq<char>> {
        paths_of_ids(
            self.entries(),
            ids_with_mark(self.marks(), self.leaf_ids(), Mark::Unselected),
        )
    }

    /// The paths of the files that carry the mark `x`, in the order of their
    /// insertion.
    fn file_paths_with_mark(&self, x: Mark) -> (paths: Vec<String>)
        requires
            self.wf(),
        ensures
            strings_view(paths@) == paths_of_ids(
                self.entries(),
                ids_with_mark(self.marks(), self.leaf_ids(), x),
            ),
    {
        let ghost t = self.entries();
        let ghost m = self.marks();
        let ghost ids = self.leaf_ids();
        let mut paths: Vec<String> = Vec::new();
        let mut j: usize = 0;
        proof {
            lemma_file_ids(t, t.len() as int);
            assert forall|k: int| 0 <= k < ids.len() implies #[trigger] is_file_id(t, ids[k]) by {
                assert(ids[k] == file_ids(t, t.len() as int)[k]);
            }
            assert(ids.take(0) =~= Seq::<NodeId>::empty());
            assert(strings_view(paths@) =~= paths_of_ids(t, ids_with_mark(m, ids.take(0), x)));
        }
        while j < self.leaf_node_ids.len()
            invariant
                j <= self.leaf_node_ids.len(),
                t == entries_of(self.nodes@),
                m == marks_of(self.nodes@),
                ids == self.leaf_node_ids@,
                forall|k: int| 0 <= k < ids.len() ==> #[trigger] is_file_id(t, ids[k]),
                strings_view(paths@) == paths_of_ids(t, ids_with_mark(m, ids.take(j as int), x)),
            decreases self.leaf_node_ids.len() - j,
        {
            let id: NodeId = self.leaf_node_ids[j];
            assert(is_file_id(t, ids[j as int]));
            let node = &self.nodes[id];
            let ghost before = strings_view(paths@);
            let ghost chosen = ids_with_mark(m, ids.take(j as int), x);
            proof {
                assert(ids.take(j + 1) =~= ids.take(j as int).push(id));
                lemma_ids_with_mark_push(m, ids.take(j as int), id, x);
                lemma_paths_of_ids_push(t, chosen, id);
            }
            if node.mark == x {
                match &node.fullpath {
                    Some(path) => {
                        paths.push(path.clone());
                    },
                    None => {},
                }
                assert(strings_view(paths@) =~= before.push(t[id as int].fullpath->0));
            }
            j = j + 1;
        }
        assert(ids.take(self.leaf_node_ids.len() as int) =~= ids);
        paths
    }

    /// The paths of the selected files, in the order of their insertion.
    pub fn get_selected_file_paths(&self) -> (paths: Vec<String>)
        requires
            self.wf(),
        ensures
            strings_view(paths@) == self.selected_paths(),
    {
        self.file_paths_with_mark(Mark::Selected)
    }

    /// The tree that is left once the selected files are spent: a new tree
    /// that holds the unselected files of this one, inserted in their order,
    /// with nothing selected. Their paths are normalised already and are
    /// inserted as they stand.
    pub fn get_remaining_tree(&self) -> (r: Result<Tree, TreeError>)
        requires
            self.wf(),
        ensures
            r is Ok,
            r->Ok_0.wf(),
            r->Ok_0.entries() == insert_all(seq![root_entry()], self.unselected_paths()),
            r->Ok_0.leaf_paths() == self.unselected_paths(),
            r->Ok_0.leaf_count() == self.unselected_paths().len(),
            r->Ok_0.nothing_selected(),
            r->Ok_0.selection_invariants(),
            self.counter_consistent() && self.selected_leaves_are_spent_files()
                ==> r->Ok_0.leaf_count() == self.leaf_count() - self.selected_count(),
    {
        let paths = self.file_paths_with_mark(Mark::Unselected);
        let ghost ps = strings_view(paths@);
        let ghost t = self.entries();
        let mut tree = Tree::default();
        let mut j: usize = 0;
        proof {
            assert(ps.take(0) =~= Seq::<Seq<char>>::empty());
            lemma_file_ids(t, t.len() as int);
            assert forall|k: int| 0 <= k < self.leaf_ids().len() implies #[trigger] is_file_id(
                t,
                self.leaf_ids()[k],
            ) by {
                assert(self.leaf_ids()[k] == file_ids(t, t.len() as int)[k]);
            }
            lemma_unselected_paths_named(t, self.marks(), self.leaf_ids());
        }
        while j < paths.len()
            invariant
                j <= paths.len(),
                ps == strings_view(paths@),
                all_have_file_names(ps),
                tree.wf(),
                tree.entries() == insert_all(seq![root_entry()], ps.take(j as int)),
                tree.nothing_selected(),
                tree.selection_invariants(),
            decreases paths.len() - j,
        {
            let ghost taken = ps.take(j + 1);
            assert(taken.drop_last() =~= ps.take(j as int));
            assert(taken.last() == paths@[j as int]@);
            assert(has_file_name(components(ps[j as int])));
            match tree.add_cleaned(paths[j].clone()) {
                Ok(()) => {},
                Err(e) => {
                    return Err(e);
                },
            }
            j = j + 1;
        }
        proof {
            assert(ps.take(paths.len() as int) =~= ps);
            let m = self.marks();
            let ids = self.leaf_ids();
            let chosen = ids_with_mark(m, ids, Mark::Unselected);
            assert(crate::laws::rising(ids));
            lemma_ids_with_mark_rising(m, ids, Mark::Unselected, t.len() as int);
            assert forall|k: int| 0 <= k < chosen.len() implies chosen[k] < t.len() && is_file(
                t,
                #[trigger] chosen[k] as int,
            ) by {
                assert(is_file_id(t, chosen[k]));
            }
            lemma_file_paths_fresh(t, chosen);
            law_insert_all_files(ps);
            if self.counter_consistent() && self.selected_leaves_are_spent_files() {
                lemma_unselected_and_selected(t, m, t.len() as int);
            }
        }
        Ok(tree)
    }

    /// The root.
    pub fn get_root(&self) -> (node: &Node)
        requires
            self.wf(),
        ensures
            node.entry() == self.entries()[0],
            node.mark == self.marks()[0],
    {
        let node_id = self.root_id();
        self.get_node(node_id)
    }
}

impl Default for Tree {
    /// A tree that holds no path: the root alone, unselected.
    fn default() -> (tree: Tree)
        ensures
            tree.wf(),
            tree.entries() == seq![root_entry()],
            tree.marks() == seq![Mark::Unselected],
            tree.leaf_count() == 0,
            tree.selected_count() == 0,
            tree.nothing_selected(),
            tree.selection_invariants(),
    {
        let mut nodes: Vec<Node> = Vec::new();
        nodes.push(Node::new_root());
        let tree = Tree { nodes, leaf_node_ids: Vec::new(), num_leaf_node: 0, num_selected: 0 };
        proof {
            let t = tree.entries();
            assert(t =~= seq![root_entry()]);
            assert(tree.marks() =~= seq![Mark::Unselected]);
            assert(file_ids(t, 0) =~= Seq::<NodeId>::empty());
            assert(file_ids(t, 1) =~= Seq::<NodeId>::empty());
            assert(tree.marks() =~= unselected(1));
            law_unselected_consistent(t, 1);
        }
        tree
    }
}

} // verus!
