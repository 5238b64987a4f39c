//! What holds of the tree across its operations: laws of insertion, of
//! marking and of the tree that is left once a selection is spent.

use crate::insertion::{
    attach_point, can_extend, insert, insert_all, lemma_extended_entries, lemma_extended_files,
    lemma_extended_paths, lemma_extended_wf, lemma_matched_len,
};
use crate::path::{
    all_have_file_names, components, has_file_name, join, lemma_components_of_join,
    lemma_components_valid,
};
use crate::selection::{
    aggregate, lemma_mark_covers_subtree, marks_consistent, selected_leaves, Mark,
};
use crate::shape::{
    file_ids, find_file, in_subtree, is_file, is_leaf, lemma_file_ids, lemma_path_of_resolve,
    lemma_path_valid, lemma_resolve_path_of, lemma_resolve_prefix, matched_len, path_of,
    paths_of_ids, resolve, root_entry, wf_arena, wf_child, wf_file, wf_node, Entry, NodeId,
};
use crate::tree::{ids_with_mark, unselected};
use vstd::prelude::*;

verus! {

/// The conditions under which the path with the components `cs` and the text
/// `full` is inserted into `t`.
pub open spec fn can_insert(t: Seq<Entry>, cs: Seq<Seq<char>>, full: Seq<char>) -> bool {
    &&& wf_arena(t)
    &&& has_file_name(cs)
    &&& components(full) == cs
    &&& insert(t, cs, full).len() <= usize::MAX
}

/// Insertion of a path that leads to no node yet extends the arena under
/// the node that its longest prefix with a node leads to.
pub proof fn lemma_insert_extends(t: Seq<Entry>, cs: Seq<Seq<char>>, full: Seq<char>)
    requires
        can_insert(t, cs, full),
        resolve(t, cs) is None,
    ensures
        can_extend(t, matched_len(t, cs) as int, attach_point(t, cs), cs, full),
        insert(t, cs, full).len() == t.len() + cs.len() - matched_len(t, cs),
{
    let k = matched_len(t, cs) as int;
    lemma_matched_len(t, cs);
    if k == cs.len() {
        assert(cs.take(k) =~= cs);
    }
    lemma_path_of_resolve(t, cs.take(k));
    lemma_components_valid(full);
    lemma_extended_entries(t, k, attach_point(t, cs), cs, full, cs.len() as int);
}

/// After insertion the tree is a tree of paths in which the inserted path
/// leads to a node. Where it led to none before, that node is the last of
/// the arena and a file with the inserted path, the only new file; where it
/// led to one, nothing has changed.
pub proof fn law_insert(t: Seq<Entry>, cs: Seq<Seq<char>>, full: Seq<char>)
    requires
        can_insert(t, cs, full),
    ensures
        wf_arena(insert(t, cs, full)),
        resolve(insert(t, cs, full), cs) is Some,
        resolve(t, cs) is Some ==> insert(t, cs, full) == t,
        resolve(t, cs) is None ==> {
            &&& find_file(insert(t, cs, full), cs) == Some((insert(t, cs, full).len() - 1) as NodeId)
            &&& insert(t, cs, full).last().fullpath == Some(full)
            &&& file_ids(insert(t, cs, full), insert(t, cs, full).len() as int) == file_ids(
                t,
                t.len() as int,
            ).push((insert(t, cs, full).len() - 1) as NodeId)
        },
{
    let k = matched_len(t, cs) as int;
    let n = cs.len() as int;
    lemma_matched_len(t, cs);
    if resolve(t, cs) is Some {
        assert(k == n);
    } else {
        let new = insert(t, cs, full);
        let attach = attach_point(t, cs);
        lemma_insert_extends(t, cs, full);
        lemma_extended_wf(t, k, attach, cs, full);
        lemma_extended_entries(t, k, attach, cs, full, n);
        let last = new.len() - 1;
        lemma_extended_paths(t, k, attach, cs, full, last);
        assert(cs.take(n) =~= cs);
        lemma_resolve_path_of(new, last);
        lemma_extended_files(t, k, attach, cs, full, new.len() as int);
    }
}

/// Inserting a path a second time changes nothing.
pub proof fn law_insert_idempotent(t: Seq<Entry>, cs: Seq<Seq<char>>, full: Seq<char>)
    requires
        can_insert(t, cs, full),
    ensures
        insert(insert(t, cs, full), cs, full) == insert(t, cs, full),
{
    law_insert(t, cs, full);
    let new = insert(t, cs, full);
    assert(matched_len(new, cs) == cs.len());
}

/// Marks that are all unselected are consistent, and no leaf is selected.
pub proof fn law_unselected_consistent(t: Seq<Entry>, k: int)
    requires
        wf_arena(t),
        0 <= k <= t.len(),
    ensures
        marks_consistent(t, unselected(t.len())),
        selected_leaves(t, unselected(t.len()), k) == 0,
    decreases k,
{
    let m = unselected(t.len());
    assert forall|i: int| 0 <= i < t.len() implies #[trigger] m[i] == aggregate(t, m, i) by {
        if !is_leaf(t, i) {
            assert(wf_child(t, i, 0));
            assert(m[t[i].children[0] as int] == Mark::Unselected);
            assert forall|j: int| 0 <= j < t[i].children.len() implies m[#[trigger] t[i].children[j] as int]
                == Mark::Unselected by {
                assert(wf_child(t, i, j));
            }
        }
    }
    if k > 0 {
        law_unselected_consistent(t, k - 1);
    }
}

/// Where the marks are consistent, a directory is selected if and only if
/// every node below it is selected, and unselected if and only if every node
/// below it is unselected.
pub proof fn law_consistent_marks_cover(t: Seq<Entry>, m: Seq<Mark>, n: int, x: Mark)
    requires
        wf_arena(t),
        marks_consistent(t, m),
        0 <= n < t.len(),
        !is_leaf(t, n),
        x != Mark::PartiallySelected,
    ensures
        m[n] == x <==> forall|d: int| 0 <= d < t.len() && d != n && in_subtree(t, d, n) ==> m[d] == x,
{
    if m[n] == x {
        assert forall|d: int| 0 <= d < t.len() && d != n && in_subtree(t, d, n) implies m[d]
            == x by {
            lemma_mark_covers_subtree(t, m, d, n);
        }
    }
    if forall|d: int| 0 <= d < t.len() && d != n && in_subtree(t, d, n) ==> m[d] == x {
        assert forall|j: int| 0 <= j < t[n].children.len() implies m[#[trigger] t[n].children[j] as int]
            == x by {
            assert(wf_child(t, n, j));
            let c = t[n].children[j] as int;
            assert(in_subtree(t, n, n));
            assert(in_subtree(t, c, n));
        }
        assert(m[n] == aggregate(t, m, n));
        assert(wf_child(t, n, 0));
        assert(m[t[n].children[0] as int] == x);
    }
}

/// The text of the path that leads to a node has the names on the way to
/// the node as its components; for a file they are the components of the
/// path it was inserted under.
pub proof fn law_path_round_trip(t: Seq<Entry>, i: int)
    requires
        wf_arena(t),
        0 <= i < t.len(),
    ensures
        components(join(path_of(t, i))) == path_of(t, i),
        is_file(t, i) ==> components(join(path_of(t, i))) == components(t[i].fullpath->0),
        is_file(t, i) ==> find_file(t, components(join(path_of(t, i)))) == Some(i as NodeId),
{
    lemma_path_valid(t, i);
    lemma_components_of_join(path_of(t, i));
    lemma_resolve_path_of(t, i);
    if is_file(t, i) {
        assert(wf_file(t, i));
    }
}

/// Whether the component sequence `a` is the beginning of `b`.
pub open spec fn is_prefix(a: Seq<Seq<char>>, b: Seq<Seq<char>>) -> bool {
    a.len() <= b.len() && b.take(a.len() as int) == a
}

/// Whether none of the paths `ps` is the beginning of, or the same as, a path
/// before it.
pub open spec fn fresh(ps: Seq<Seq<char>>) -> bool {
    forall|i: int, j: int|
        0 <= i < j < ps.len() ==> !is_prefix(components(#[trigger] ps[j]), components(#[trigger] ps[i]))
}

/// Whether `ids` rise strictly.
pub open spec fn rising(ids: Seq<NodeId>) -> bool {
    forall|i: int, j: int| 0 <= i < j < ids.len() ==> ids[i] < ids[j]
}

/// A node whose path is the beginning of the path of another node was
/// created no later than that node.
pub proof fn lemma_prefix_is_older(t: Seq<Entry>, a: int, b: int)
    requires
        wf_arena(t),
        0 <= a < t.len(),
        0 <= b < t.len(),
        is_prefix(path_of(t, a), path_of(t, b)),
    ensures
        a <= b,
    decreases b,
{
    let pa = path_of(t, a);
    let pb = path_of(t, b);
    if pa.len() == pb.len() {
        assert(pb.take(pb.len() as int) =~= pb);
        lemma_resolve_path_of(t, a);
        lemma_resolve_path_of(t, b);
    } else {
        lemma_path_valid(t, b);
        assert(wf_node(t, b));
        let p = t[b].parent->0 as int;
        assert(pb.drop_last() =~= path_of(t, p));
        assert(path_of(t, p).take(pa.len() as int) =~= pb.take(pa.len() as int));
        lemma_prefix_is_older(t, a, p);
    }
}

/// The paths of files that are listed in the order of their creation are
/// fresh.
pub proof fn lemma_file_paths_fresh(t: Seq<Entry>, ids: Seq<NodeId>)
    requires
        wf_arena(t),
        rising(ids),
        forall|k: int| 0 <= k < ids.len() ==> ids[k] < t.len() && is_file(t, #[trigger] ids[k] as int),
    ensures
        fresh(paths_of_ids(t, ids)),
{
    let ps = paths_of_ids(t, ids);
    assert forall|i: int, j: int| 0 <= i < j < ps.len() implies !is_prefix(
        components(#[trigger] ps[j]),
        components(#[trigger] ps[i]),
    ) by {
        assert(wf_file(t, ids[i] as int));
        assert(wf_file(t, ids[j] as int));
        if is_prefix(components(ps[j]), components(ps[i])) {
            lemma_prefix_is_older(t, ids[j] as int, ids[i] as int);
        }
    }
}

/// The members with one mark of a rising list of ids rise, and stay under
/// every bound of the list.
pub proof fn lemma_ids_with_mark_rising(m: Seq<Mark>, ids: Seq<NodeId>, x: Mark, bound: int)
    requires
        rising(ids),
        forall|k: int| 0 <= k < ids.len() ==> ids[k] < bound,
    ensures
        rising(ids_with_mark(m, ids, x)),
        ids_with_mark(m, ids, x).len() <= ids.len(),
        forall|k: int|
            0 <= k < ids_with_mark(m, ids, x).len() ==> ids_with_mark(m, ids, x)[k] < bound,
    decreases ids.len(),
{
    if ids.len() > 0 {
        let init = ids.drop_last();
        assert forall|k: int| 0 <= k < init.len() implies init[k] < ids.last() by {
            assert(init[k] == ids[k]);
        }
        assert(rising(init)) by {
            assert forall|i: int, j: int| 0 <= i < j < init.len() implies init[i] < init[j] by {
                assert(init[i] == ids[i] && init[j] == ids[j]);
            }
        }
        lemma_ids_with_mark_rising(m, init, x, ids.last() as int);
        assert(ids[ids.len() - 1] < bound);
    }
}

/// A path that leads to a node after an insertion led to a node before, or
/// is a beginning of the inserted path.
pub proof fn lemma_insert_reachable(
    t: Seq<Entry>,
    cs: Seq<Seq<char>>,
    full: Seq<char>,
    q: Seq<Seq<char>>,
)
    requires
        can_insert(t, cs, full),
        resolve(insert(t, cs, full), q) is Some,
    ensures
        resolve(t, q) is Some || is_prefix(q, cs),
{
    if resolve(t, cs) is None {
        let new = insert(t, cs, full);
        let k = matched_len(t, cs) as int;
        let attach = attach_point(t, cs);
        law_insert(t, cs, full);
        lemma_insert_extends(t, cs, full);
        lemma_path_of_resolve(new, q);
        let i = resolve(new, q)->0 as int;
        lemma_extended_paths(t, k, attach, cs, full, i);
        if i < t.len() {
            lemma_resolve_path_of(t, i);
        } else {
            let l = i - t.len() + k + 1;
            assert(cs.take(l).len() == l);
        }
    } else {
        law_insert(t, cs, full);
    }
}

/// An insertion adds nodes and takes none away.
pub proof fn lemma_insert_grows(t: Seq<Entry>, cs: Seq<Seq<char>>, full: Seq<char>)
    ensures
        t.len() <= insert(t, cs, full).len(),
{
    lemma_matched_len(t, cs);
}

/// The arena of a tree that holds no path is a tree of paths without files.
pub proof fn lemma_empty_tree()
    ensures
        wf_arena(seq![root_entry()]),
        file_ids(seq![root_entry()], 1) == Seq::<NodeId>::empty(),
{
    let t = seq![root_entry()];
    assert(file_ids(t, 0) =~= Seq::<NodeId>::empty());
}

/// Fresh paths that are inserted into an empty tree one after the other
/// give a tree of paths whose files are these paths, in their order.
pub proof fn law_insert_all_files(ps: Seq<Seq<char>>)
    requires
        all_have_file_names(ps),
        fresh(ps),
        insert_all(seq![root_entry()], ps).len() <= usize::MAX,
    ensures
        wf_arena(insert_all(seq![root_entry()], ps)),
        paths_of_ids(
            insert_all(seq![root_entry()], ps),
            file_ids(
                insert_all(seq![root_entry()], ps),
                insert_all(seq![root_entry()], ps).len() as int,
            ),
        ) == ps,
    decreases ps.len(), 1int,
{
    let root = seq![root_entry()];
    lemma_empty_tree();
    if ps.len() == 0 {
        assert(paths_of_ids(root, Seq::<NodeId>::empty()) =~= ps);
    } else {
        let init = ps.drop_last();
        let p = ps.last();
        let cs = components(p);
        let before = insert_all(root, init);
        let after = insert_all(root, ps);
        lemma_insert_grows(before, cs, p);
        assert(fresh(init)) by {
            assert forall|i: int, j: int| 0 <= i < j < init.len() implies !is_prefix(
                components(#[trigger] init[j]),
                components(#[trigger] init[i]),
            ) by {
                assert(init[i] == ps[i] && init[j] == ps[j]);
            }
        }
        assert(all_have_file_names(init)) by {
            assert forall|i: int| 0 <= i < init.len() implies has_file_name(
                components(#[trigger] init[i]),
            ) by {
                assert(init[i] == ps[i]);
            }
        }
        law_insert_all_files(init);
        assert(has_file_name(components(ps[ps.len() - 1])));
        assert(can_insert(before, cs, p));
        if resolve(before, cs) is Some {
            let i = lemma_insert_all_reachable(init, cs);
            assert(ps[i] == init[i]);
            assert(is_prefix(components(ps[ps.len() - 1]), components(ps[i])));
        }
        law_insert(before, cs, p);
        lemma_insert_extends(before, cs, p);
        let k = matched_len(before, cs) as int;
        let attach = attach_point(before, cs);
        lemma_extended_entries(before, k, attach, cs, p, cs.len() as int);
        let old_ids = file_ids(before, before.len() as int);
        let new_ids = file_ids(after, after.len() as int);
        lemma_file_ids(before, before.len() as int);
        assert forall|x: int| 0 <= x < new_ids.len() implies paths_of_ids(after, new_ids)[x]
            == ps[x] by {
            if x < old_ids.len() {
                let id = old_ids[x] as int;
                assert(new_ids[x] == old_ids[x]);
                assert(after[id].fullpath == before[id].fullpath);
                assert(paths_of_ids(before, old_ids)[x] == init[x]);
            }
        }
        assert(paths_of_ids(before, old_ids).len() == init.len());
        assert(paths_of_ids(after, new_ids) =~= ps);
    }
}

/// A path that leads to a node of a tree made of fresh paths is empty or
/// the beginning of one of them.
pub proof fn lemma_insert_all_reachable(ps: Seq<Seq<char>>, q: Seq<Seq<char>>) -> (i: int)
    requires
        all_have_file_names(ps),
        fresh(ps),
        insert_all(seq![root_entry()], ps).len() <= usize::MAX,
        resolve(insert_all(seq![root_entry()], ps), q) is Some,
        q.len() > 0,
    ensures
        0 <= i < ps.len(),
        is_prefix(q, components(ps[i])),
    decreases ps.len(), 0int,
{
    let root = seq![root_entry()];
    if ps.len() == 0 {
        // the root has no child
        lemma_resolve_prefix(root, q, 1);
        let one = q.take(1);
        assert(one.drop_last() =~= Seq::<Seq<char>>::empty());
        assert(resolve(root, one.drop_last()) == Some(0usize));
        let c = choose|c: NodeId| crate::shape::is_child_with_key(root, 0, c, one.last());
        assert(root[0].children.contains(c));
        0
    } else {
        let init = ps.drop_last();
        let p = ps.last();
        let cs = components(p);
        let before = insert_all(root, init);
        lemma_insert_grows(before, cs, p);
        assert(fresh(init)) by {
            assert forall|i: int, j: int| 0 <= i < j < init.len() implies !is_prefix(
                components(#[trigger] init[j]),
                components(#[trigger] init[i]),
            ) by {
                assert(init[i] == ps[i] && init[j] == ps[j]);
            }
        }
        assert(all_have_file_names(init)) by {
            assert forall|i: int| 0 <= i < init.len() implies has_file_name(
                components(#[trigger] init[i]),
            ) by {
                assert(init[i] == ps[i]);
            }
        }
        law_insert_all_files(init);
        assert(has_file_name(components(ps[ps.len() - 1])));
        assert(can_insert(before, cs, p));
        lemma_insert_reachable(before, cs, p, q);
        if resolve(before, q) is Some {
            let i = lemma_insert_all_reachable(init, q);
            assert(init[i] == ps[i]);
            i
        } else {
            ps.len() - 1
        }
    }
}

/// Whether the selected leaves are the files that are not unselected: no
/// file has children or is partially selected, unless it is unselected, and
/// no leaf but a file is selected.
pub open spec fn selected_leaves_are_spent_files(t: Seq<Entry>, m: Seq<Mark>) -> bool {
    forall|i: int|
        0 <= i < t.len() ==> ((#[trigger] is_leaf(t, i) && m[i] == Mark::Selected) <==> (is_file(t, i)
            && m[i] != Mark::Unselected))
}

/// In a tree in which no file has children and no file is partially
/// selected, and whose root is not selected while the tree holds no path,
/// the selected leaves are the files that are not unselected.
pub proof fn law_selected_leaves_are_spent_files(t: Seq<Entry>, m: Seq<Mark>)
    requires
        wf_arena(t),
        m.len() == t.len(),
        is_leaf(t, 0) ==> m[0] != Mark::Selected,
        forall|i: int|
            0 <= i < t.len() && #[trigger] is_file(t, i) ==> is_leaf(t, i) && m[i]
                != Mark::PartiallySelected,
    ensures
        selected_leaves_are_spent_files(t, m),
{
    assert forall|i: int| 0 <= i < t.len() implies ((#[trigger] is_leaf(t, i) && m[i]
        == Mark::Selected) <==> (is_file(t, i) && m[i] != Mark::Unselected)) by {
        if is_file(t, i) {
            assert(is_leaf(t, i));
        }
        if is_leaf(t, i) && i >= 1 {
            assert(is_file(t, i));
        }
    }
}

/// Where the selected leaves are the files that are not unselected, the
/// unselected files and the selected leaves together are all the files.
pub proof fn lemma_unselected_and_selected(t: Seq<Entry>, m: Seq<Mark>, k: int)
    requires
        0 <= k <= t.len() <= usize::MAX,
        m.len() == t.len(),
        selected_leaves_are_spent_files(t, m),
    ensures
        ids_with_mark(m, file_ids(t, k), Mark::Unselected).len() + selected_leaves(t, m, k)
            == file_ids(t, k).len(),
    decreases k,
{
    if k > 0 {
        lemma_unselected_and_selected(t, m, k - 1);
        let i = k - 1;
        assert((is_leaf(t, i) && m[i] == Mark::Selected) <==> (is_file(t, i) && m[i]
            != Mark::Unselected));
        if is_file(t, i) {
            crate::tree::lemma_ids_with_mark_push(
                m,
                file_ids(t, i),
                i as NodeId,
                Mark::Unselected,
            );
        }
    }
}

} // verus!
