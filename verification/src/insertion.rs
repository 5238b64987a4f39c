//! What insertion of a path does to the shape of a tree.

use crate::path::{components, has_file_name, valid_components};
use crate::shape::{
    child_with_key, file_ids, is_child_with_key, is_file, is_leaf, lemma_resolve_prefix,
    matched_len, path_of, resolve, wf_arena, wf_child, wf_file, wf_node, wf_root, Entry, NodeId,
};
use vstd::prelude::*;

verus! {

/// The node where insertion of `cs` leaves the nodes that exist: the one that
/// the longest prefix of `cs` with a node leads to.
pub open spec fn attach_point(t: Seq<Entry>, cs: Seq<Seq<char>>) -> NodeId {
    resolve(t, cs.take(matched_len(t, cs) as int))->0
}

/// The entry of the node that stands for component `j` of `cs`, where the
/// nodes for the components from `k` on follow each other in the arena
/// from index `base`, those before `upto` exist, and the first of them hangs
/// under `attach`. The node of the last component is the file, under the path
/// `full`.
pub open spec fn created_entry(
    base: int,
    k: int,
    attach: NodeId,
    cs: Seq<Seq<char>>,
    full: Seq<char>,
    upto: int,
    j: int,
) -> Entry {
    Entry {
        key: Some(cs[j]),
        fullpath: if j + 1 == cs.len() {
            Some(full)
        } else {
            None
        },
        parent: Some(
            if j == k {
                attach
            } else {
                (base + j - k - 1) as NodeId
            },
        ),
        children: if j + 1 == upto {
            Seq::empty()
        } else {
            seq![(base + j - k + 1) as NodeId]
        },
    }
}

/// The arena `t` with the nodes for the components `k..upto` of `cs` added
/// under `attach`.
pub open spec fn extended(
    t: Seq<Entry>,
    k: int,
    attach: NodeId,
    cs: Seq<Seq<char>>,
    full: Seq<char>,
    upto: int,
) -> Seq<Entry> {
    if upto <= k {
        t
    } else {
        let base = t.len() as int;
        t.update(
            attach as int,
            Entry { children: t[attach as int].children.push(base as NodeId), ..t[attach as int] },
        ) + Seq::new(
            (upto - k) as nat,
            |d: int| created_entry(base, k, attach, cs, full, upto, k + d),
        )
    }
}

/// The shape of a tree after the path with the components `cs` and the text
/// `full` was inserted: the nodes that a prefix of `cs` leads to stay, and one
/// node is added for each further component, each the only child of the one
/// before it, the last one a file.
pub open spec fn insert(t: Seq<Entry>, cs: Seq<Seq<char>>, full: Seq<char>) -> Seq<Entry> {
    extended(t, matched_len(t, cs) as int, attach_point(t, cs), cs, full, cs.len() as int)
}

/// The shape of a tree after the normalised paths `paths` were inserted one
/// after the other.
pub open spec fn insert_all(t: Seq<Entry>, paths: Seq<Seq<char>>) -> Seq<Entry>
    decreases paths.len(),
{
    if paths.len() == 0 {
        t
    } else {
        insert(insert_all(t, paths.drop_last()), components(paths.last()), paths.last())
    }
}

/// The longest prefix of `cs` with a node leads to a node, and that node has
/// no child for the component that follows.
pub proof fn lemma_matched_len(t: Seq<Entry>, cs: Seq<Seq<char>>)
    ensures
        matched_len(t, cs) <= cs.len(),
        resolve(t, cs.take(matched_len(t, cs) as int)) is Some,
        matched_len(t, cs) < cs.len() ==> child_with_key(
            t,
            attach_point(t, cs) as int,
            cs[matched_len(t, cs) as int],
        ) is None,
    decreases cs.len(),
{
    let k = matched_len(t, cs) as int;
    if cs.len() == 0 {
        assert(cs.take(0) =~= cs);
    } else if resolve(t, cs) is Some {
        assert(cs.take(k) =~= cs);
    } else {
        let init = cs.drop_last();
        lemma_matched_len(t, init);
        assert(init.take(k) =~= cs.take(k));
        if k == init.len() {
            assert(cs.take(k) =~= init);
        } else {
            assert(init[k] == cs[k]);
        }
    }
}

/// A prefix of `cs` that leads to a node which has no child for the next
/// component is the longest prefix with a node.
pub proof fn lemma_matched_len_is(t: Seq<Entry>, cs: Seq<Seq<char>>, j: int)
    requires
        0 <= j <= cs.len(),
        resolve(t, cs.take(j)) is Some,
        j < cs.len() ==> child_with_key(t, resolve(t, cs.take(j))->0 as int, cs[j]) is None,
    ensures
        matched_len(t, cs) == j,
    decreases cs.len(),
{
    if j == cs.len() {
        assert(cs.take(j) =~= cs);
    } else {
        let init = cs.drop_last();
        if resolve(t, cs) is Some {
            lemma_resolve_prefix(t, cs, j + 1);
            assert(cs.take(j + 1).drop_last() =~= cs.take(j));
            assert(cs.take(j + 1).last() == cs[j]);
        }
        assert(init.take(j) =~= cs.take(j));
        if j < init.len() {
            assert(init[j] == cs[j]);
        }
        lemma_matched_len_is(t, init, j);
    }
}

/// The path of a node depends on the names and parents of the nodes up to it
/// alone.
pub proof fn lemma_path_of_frame(t1: Seq<Entry>, t2: Seq<Entry>, i: int)
    requires
        0 <= i < t1.len() <= t2.len(),
        forall|x: int| 0 <= x <= i ==> (#[trigger] t1[x]).parent == t2[x].parent && t1[x].key == t2[x].key,
    ensures
        path_of(t1, i) == path_of(t2, i),
    decreases i,
{
    if 0 < i && t1[i].parent is Some && t1[i].parent->0 < i {
        lemma_path_of_frame(t1, t2, t1[i].parent->0 as int);
    }
}

/// The files among the first `k` nodes depend on those nodes alone.
pub proof fn lemma_file_ids_frame(t1: Seq<Entry>, t2: Seq<Entry>, k: int)
    requires
        0 <= k <= t1.len() <= t2.len(),
        forall|x: int| 0 <= x < k ==> (#[trigger] t1[x]).fullpath == t2[x].fullpath,
    ensures
        file_ids(t1, k) == file_ids(t2, k),
    decreases k,
{
    if k > 0 {
        lemma_file_ids_frame(t1, t2, k - 1);
    }
}

/// The conditions under which nodes for the components `k..` of `cs` are
/// added to `t` under `attach`.
pub open spec fn can_extend(
    t: Seq<Entry>,
    k: int,
    attach: NodeId,
    cs: Seq<Seq<char>>,
    full: Seq<char>,
) -> bool {
    &&& wf_arena(t)
    &&& 0 <= k < cs.len()
    &&& attach < t.len()
    &&& path_of(t, attach as int) == cs.take(k)
    &&& child_with_key(t, attach as int, cs[k]) is None
    &&& valid_components(cs)
    &&& has_file_name(cs)
    &&& components(full) == cs
    &&& t.len() + cs.len() - k <= usize::MAX
}

/// The entries of an extended arena, one by one.
pub proof fn lemma_extended_entries(
    t: Seq<Entry>,
    k: int,
    attach: NodeId,
    cs: Seq<Seq<char>>,
    full: Seq<char>,
    upto: int,
)
    requires
        0 <= k < upto <= cs.len(),
        attach < t.len(),
    ensures
        extended(t, k, attach, cs, full, upto).len() == t.len() + upto - k,
        forall|i: int|
            0 <= i < t.len() && i != attach ==> #[trigger] extended(t, k, attach, cs, full, upto)[i]
                == t[i],
        extended(t, k, attach, cs, full, upto)[attach as int] == (Entry {
            children: t[attach as int].children.push(t.len() as NodeId),
            ..t[attach as int]
        }),
        forall|i: int|
            t.len() <= i < t.len() + upto - k ==> #[trigger] extended(
                t,
                k,
                attach,
                cs,
                full,
                upto,
            )[i] == created_entry(t.len() as int, k, attach, cs, full, upto, i - t.len() + k),
{
}

/// In an extended arena the nodes that were there keep their paths, and the
/// node added for a component has the components up to it as its path.
pub proof fn lemma_extended_paths(
    t: Seq<Entry>,
    k: int,
    attach: NodeId,
    cs: Seq<Seq<char>>,
    full: Seq<char>,
    i: int,
)
    requires
        can_extend(t, k, attach, cs, full),
        0 <= i < t.len() + cs.len() - k,
    ensures
        i < t.len() ==> path_of(extended(t, k, attach, cs, full, cs.len() as int), i) == path_of(
            t,
            i,
        ),
        i >= t.len() ==> path_of(extended(t, k, attach, cs, full, cs.len() as int), i) == cs.take(
            i - t.len() + k + 1,
        ),
    decreases i,
{
    let n = cs.len() as int;
    let new = extended(t, k, attach, cs, full, n);
    let base = t.len() as int;
    lemma_extended_entries(t, k, attach, cs, full, n);
    if i < base {
        assert forall|x: int| 0 <= x <= i implies (#[trigger] t[x]).parent == new[x].parent
            && t[x].key == new[x].key by {
            if x != attach {
                assert(new[x] == t[x]);
            }
        }
        lemma_path_of_frame(t, new, i);
    } else {
        let j = i - base + k;
        assert(new[i] == created_entry(base, k, attach, cs, full, n, j));
        let p = new[i].parent->0 as int;
        lemma_extended_paths(t, k, attach, cs, full, p);
        assert(path_of(new, i) == path_of(new, p).push(cs[j]));
        assert(cs.take(j).push(cs[j]) =~= cs.take(j + 1));
    }
}

/// In an extended arena every node but the root has its name and hangs
/// under its parent.
pub proof fn lemma_extended_nodes(
    t: Seq<Entry>,
    k: int,
    attach: NodeId,
    cs: Seq<Seq<char>>,
    full: Seq<char>,
)
    requires
        can_extend(t, k, attach, cs, full),
    ensures
        wf_root(extended(t, k, attach, cs, full, cs.len() as int)),
        forall|i: int|
            1 <= i < t.len() + cs.len() - k ==> #[trigger] wf_node(
                extended(t, k, attach, cs, full, cs.len() as int),
                i,
            ),
{
    let n = cs.len() as int;
    let new = extended(t, k, attach, cs, full, n);
    let base = t.len() as int;
    lemma_extended_entries(t, k, attach, cs, full, n);
    assert(new[0].key == t[0].key && new[0].parent == t[0].parent && new[0].fullpath
        == t[0].fullpath);
    assert forall|i: int| 1 <= i < base + n - k implies #[trigger] wf_node(new, i) by {
        if i < base {
            assert(wf_node(t, i));
            assert(new[i].key == t[i].key && new[i].parent == t[i].parent);
            let p = t[i].parent->0 as int;
            let x = choose|x: int| 0 <= x < t[p].children.len() && t[p].children[x] == i as NodeId;
            if p == attach {
                assert(new[p].children[x] == i as NodeId);
            } else {
                assert(new[p] == t[p]);
            }
        } else {
            let j = i - base + k;
            assert(new[i] == created_entry(base, k, attach, cs, full, n, j));
            if j == k {
                assert(new[attach as int].children[t[attach as int].children.len() as int]
                    == i as NodeId);
                if k == 0 {
                    assert(cs.take(0) =~= Seq::<Seq<char>>::empty());
                    if attach != 0 {
                        crate::shape::lemma_path_valid(t, attach as int);
                    }
                }
            } else {
                assert(new[i - 1] == created_entry(base, k, attach, cs, full, n, j - 1));
                assert(new[i - 1].children[0] == i as NodeId);
            }
        }
    }
}

/// In an extended arena every child was created after its parent and names
/// it, and no two children of a node go by one name.
pub proof fn lemma_extended_children(
    t: Seq<Entry>,
    k: int,
    attach: NodeId,
    cs: Seq<Seq<char>>,
    full: Seq<char>,
)
    requires
        can_extend(t, k, attach, cs, full),
    ensures
        forall|i: int, j: int|
            0 <= i < t.len() + cs.len() - k && 0 <= j < extended(
                t,
                k,
                attach,
                cs,
                full,
                cs.len() as int,
            )[i].children.len() ==> #[trigger] wf_child(
                extended(t, k, attach, cs, full, cs.len() as int),
                i,
                j,
            ),
        forall|i: int, j1: int, j2: int|
            #![trigger extended(t, k, attach, cs, full, cs.len() as int)[i].children[j1], extended(t, k, attach, cs, full, cs.len() as int)[i].children[j2]]
            0 <= i < t.len() + cs.len() - k && 0 <= j1 < j2 < extended(
                t,
                k,
                attach,
                cs,
                full,
                cs.len() as int,
            )[i].children.len() ==> extended(t, k, attach, cs, full, cs.len() as int)[extended(
                t,
                k,
                attach,
                cs,
                full,
                cs.len() as int,
            )[i].children[j1] as int].key != extended(t, k, attach, cs, full, cs.len() as int)[extended(
                t,
                k,
                attach,
                cs,
                full,
                cs.len() as int,
            )[i].children[j2] as int].key,
{
    let n = cs.len() as int;
    let new = extended(t, k, attach, cs, full, n);
    let base = t.len() as int;
    lemma_extended_entries(t, k, attach, cs, full, n);
    assert forall|i: int, j: int|
        0 <= i < base + n - k && 0 <= j < new[i].children.len() implies #[trigger] wf_child(
        new,
        i,
        j,
    ) by {
        if i < base {
            if i == attach && j == t[i].children.len() {
                assert(new[base] == created_entry(base, k, attach, cs, full, n, k));
            } else {
                assert(new[i].children[j] == t[i].children[j]);
                assert(wf_child(t, i, j));
                let c = t[i].children[j] as int;
                assert(new[c].parent == t[c].parent);
            }
        } else {
            let jj = i - base + k;
            assert(new[i] == created_entry(base, k, attach, cs, full, n, jj));
            assert(new[i + 1] == created_entry(base, k, attach, cs, full, n, jj + 1));
        }
    }
    assert forall|i: int, j1: int, j2: int|
        0 <= i < base + n - k && 0 <= j1 < j2 < new[i].children.len() implies new[new[i].children[j1] as int].key
        != new[new[i].children[j2] as int].key by {
        if i < base {
            assert(wf_child(t, i, j1));
            assert(new[i].children[j1] == t[i].children[j1]);
            let c1 = t[i].children[j1];
            assert(new[c1 as int].key == t[c1 as int].key);
            if i == attach && j2 == t[i].children.len() {
                assert(new[base] == created_entry(base, k, attach, cs, full, n, k));
                assert(t[i].children.contains(c1));
                if t[c1 as int].key == Some(cs[k]) {
                    assert(is_child_with_key(t, attach as int, c1, cs[k]));
                }
            } else {
                assert(wf_child(t, i, j2));
                assert(new[i].children[j2] == t[i].children[j2]);
                let c2 = t[i].children[j2];
                assert(new[c2 as int].key == t[c2 as int].key);
                assert(t[t[i].children[j1] as int].key != t[t[i].children[j2] as int].key);
            }
        } else {
            let jj = i - base + k;
            assert(new[i] == created_entry(base, k, attach, cs, full, n, jj));
        }
    }
}

/// The files of an extended arena are those that were there and the node of
/// the last component.
pub proof fn lemma_extended_files(
    t: Seq<Entry>,
    k: int,
    attach: NodeId,
    cs: Seq<Seq<char>>,
    full: Seq<char>,
    upto: int,
)
    requires
        can_extend(t, k, attach, cs, full),
        t.len() <= upto <= t.len() + cs.len() - k,
    ensures
        file_ids(extended(t, k, attach, cs, full, cs.len() as int), upto) == if upto == t.len()
            + cs.len() - k {
            file_ids(t, t.len() as int).push((upto - 1) as NodeId)
        } else {
            file_ids(t, t.len() as int)
        },
    decreases upto,
{
    let n = cs.len() as int;
    let new = extended(t, k, attach, cs, full, n);
    let base = t.len() as int;
    lemma_extended_entries(t, k, attach, cs, full, n);
    if upto == base {
        assert forall|x: int| 0 <= x < base implies (#[trigger] t[x]).fullpath
            == new[x].fullpath by {
            if x != attach {
                assert(new[x] == t[x]);
            }
        }
        lemma_file_ids_frame(t, new, base);
    } else {
        lemma_extended_files(t, k, attach, cs, full, upto - 1);
        assert(new[upto - 1] == created_entry(base, k, attach, cs, full, n, upto - 1 - base + k));
    }
}

/// An extended arena is a tree of paths.
pub proof fn lemma_extended_wf(
    t: Seq<Entry>,
    k: int,
    attach: NodeId,
    cs: Seq<Seq<char>>,
    full: Seq<char>,
)
    requires
        can_extend(t, k, attach, cs, full),
    ensures
        wf_arena(extended(t, k, attach, cs, full, cs.len() as int)),
{
    let n = cs.len() as int;
    let new = extended(t, k, attach, cs, full, n);
    let base = t.len() as int;
    lemma_extended_entries(t, k, attach, cs, full, n);
    lemma_extended_nodes(t, k, attach, cs, full);
    lemma_extended_children(t, k, attach, cs, full);
    assert forall|i: int| 0 <= i < new.len() && #[trigger] is_file(new, i) implies wf_file(
        new,
        i,
    ) by {
        lemma_extended_paths(t, k, attach, cs, full, i);
        if i < base {
            assert(new[i].fullpath == t[i].fullpath && new[i].key == t[i].key);
            assert(is_file(t, i));
            assert(wf_file(t, i));
        } else {
            assert(new[i] == created_entry(base, k, attach, cs, full, n, i - base + k));
            assert(cs.take(n) =~= cs);
        }
    }
    assert forall|i: int| 1 <= i < new.len() && !is_file(new, i) implies !#[trigger] is_leaf(
        new,
        i,
    ) by {
        if i < base {
            assert(new[i].fullpath == t[i].fullpath);
            assert(!is_file(t, i));
            assert(!is_leaf(t, i));
        } else {
            assert(new[i] == created_entry(base, k, attach, cs, full, n, i - base + k));
        }
    }
}

} // verus!
