use git_split::tree::{Mark, NodeId, Tree, TreeError};

// .
// └── a
//     ├── b
//     │   ├── c
//     │   │   ├── file.txt
//     │   │   └── file2.txt
//     │   └── file.txt
//     └── c
//         └── file.txt
// 8 nodes and the root
fn prepare_tree() -> Tree {
    let file_paths = vec![
        "./a/b/c/file.txt".to_string(),
        "./a/b/file.txt".to_string(),
        "./a/c/file.txt".to_string(),
        "a/b/c/file2.txt".to_string(),
    ];
    Tree::new_from_paths(file_paths).expect("")
}

fn check_parent(node_id: NodeId, tree: &Tree) {
    if let Some(parent_id) = tree.get_node(node_id).parent {
        assert_eq!(tree.get_node(parent_id).mark, Mark::PartiallySelected);
        check_parent(parent_id, tree);
    }
}

#[test]
fn test_new() {
    let tree = Tree::new_ptr();
    assert_eq!(tree.size(), 1);
}

#[test]
fn test_add() {
    let tree = prepare_tree();

    assert_eq!(tree.size(), 8 + 1);
    assert_eq!(tree.num_leaf_node, 4);
}

#[test]
fn test_mark() {
    let mut tree = prepare_tree();

    // a directory is no file: it is reached through a file below it
    assert_eq!(tree.find_node("a/b/c".to_string()), None);
    let file_id = tree.find_node("a/b/c/file.txt".to_string()).expect("");
    let node_id = tree.get_node(file_id).parent.expect("");
    assert_eq!(tree.get_path_buf(node_id), "a/b/c");

    tree.mark(node_id, Mark::Selected);

    let node_mark = tree.get_node(node_id).mark;
    assert_eq!(node_mark, Mark::Selected);
    for child in &tree.get_node(node_id).children {
        let node_mark = tree.get_node(*child).mark;
        assert_eq!(node_mark, Mark::Selected);
    }

    check_parent(node_id, &tree);

    assert_eq!(tree.num_selected, 2);

    let selected = tree.get_selected_file_paths();

    assert_eq!(selected.len(), 2);

    let remaining = tree.get_remaining_tree().expect("");

    assert_eq!(remaining.num_leaf_node, 2);
    assert_eq!(remaining.size(), 8 + 1 - 3);
}

#[test]
fn scenario_select_directory_then_spend() {
    let mut tree = Tree::new_ptr();
    for p in ["a/b/c/file.txt", "a/b/file.txt", "a/c/file.txt", "a/b/c/file2.txt"] {
        assert_eq!(tree.add(p.to_string()), Ok(()));
    }
    assert_eq!(tree.size(), 9);
    assert_eq!(tree.num_leaf_node, 4);

    let f1 = tree.find_node("a/b/c/file.txt".to_string()).unwrap();
    let f2 = tree.find_node("a/b/c/file2.txt".to_string()).unwrap();
    let abc = tree.get_node(f1).parent.unwrap();
    let ab = tree.get_node(abc).parent.unwrap();
    let a = tree.get_node(ab).parent.unwrap();
    assert_eq!(tree.get_path_buf(abc), "a/b/c");
    assert_eq!(tree.get_path_buf(ab), "a/b");
    assert_eq!(tree.get_path_buf(a), "a");
    assert_eq!(tree.get_node(a).parent, Some(tree.root_id()));

    tree.mark(abc, Mark::Selected);
    assert_eq!(tree.get_node(f1).mark, Mark::Selected);
    assert_eq!(tree.get_node(f2).mark, Mark::Selected);
    assert_eq!(tree.get_node(ab).mark, Mark::PartiallySelected);
    assert_eq!(tree.get_node(a).mark, Mark::PartiallySelected);
    assert_eq!(tree.num_selected, 2);
    assert_eq!(
        tree.get_selected_file_paths(),
        vec!["a/b/c/file.txt".to_string(), "a/b/c/file2.txt".to_string()]
    );

    let remaining = tree.get_remaining_tree().unwrap();
    assert_eq!(remaining.num_leaf_node, 2);
    assert_eq!(remaining.size(), 6);
    assert_eq!(remaining.num_selected, 0);
    let left_1 = remaining.find_node("a/b/file.txt".to_string()).unwrap();
    let left_2 = remaining.find_node("a/c/file.txt".to_string()).unwrap();
    assert_eq!(remaining.get_node(left_1).mark, Mark::Unselected);
    assert_eq!(remaining.get_node(left_2).mark, Mark::Unselected);
    assert_eq!(remaining.find_node("a/b/c/file.txt".to_string()), None);
    assert_eq!(remaining.find_node("a/b/c/file2.txt".to_string()), None);
}

#[test]
fn insert_normalises_the_path() {
    let mut tree = Tree::new_ptr();
    assert_eq!(tree.add("./x//y/../z/./file.txt".to_string()), Ok(()));
    assert_eq!(tree.size(), 4);
    let id = tree.find_node("x/z/file.txt".to_string()).unwrap();
    assert_eq!(tree.get_node(id).fullpath, Some("x/z/file.txt".to_string()));
    assert_eq!(tree.get_node(id).key, Some("file.txt".to_string()));
    assert_eq!(tree.find_node("x/./z//file.txt".to_string()), Some(id));
    assert_eq!(tree.get_path_buf(id), "x/z/file.txt");
}

#[test]
fn insert_twice_changes_nothing() {
    let mut tree = Tree::new_ptr();
    assert_eq!(tree.add("a/b/file.txt".to_string()), Ok(()));
    let size = tree.size();
    let leaves = tree.num_leaf_node;
    assert_eq!(tree.add("a/./b/file.txt".to_string()), Ok(()));
    assert_eq!(tree.size(), size);
    assert_eq!(tree.num_leaf_node, leaves);
    assert_eq!(size, 4);
    assert_eq!(leaves, 1);
}

#[test]
fn insert_refuses_a_path_without_file_name() {
    let mut tree = Tree::new_ptr();
    for p in [".", "", "..", "/", "a/..", "../..", "a/../.."] {
        assert_eq!(tree.add(p.to_string()), Err(TreeError::CannotGetFileNameError));
        assert_eq!(tree.size(), 1);
        assert_eq!(tree.num_leaf_node, 0);
    }
    assert_eq!(
        Tree::new_from_paths(vec!["a/file.txt".to_string(), "..".to_string()]).err(),
        Some(TreeError::CannotGetFileNameError)
    );
}

#[test]
fn rooted_and_relative_paths_are_kept_apart() {
    let mut tree = Tree::new_ptr();
    assert_eq!(tree.add("/a/file.txt".to_string()), Ok(()));
    assert_eq!(tree.add("a/file.txt".to_string()), Ok(()));
    assert_eq!(tree.add("../file.txt".to_string()), Ok(()));
    assert_eq!(tree.size(), 1 + 3 + 2 + 2);
    assert_eq!(tree.num_leaf_node, 3);
    let rooted = tree.find_node("/a/file.txt".to_string()).unwrap();
    let relative = tree.find_node("a/file.txt".to_string()).unwrap();
    let outside = tree.find_node("../file.txt".to_string()).unwrap();
    assert_eq!(tree.get_path_buf(rooted), "/a/file.txt");
    assert_eq!(tree.get_path_buf(relative), "a/file.txt");
    assert_eq!(tree.get_path_buf(outside), "../file.txt");
    assert_eq!(tree.get_path_buf(tree.root_id()), "");
}

#[test]
fn find_reports_only_files() {
    let tree = prepare_tree();
    assert_eq!(tree.find_node("a".to_string()), None);
    assert_eq!(tree.find_node("a/b".to_string()), None);
    assert_eq!(tree.find_node("a/b/c/missing.txt".to_string()), None);
    assert_eq!(tree.find_node("a/b/c/file.txt/deeper".to_string()), None);
    assert_eq!(tree.find_node(".".to_string()), None);
    assert!(tree.find_node("a/c/file.txt".to_string()).is_some());
    assert!(tree.find_cleaned("a/c/file.txt").is_some());
}

#[test]
fn marking_a_directory_reaches_every_leaf_below() {
    let mut tree = prepare_tree();
    let f = tree.find_node("a/b/file.txt".to_string()).unwrap();
    let ab = tree.get_node(f).parent.unwrap();
    let a = tree.get_node(ab).parent.unwrap();
    tree.mark(a, Mark::Selected);
    for p in ["a/b/c/file.txt", "a/b/file.txt", "a/c/file.txt", "a/b/c/file2.txt"] {
        let id = tree.find_node(p.to_string()).unwrap();
        assert_eq!(tree.get_node(id).mark, Mark::Selected);
    }
    assert_eq!(tree.get_root().mark, Mark::Selected);
    assert_eq!(tree.num_selected, 4);
    tree.mark(ab, Mark::Unselected);
    for p in ["a/b/c/file.txt", "a/b/file.txt", "a/b/c/file2.txt"] {
        let id = tree.find_node(p.to_string()).unwrap();
        assert_eq!(tree.get_node(id).mark, Mark::Unselected);
    }
    let kept = tree.find_node("a/c/file.txt".to_string()).unwrap();
    assert_eq!(tree.get_node(kept).mark, Mark::Selected);
    assert_eq!(tree.get_node(a).mark, Mark::PartiallySelected);
    assert_eq!(tree.num_selected, 1);
}

#[test]
fn directory_with_two_leaves_follows_its_leaves() {
    let mut tree =
        Tree::new_from_paths(vec!["d/one".to_string(), "d/two".to_string()]).unwrap();
    let one = tree.find_node("d/one".to_string()).unwrap();
    let two = tree.find_node("d/two".to_string()).unwrap();
    let d = tree.get_node(one).parent.unwrap();
    assert_eq!(tree.get_node(d).mark, Mark::Unselected);

    tree.mark(one, Mark::Selected);
    assert_eq!(tree.get_node(d).mark, Mark::PartiallySelected);
    assert_eq!(tree.num_selected, 1);

    tree.mark(two, Mark::Selected);
    assert_eq!(tree.get_node(d).mark, Mark::Selected);
    assert_eq!(tree.get_root().mark, Mark::Selected);
    assert_eq!(tree.num_selected, 2);

    tree.mark(one, Mark::Unselected);
    tree.mark(two, Mark::Unselected);
    assert_eq!(tree.get_node(d).mark, Mark::Unselected);
    assert_eq!(tree.get_root().mark, Mark::Unselected);
    assert_eq!(tree.num_selected, 0);
}

#[test]
fn remaining_tree_holds_the_unselected_files() {
    let mut tree = prepare_tree();
    let spent = tree.find_node("a/b/file.txt".to_string()).unwrap();
    tree.mark(spent, Mark::Selected);
    assert_eq!(tree.get_selected_file_paths(), vec!["a/b/file.txt".to_string()]);
    let remaining = tree.get_remaining_tree().unwrap();
    assert_eq!(remaining.num_leaf_node, tree.num_leaf_node - tree.num_selected);
    assert_eq!(remaining.num_leaf_node, 3);
    assert_eq!(remaining.find_node("a/b/file.txt".to_string()), None);
    for p in ["a/b/c/file.txt", "a/c/file.txt", "a/b/c/file2.txt"] {
        assert!(remaining.find_node(p.to_string()).is_some());
    }
}

#[test]
fn children_of_lists_the_direct_children() {
    let tree = prepare_tree();
    let root_children = tree.children_of(tree.root_id());
    assert_eq!(root_children.len(), 1);
    let a = root_children[0];
    let mut names: Vec<String> = tree
        .children_of(a)
        .iter()
        .map(|c| tree.get_node(*c).key.clone().unwrap())
        .collect();
    names.sort();
    assert_eq!(names, vec!["b".to_string(), "c".to_string()]);
    assert!(tree.get_node(a).children.len() == 2);
    assert!(!tree.get_node(a).is_leaf_node());
}

fn aggregate_of(tree: &Tree, id: NodeId) -> Mark {
    let node = tree.get_node(id);
    if node.is_leaf_node() {
        return node.mark;
    }
    let marks: Vec<Mark> = node.children.iter().map(|c| tree.get_node(*c).mark).collect();
    if marks.iter().all(|m| *m == Mark::Selected) {
        Mark::Selected
    } else if marks.iter().all(|m| *m == Mark::Unselected) {
        Mark::Unselected
    } else {
        Mark::PartiallySelected
    }
}

fn check_invariants(tree: &Tree) {
    let mut selected_leaves = 0;
    for id in 0..tree.size() {
        let node = tree.get_node(id);
        assert_eq!(node.mark, aggregate_of(tree, id));
        if node.is_leaf_node() && node.mark == Mark::Selected {
            selected_leaves += 1;
        }
        if let Some(parent) = node.parent {
            assert!(parent < id);
            assert!(tree.get_node(parent).children.contains(&id));
        }
    }
    assert_eq!(tree.num_selected, selected_leaves);
}

#[test]
fn invariants_hold_after_every_mark() {
    let mut tree = prepare_tree();
    check_invariants(&tree);
    let marks = [Mark::Selected, Mark::Unselected, Mark::PartiallySelected];
    let mut step = 0;
    for round in 0..3 {
        for id in 0..tree.size() {
            let mark = marks[(step + round) % 3];
            step += 1;
            tree.mark(id, mark);
            assert_eq!(tree.get_node(id).mark, mark);
            check_invariants(&tree);
            assert_eq!(tree.size(), 9);
            assert_eq!(tree.num_leaf_node, 4);
        }
    }
    tree.mark(tree.root_id(), Mark::Selected);
    assert_eq!(tree.num_selected, 4);
    tree.mark(tree.root_id(), Mark::Unselected);
    assert_eq!(tree.num_selected, 0);
}

#[test]
fn root_of_an_empty_tree_counts_as_a_leaf() {
    let mut tree = Tree::new_ptr();
    assert!(tree.get_root().is_leaf_node());
    assert_eq!(tree.get_root().key, None);
    assert_eq!(tree.get_root().fullpath, None);
    assert_eq!(tree.get_root().parent, None);
    tree.mark(tree.root_id(), Mark::Selected);
    assert_eq!(tree.get_root().mark, Mark::Selected);
    assert_eq!(tree.num_selected, 1);
    assert_eq!(tree.num_leaf_node, 0);
    assert_eq!(tree.get_selected_file_paths(), Vec::<String>::new());
    let remaining = tree.get_remaining_tree().unwrap();
    assert_eq!(remaining.size(), 1);
    assert_eq!(remaining.num_leaf_node, 0);
}

#[test]
fn a_path_below_a_file_hangs_under_it() {
    let mut tree = Tree::new_ptr();
    assert_eq!(tree.add("a".to_string()), Ok(()));
    assert_eq!(tree.add("a/b".to_string()), Ok(()));
    assert_eq!(tree.size(), 3);
    assert_eq!(tree.num_leaf_node, 2);
    let a = tree.find_node("a".to_string()).unwrap();
    let b = tree.find_node("a/b".to_string()).unwrap();
    assert_eq!(tree.get_node(b).parent, Some(a));
    assert!(!tree.get_node(a).is_leaf_node());
    // a directory that is inserted as a path later stays a directory
    let mut other = Tree::new_ptr();
    assert_eq!(other.add("a/b".to_string()), Ok(()));
    assert_eq!(other.add("a".to_string()), Ok(()));
    assert_eq!(other.size(), 3);
    assert_eq!(other.num_leaf_node, 1);
    assert_eq!(other.find_node("a".to_string()), None);
    // marking the lower file selects the upper one with it
    tree.mark(b, Mark::Selected);
    assert_eq!(tree.get_node(a).mark, Mark::Selected);
    assert_eq!(tree.num_selected, 1);
    assert_eq!(tree.get_selected_file_paths(), vec!["a".to_string(), "a/b".to_string()]);
    let remaining = tree.get_remaining_tree().unwrap();
    assert_eq!(remaining.num_leaf_node, 0);
}

#[test]
fn a_partially_selected_file_is_neither_spent_nor_kept() {
    let mut tree = prepare_tree();
    let id = tree.find_node("a/c/file.txt".to_string()).unwrap();
    tree.mark(id, Mark::PartiallySelected);
    assert_eq!(tree.get_node(id).mark, Mark::PartiallySelected);
    assert_eq!(tree.num_selected, 0);
    assert_eq!(tree.get_selected_file_paths(), Vec::<String>::new());
    let remaining = tree.get_remaining_tree().unwrap();
    assert_eq!(remaining.num_leaf_node, 3);
    assert_eq!(remaining.find_node("a/c/file.txt".to_string()), None);
}

#[test]
fn insertion_after_marking_leaves_marks_alone() {
    let mut tree = prepare_tree();
    tree.mark(tree.root_id(), Mark::Selected);
    assert_eq!(tree.add("a/new.txt".to_string()), Ok(()));
    let id = tree.find_node("a/new.txt".to_string()).unwrap();
    assert_eq!(tree.get_node(id).mark, Mark::Unselected);
    assert_eq!(tree.get_root().mark, Mark::Selected);
    assert_eq!(tree.num_selected, 4);
    assert_eq!(tree.num_leaf_node, 5);
    assert_eq!(tree.size(), 10);
}

#[test]
fn leaf_paths_come_back_as_they_were_normalised() {
    let inputs = ["./a//b/../c/f.txt", "x/./y", "/r/s/../t", "../up/f", "plain"];
    let cleaned = ["a/c/f.txt", "x/y", "/r/t", "../up/f", "plain"];
    let mut tree = Tree::new_ptr();
    for p in inputs {
        assert_eq!(tree.add(p.to_string()), Ok(()));
    }
    for (input, clean) in inputs.iter().zip(cleaned.iter()) {
        let id = tree.find_node(input.to_string()).unwrap();
        assert_eq!(tree.get_path_buf(id), *clean);
        assert_eq!(tree.get_node(id).fullpath, Some(clean.to_string()));
        assert_eq!(tree.find_node(tree.get_path_buf(id)), Some(id));
        assert_eq!(tree.find_cleaned(clean), Some(id));
    }
    assert_eq!(tree.stats(), (5, 0));
}
