//! The navigator: the state of a session in which the user walks the tree,
//! selects files and writes the messages of the commits.

use crate::git_helper::GitCommitCandidate;
use crate::path::{all_have_file_names, cleaned_all, join, strings_view};
use crate::selection::{marked, marks_consistent, Mark};
use crate::shape::{is_leaf, path_of, wf_child, wf_node, Entry, NodeId};
use crate::text::{chars_of, join_lines, joined, trim_end, trimmed_end};
use crate::tree::{Tree, TreeError};
use vstd::prelude::*;

verus! {

/// What the user sees: the tree, the editor for a commit message, or a
/// message over the screen that was shown before.
#[derive(Debug)]
pub enum CurrentScreen {
    FileNavigator,
    CommitMessageEditor,
    ErrorMessagePopUp(&'static str, Box<CurrentScreen>),
    HelpMessagePopUp(Box<CurrentScreen>),
}

/// Which entry of a list the cursor is on.
#[derive(Debug)]
pub struct ListState {
    pub index: Option<usize>,
}

impl ListState {
    /// The index of the entry that the cursor is on.
    pub fn selected(&self) -> (index: Option<usize>)
        ensures
            index == self.index,
    {
        self.index
    }

    /// Puts the cursor on the entry with the index `index`, or on none.
    pub fn select(&mut self, index: Option<usize>)
        ensures
            final(self).index == index,
    {
        self.index = index;
    }
}

impl Default for ListState {
    /// A cursor that is on no entry.
    fn default() -> (state: ListState)
        ensures
            state.index is None,
    {
        ListState { index: None }
    }
}

/// A list with a cursor.
#[derive(Debug)]
pub struct StatefulList<T> {
    pub state: ListState,
    pub items: Vec<T>,
}

impl<T> StatefulList<T> {
    /// A list with the cursor on its first entry, if it has one.
    pub fn new(items: Vec<T>) -> (list: StatefulList<T>)
        ensures
            list.items == items,
            list.state.index == if items.len() > 0 {
                Some(0usize)
            } else {
                None
            },
    {
        let mut state = ListState::default();
        if items.len() > 0 {
            state.select(Some(0));
        }
        StatefulList { state, items }
    }

    /// Where the cursor stands after a step down from `index` in a list of
    /// `len` entries: on the next entry, from the last one on the first.
    pub open spec fn after(index: Option<usize>, len: nat) -> usize {
        match index {
            Some(i) => if len == 0 || i >= len - 1 {
                0
            } else {
                (i + 1) as usize
            },
            None => 0,
        }
    }

    /// Where the cursor stands after a step up from `index` in a list of
    /// `len` entries: on the entry before, from the first one on the last.
    pub open spec fn before(index: Option<usize>, len: nat) -> usize {
        match index {
            Some(i) => if i == 0 {
                if len == 0 {
                    0
                } else {
                    (len - 1) as usize
                }
            } else {
                (i - 1) as usize
            },
            None => 0,
        }
    }

    /// Moves the cursor one entry down.
    pub fn next(&mut self)
        ensures
            final(self).items == old(self).items,
            final(self).state.index == Some(Self::after(old(self).state.index, old(self).items@.len())),
    {
        let i: usize = match self.state.selected() {
            Some(i) => {
                if self.items.len() == 0 || i >= self.items.len() - 1 {
                    0
                } else {
                    i + 1
                }
            },
            None => 0,
        };
        self.state.select(Some(i));
    }

    /// Moves the cursor one entry up.
    pub fn previous(&mut self)
        ensures
            final(self).items == old(self).items,
            final(self).state.index == Some(Self::before(old(self).state.index, old(self).items@.len())),
    {
        let i: usize = match self.state.selected() {
            Some(i) => {
                if i == 0 {
                    if self.items.len() == 0 {
                        0
                    } else {
                        self.items.len() - 1
                    }
                } else {
                    i - 1
                }
            },
            None => 0,
        };
        self.state.select(Some(i));
    }

    /// Takes the cursor off the list.
    pub fn unselect(&mut self)
        ensures
            final(self).items == old(self).items,
            final(self).state.index is None,
    {
        self.state.select(None);
    }
}

/// Whether the text `a` comes before `b`, or is `b`, in the order of a
/// dictionary over the code points.
pub open spec fn text_le(a: Seq<char>, b: Seq<char>) -> bool
    decreases a.len(),
{
    if a.len() == 0 {
        true
    } else if b.len() == 0 {
        false
    } else if a[0] as u32 != b[0] as u32 {
        (a[0] as u32) < (b[0] as u32)
    } else {
        text_le(a.drop_first(), b.drop_first())
    }
}

/// Whether an entry that is a directory or not, as `a_dir` says, and goes by
/// the name `a` is listed no later than one with `b_dir` and `b`:
/// directories come before files, and among each the names decide.
pub open spec fn listed_before(a_dir: bool, a: Seq<char>, b_dir: bool, b: Seq<char>) -> bool {
    if a_dir == b_dir {
        text_le(a, b)
    } else {
        a_dir
    }
}

/// Of two texts one comes before the other, or they are the same.
pub proof fn lemma_text_le_total(a: Seq<char>, b: Seq<char>)
    ensures
        text_le(a, b) || text_le(b, a),
    decreases a.len(),
{
    if a.len() > 0 && b.len() > 0 && a[0] as u32 == b[0] as u32 {
        lemma_text_le_total(a.drop_first(), b.drop_first());
    }
}

/// What comes before a text comes before all that the text comes before.
pub proof fn lemma_text_le_transitive(a: Seq<char>, b: Seq<char>, c: Seq<char>)
    requires
        text_le(a, b),
        text_le(b, c),
    ensures
        text_le(a, c),
    decreases a.len(),
{
    if a.len() > 0 && b.len() > 0 && c.len() > 0 && a[0] as u32 == b[0] as u32 && b[0] as u32
        == c[0] as u32 {
        lemma_text_le_transitive(a.drop_first(), b.drop_first(), c.drop_first());
    }
}

/// Whether the text `a` comes before `b`, or is `b`.
fn text_comes_first(a: &Vec<char>, b: &Vec<char>) -> (r: bool)
    ensures
        r == text_le(a@, b@),
{
    let mut i: usize = 0;
    assert(a@.skip(0) =~= a@ && b@.skip(0) =~= b@);
    while i < a.len() && i < b.len()
        invariant
            i <= a.len(),
            i <= b.len(),
            text_le(a@, b@) == text_le(a@.skip(i as int), b@.skip(i as int)),
        decreases a.len() - i,
    {
        let ghost x = a@.skip(i as int);
        let ghost y = b@.skip(i as int);
        assert(x[0] == a@[i as int] && y[0] == b@[i as int]);
        assert(x.drop_first() =~= a@.skip(i + 1) && y.drop_first() =~= b@.skip(i + 1));
        if a[i] as u32 != b[i] as u32 {
            return (a[i] as u32) < (b[i] as u32);
        }
        i = i + 1;
    }
    i == a.len()
}

/// An entry of the list that the navigator shows: a child of the node the
/// user is in.
#[derive(Debug)]
pub struct AppItem {
    pub key: String,
    pub node_id: NodeId,
}

impl AppItem {
    /// Whether the entry is a directory: a node with children.
    pub fn is_directory(&self, tree: &Tree) -> (r: bool)
        requires
            self.node_id < tree.entries().len(),
        ensures
            r == !is_leaf(tree.entries(), self.node_id as int),
    {
        !tree.get_node(self.node_id).is_leaf_node()
    }

    /// The mark of the node that the entry stands for.
    pub fn get_mark(&self, tree: &Tree) -> (mark: Mark)
        requires
            self.node_id < tree.entries().len(),
        ensures
            mark == tree.marks()[self.node_id as int],
    {
        tree.get_node(self.node_id).mark
    }
}

/// Whether `item` stands for a child of the node `parent`, under its name.
pub open spec fn is_item_of(t: Seq<Entry>, parent: int, item: AppItem) -> bool {
    &&& t[parent].children.contains(item.node_id)
    &&& item.node_id < t.len()
    &&& t[item.node_id as int].key == Some(item.key@)
}

/// Whether the entry `a` is listed no later than `b`.
pub open spec fn item_before(t: Seq<Entry>, a: AppItem, b: AppItem) -> bool {
    listed_before(
        !is_leaf(t, a.node_id as int),
        a.key@,
        !is_leaf(t, b.node_id as int),
        b.key@,
    )
}

/// Whether `items` are in the order in which they are listed.
pub open spec fn items_sorted(t: Seq<Entry>, items: Seq<AppItem>) -> bool {
    forall|i: int, j: int| 0 <= i < j < items.len() ==> item_before(t, items[i], items[j])
}

/// Whether `items` list the first `upto` children of the node `parent`, each
/// once, in the order in which they are listed.
pub open spec fn lists_children(t: Seq<Entry>, parent: int, items: Seq<AppItem>, upto: int) -> bool {
    &&& items.len() == upto
    &&& forall|i: int| 0 <= i < items.len() ==> is_item_of(t, parent, #[trigger] items[i])
    &&& forall|j: int|
        0 <= j < upto ==> exists|i: int|
            0 <= i < items.len() && (#[trigger] items[i]).node_id == #[trigger] t[parent].children[j]
    &&& items_sorted(t, items)
}

/// Whether `list` is the listing of the node `parent`: its children, each
/// once, directories first and by name among each.
pub open spec fn is_listing(t: Seq<Entry>, parent: int, list: StatefulList<AppItem>) -> bool {
    lists_children(t, parent, list.items@, t[parent].children.len() as int)
}

/// Whether the entry `a` is listed no later than `b`.
fn comes_first(tree: &Tree, a: &AppItem, b: &AppItem) -> (r: bool)
    requires
        a.node_id < tree.entries().len(),
        b.node_id < tree.entries().len(),
    ensures
        r == item_before(tree.entries(), *a, *b),
{
    let a_dir = a.is_directory(tree);
    let b_dir = b.is_directory(tree);
    if a_dir == b_dir {
        let x = chars_of(a.key.as_str());
        let y = chars_of(b.key.as_str());
        text_comes_first(&x, &y)
    } else {
        a_dir
    }
}

/// The listing of the node `node_id`: its children, directories before files
/// and by name among each, with the cursor on the first.
pub fn get_item_list(tree: &Tree, node_id: NodeId) -> (list: StatefulList<AppItem>)
    requires
        tree.wf(),
        node_id < tree.entries().len(),
    ensures
        is_listing(tree.entries(), node_id as int, list),
        list.state.index == if list.items.len() > 0 {
            Some(0usize)
        } else {
            None
        },
{
    let ghost t = tree.entries();
    let children = tree.children_of(node_id);
    let mut items: Vec<AppItem> = Vec::new();
    let mut j: usize = 0;
    while j < children.len()
        invariant
            j <= children.len(),
            tree.wf(),
            t == tree.entries(),
            node_id < t.len(),
            children@ == t[node_id as int].children,
            lists_children(t, node_id as int, items@, j as int),
        decreases children.len() - j,
    {
        let child: NodeId = children[j];
        assert(wf_child(t, node_id as int, j as int));
        assert(wf_node(t, child as int));
        let key: String = match &tree.get_node(child).key {
            Some(key) => key.clone(),
            None => String::new(),
        };
        let item = AppItem { key, node_id: child };
        assert(is_item_of(t, node_id as int, item));
        // the place of the new entry: behind the entries that come first
        let mut pos: usize = 0;
        while pos < items.len() && comes_first(tree, &items[pos], &item)
            invariant
                pos <= items.len(),
                t == tree.entries(),
                item.node_id < t.len(),
                forall|i: int| 0 <= i < items.len() ==> is_item_of(t, node_id as int, #[trigger] items@[i]),
                forall|i: int| 0 <= i < pos ==> item_before(t, #[trigger] items@[i], item),
            decreases items.len() - pos,
        {
            pos = pos + 1;
        }
        let ghost before = items@;
        items.insert(pos, item);
        proof {
            let now = items@;
            assert forall|i: int| 0 <= i < now.len() implies is_item_of(
                t,
                node_id as int,
                #[trigger] now[i],
            ) by {
                if i < pos {
                    assert(now[i] == before[i]);
                } else if i > pos {
                    assert(now[i] == before[i - 1]);
                }
            }
            assert forall|x: int| 0 <= x < j + 1 implies exists|i: int|
                0 <= i < now.len() && (#[trigger] now[i]).node_id == #[trigger] t[node_id as int].children[x] by {
                if x < j {
                    let i = choose|i: int|
                        0 <= i < before.len() && (#[trigger] before[i]).node_id
                            == t[node_id as int].children[x];
                    if i < pos {
                        assert(now[i] == before[i]);
                    } else {
                        assert(now[i + 1] == before[i]);
                    }
                } else {
                    assert(now[pos as int].node_id == child);
                }
            }
            assert forall|a: int, b: int| 0 <= a < b < now.len() implies item_before(
                t,
                now[a],
                now[b],
            ) by {
                if b < pos {
                    assert(now[a] == before[a] && now[b] == before[b]);
                } else if b == pos {
                    assert(now[a] == before[a]);
                } else if a > pos {
                    assert(now[a] == before[a - 1] && now[b] == before[b - 1]);
                } else if a < pos {
                    assert(now[a] == before[a] && now[b] == before[b - 1]);
                } else {
                    // the new entry against one behind it
                    assert(now[b] == before[b - 1]);
                    let first = before[pos as int];
                    assert(!item_before(t, first, item));
                    lemma_text_le_total(first.key@, item.key@);
                    assert(item_before(t, item, first));
                    if b - 1 > pos {
                        assert(item_before(t, first, before[b - 1]));
                        lemma_item_before_transitive(t, item, first, before[b - 1]);
                    }
                }
            }
        }
        j = j + 1;
    }
    StatefulList::new(items)
}

/// The order of the listing is transitive.
pub proof fn lemma_item_before_transitive(t: Seq<Entry>, a: AppItem, b: AppItem, c: AppItem)
    requires
        item_before(t, a, b),
        item_before(t, b, c),
    ensures
        item_before(t, a, c),
{
    let a_dir = !is_leaf(t, a.node_id as int);
    let b_dir = !is_leaf(t, b.node_id as int);
    let c_dir = !is_leaf(t, c.node_id as int);
    if a_dir == b_dir && b_dir == c_dir {
        lemma_text_le_transitive(a.key@, b.key@, c.key@);
    }
}

/// What the user is told who opens the editor with nothing selected.
pub const NOTHING_SELECTED: &'static str =
    "You should select more than one file before writing your commit message!";

/// What the user is told who saves an empty commit message.
pub const EMPTY_MESSAGE: &'static str = "Cannot commit with the empty commit message!";

/// The message of a commit as it is taken from the lines of the editor: the
/// lines joined, without the line ends and then the blanks at the end.
pub open spec fn commit_message(lines: Seq<Seq<char>>) -> Seq<char> {
    trimmed_end(trimmed_end(trimmed_end(joined(lines, "\n"@), "\r\n"@), "\n"@), " "@)
}

/// The mark that a click gives to a node that carries `mark`: a selected node
/// becomes unselected, every other node selected.
pub open spec fn toggled(mark: Mark) -> Mark {
    if mark == Mark::Selected {
        Mark::Unselected
    } else {
        Mark::Selected
    }
}

/// The state of a session.
#[derive(Debug)]
pub struct App {
    pub tree: Tree,
    pub items: StatefulList<AppItem>,
    pub should_quit: bool,
    pub curr_node_id: NodeId,
    pub current_screen: CurrentScreen,
    pub commits: Vec<GitCommitCandidate>,
}

impl App {
    /// The invariant of a session: the tree is well formed, the user is in
    /// one of its nodes, and the list shows the children of that node.
    pub open spec fn wf(&self) -> bool {
        &&& self.tree.wf()
        &&& self.curr_node_id < self.tree.entries().len()
        &&& is_listing(self.tree.entries(), self.curr_node_id as int, self.items)
    }

    /// The entry that the cursor is on, if it is on one.
    pub open spec fn entry_under_cursor(&self) -> Option<AppItem> {
        match self.items.state.index {
            Some(i) => if i < self.items.items.len() {
                Some(self.items.items@[i as int])
            } else {
                None
            },
            None => None,
        }
    }

    /// Whether `other` differs from this state in the screen at most.
    pub open spec fn same_but_screen(&self, other: &App) -> bool {
        &&& other.tree == self.tree
        &&& other.items == self.items
        &&& other.should_quit == self.should_quit
        &&& other.curr_node_id == self.curr_node_id
        &&& other.commits == self.commits
    }

    /// Whether `other` differs from this state in the place of the user and
    /// the list at most.
    pub open spec fn same_but_place(&self, other: &App) -> bool {
        &&& other.tree == self.tree
        &&& other.should_quit == self.should_quit
        &&& other.current_screen == self.current_screen
        &&& other.commits == self.commits
    }

    /// What `goto_child` leaves in `next`: from a directory under the cursor
    /// the user is in that directory, with the cursor on its first entry;
    /// else nothing has changed.
    pub open spec fn went_to_child(&self, next: &App) -> bool {
        &&& self.same_but_place(next)
        &&& match self.entry_under_cursor() {
            Some(item) => if is_leaf(self.tree.entries(), item.node_id as int) {
                next.curr_node_id == self.curr_node_id && next.items == self.items
            } else {
                next.curr_node_id == item.node_id && next.items.state.index == Some(0usize)
            },
            None => next.curr_node_id == self.curr_node_id && next.items == self.items,
        }
    }

    /// What `goto_parent` leaves in `next`: the user is in the parent of the
    /// directory they were in, with the cursor on its first entry; in the
    /// root nothing has changed.
    pub open spec fn went_to_parent(&self, next: &App) -> bool {
        &&& self.same_but_place(next)
        &&& match self.tree.entries()[self.curr_node_id as int].parent {
            Some(parent) => next.curr_node_id == parent && next.items.state.index == Some(
                0usize,
            ),
            None => next.curr_node_id == self.curr_node_id && next.items == self.items,
        }
    }

    /// What `select` leaves in `next`: the entry under the cursor was marked
    /// with the opposite of its mark, and the invariants of the selection
    /// hold if the marks were consistent; without an entry under the cursor
    /// nothing has changed.
    pub open spec fn clicked(&self, next: &App) -> bool {
        &&& next.tree.entries() == self.tree.entries()
        &&& next.items == self.items
        &&& next.should_quit == self.should_quit
        &&& next.curr_node_id == self.curr_node_id
        &&& next.current_screen == self.current_screen
        &&& next.commits == self.commits
        &&& match self.entry_under_cursor() {
            Some(item) => {
                &&& marked(
                    self.tree.entries(),
                    self.tree.marks(),
                    next.tree.marks(),
                    item.node_id as int,
                    toggled(self.tree.marks()[item.node_id as int]),
                )
                &&& marks_consistent(self.tree.entries(), self.tree.marks())
                    ==> next.tree.selection_invariants()
            },
            None => next.tree == self.tree,
        }
    }

    /// What `save_commit` leaves in `next` where the editor holds `lines`:
    /// with an empty message the user is told so over the screen that was
    /// shown; else the selected files are one more commit with that
    /// message, the tree holds the files that were unselected with nothing
    /// selected, the user is in its root with the tree on the screen, and
    /// the session ends if no file is left.
    pub open spec fn saved(&self, next: &App, lines: Seq<Seq<char>>) -> bool {
        if commit_message(lines).len() == 0 {
            &&& self.same_but_screen(next)
            &&& next.current_screen == CurrentScreen::ErrorMessagePopUp(
                EMPTY_MESSAGE,
                Box::new(self.current_screen),
            )
        } else {
            &&& next.commits@.len() == self.commits@.len() + 1
            &&& next.commits@.drop_last() == self.commits@
            &&& next.commits@.last().msg@ == commit_message(lines)
            &&& strings_view(next.commits@.last().file_paths@) == self.tree.selected_paths()
            &&& next.tree.entries() == crate::insertion::insert_all(
                seq![crate::shape::root_entry()],
                self.tree.unselected_paths(),
            )
            &&& next.tree.leaf_paths() == self.tree.unselected_paths()
            &&& next.tree.nothing_selected()
            &&& next.tree.selection_invariants()
            &&& next.curr_node_id == 0
            &&& next.items.state.index == if next.items.items.len() > 0 {
                Some(0usize)
            } else {
                None
            }
            &&& next.current_screen == CurrentScreen::FileNavigator
            &&& next.should_quit == (self.should_quit || self.tree.unselected_paths().len() == 0)
        }
    }

    /// A session on the files that `file_paths` name, with the user in the
    /// root. A path that does not end in a file name is an error, and so is
    /// a tree that holds nothing to browse.
    pub fn new(file_paths: Vec<String>) -> (r: Result<App, TreeError>)
        ensures
            r is Ok ==> {
                &&& all_have_file_names(cleaned_all(strings_view(file_paths@)))
                &&& r->Ok_0.wf()
                &&& r->Ok_0.tree.entries() == crate::insertion::insert_all(
                    seq![crate::shape::root_entry()],
                    cleaned_all(strings_view(file_paths@)),
                )
                &&& !is_leaf(r->Ok_0.tree.entries(), 0)
                &&& r->Ok_0.tree.nothing_selected()
                &&& r->Ok_0.tree.selection_invariants()
                &&& r->Ok_0.curr_node_id == 0
                &&& r->Ok_0.items.state.index == Some(0usize)
                &&& !r->Ok_0.should_quit
                &&& r->Ok_0.current_screen == CurrentScreen::FileNavigator
                &&& r->Ok_0.commits@.len() == 0
            },
            !all_have_file_names(cleaned_all(strings_view(file_paths@))) ==> r is Err && r->Err_0
                == TreeError::CannotGetFileNameError,
            r is Err && all_have_file_names(cleaned_all(strings_view(file_paths@))) ==> {
                &&& r->Err_0 == TreeError::EmptyTreeError
                &&& is_leaf(
                    crate::insertion::insert_all(
                        seq![crate::shape::root_entry()],
                        cleaned_all(strings_view(file_paths@)),
                    ),
                    0,
                )
            },
    {
        let tree = match Tree::new_from_paths(file_paths) {
            Ok(tree) => tree,
            Err(e) => {
                return Err(e);
            },
        };
        let curr_node_id = tree.root_id();
        if tree.get_node(curr_node_id).is_leaf_node() {
            return Err(TreeError::EmptyTreeError);
        }
        let items = get_item_list(&tree, curr_node_id);
        Ok(
            App {
                tree,
                items,
                should_quit: false,
                curr_node_id,
                current_screen: CurrentScreen::FileNavigator,
                commits: Vec::new(),
            },
        )
    }

    /// Enters the directory that the cursor is on. On a file, or with the
    /// cursor on no entry, nothing happens.
    pub fn goto_child(&mut self)
        requires
            old(self).wf(),
        ensures
            final(self).wf(),
            old(self).went_to_child(final(self)),
    {
        if let Some(selected_item_idx) = self.items.state.selected() {
            if selected_item_idx < self.items.items.len() {
                let next_node_id = self.items.items[selected_item_idx].node_id;
                assert(is_item_of(
                    self.tree.entries(),
                    self.curr_node_id as int,
                    self.items.items@[selected_item_idx as int],
                ));
                if !self.tree.get_node(next_node_id).is_leaf_node() {
                    self.items = get_item_list(&self.tree, next_node_id);
                    self.curr_node_id = next_node_id;
                }
            }
        }
    }

    /// Goes up to the directory that holds the one the user is in. In the
    /// root nothing happens.
    pub fn goto_parent(&mut self)
        requires
            old(self).wf(),
        ensures
            final(self).wf(),
            old(self).went_to_parent(final(self)),
    {
        if let Some(next_node_id) = self.tree.get_node(self.curr_node_id).parent {
            proof {
                let t = self.tree.entries();
                assert(t[0].parent is None);
                assert(wf_node(t, self.curr_node_id as int));
            }
            self.items = get_item_list(&self.tree, next_node_id);
            self.curr_node_id = next_node_id;
        }
    }

    /// Clicks on the entry that the cursor is on: a selected entry becomes
    /// unselected, every other entry selected, with all that lies below it.
    pub fn select(&mut self)
        requires
            old(self).wf(),
        ensures
            final(self).wf(),
            old(self).clicked(final(self)),
    {
        if let Some(selected_item_idx) = self.items.state.selected() {
            if selected_item_idx < self.items.items.len() {
                let node_id = self.items.items[selected_item_idx].node_id;
                assert(is_item_of(
                    self.tree.entries(),
                    self.curr_node_id as int,
                    self.items.items@[selected_item_idx as int],
                ));
                let node_mark = self.tree.get_node(node_id).mark;
                match node_mark {
                    Mark::Unselected | Mark::PartiallySelected => {
                        self.tree.mark(node_id, Mark::Selected);
                    },
                    Mark::Selected => {
                        self.tree.mark(node_id, Mark::Unselected);
                    },
                }
            }
        }
    }

    /// The text of the path of the directory the user is in.
    pub fn get_current_path(&self) -> (path: String)
        requires
            self.wf(),
        ensures
            path@ == join(path_of(self.tree.entries(), self.curr_node_id as int)),
    {
        self.tree.get_path_buf(self.curr_node_id)
    }

    /// The number of files and the count of selected leaves.
    pub fn get_stats(&self) -> (counts: (usize, usize))
        ensures
            counts.0 == self.tree.leaf_count(),
            counts.1 == self.tree.selected_count(),
    {
        self.tree.stats()
    }

    /// Opens the editor for the message of a commit, or, with nothing
    /// selected, tells the user to select something first.
    pub fn open_editor(&mut self)
        ensures
            old(self).same_but_screen(final(self)),
            final(self).current_screen == if old(self).tree.selected_count() == 0 {
                CurrentScreen::ErrorMessagePopUp(
                    NOTHING_SELECTED,
                    Box::new(old(self).current_screen),
                )
            } else {
                CurrentScreen::CommitMessageEditor
            },
    {
        let (_, num_selected) = self.get_stats();
        if num_selected == 0 {
            let mut previous = CurrentScreen::FileNavigator;
            core::mem::swap(&mut self.current_screen, &mut previous);
            self.current_screen = CurrentScreen::ErrorMessagePopUp(
                NOTHING_SELECTED,
                Box::new(previous),
            );
        } else {
            self.current_screen = CurrentScreen::CommitMessageEditor;
        }
    }

    /// Leaves the editor without a commit.
    pub fn close_editor(&mut self)
        ensures
            old(self).same_but_screen(final(self)),
            final(self).current_screen == CurrentScreen::FileNavigator,
    {
        self.current_screen = CurrentScreen::FileNavigator;
    }

    /// Shows the help over the screen that is shown.
    pub fn open_help_popup(&mut self)
        ensures
            old(self).same_but_screen(final(self)),
            final(self).current_screen == CurrentScreen::HelpMessagePopUp(
                Box::new(old(self).current_screen),
            ),
    {
        let mut previous = CurrentScreen::FileNavigator;
        core::mem::swap(&mut self.current_screen, &mut previous);
        self.current_screen = CurrentScreen::HelpMessagePopUp(Box::new(previous));
    }

    /// Takes a message off the screen and shows what was shown before it.
    pub fn close_popup(&mut self)
        ensures
            old(self).same_but_screen(final(self)),
            final(self).current_screen == match old(self).current_screen {
                CurrentScreen::ErrorMessagePopUp(_, previous) => *previous,
                CurrentScreen::HelpMessagePopUp(previous) => *previous,
                other => other,
            },
    {
        let mut current = CurrentScreen::FileNavigator;
        core::mem::swap(&mut self.current_screen, &mut current);
        self.current_screen = match current {
            CurrentScreen::ErrorMessagePopUp(_, previous) => *previous,
            CurrentScreen::HelpMessagePopUp(previous) => *previous,
            other => other,
        };
    }

    /// The message of a commit from the lines of the editor.
    pub fn message_of(lines: &Vec<String>) -> (msg: String)
        ensures
            msg@ == commit_message(strings_view(lines@)),
    {
        let text = join_lines(lines, "\n");
        let without_crlf = trim_end(text.as_str(), "\r\n");
        let without_lf = trim_end(without_crlf.as_str(), "\n");
        trim_end(without_lf.as_str(), " ")
    }

    /// Saves the commit whose message the editor holds in `lines`. With an
    /// empty message the user is told so and nothing else happens. Else the
    /// selected files become a commit with that message, the tree is replaced
    /// by the tree of the files that are left, and the user is back in its
    /// root; with no file left the session ends.
    pub fn save_commit(&mut self, lines: &Vec<String>) -> (r: Result<(), TreeError>)
        requires
            old(self).wf(),
        ensures
            r is Ok,
            final(self).wf(),
            old(self).saved(final(self), strings_view(lines@)),
    {
        let msg = App::message_of(lines);
        if msg.as_str().unicode_len() == 0 {
            let mut previous = CurrentScreen::FileNavigator;
            core::mem::swap(&mut self.current_screen, &mut previous);
            self.current_screen = CurrentScreen::ErrorMessagePopUp(
                EMPTY_MESSAGE,
                Box::new(previous),
            );
            return Ok(());
        }
        let new_tree = match self.tree.get_remaining_tree() {
            Ok(tree) => tree,
            Err(e) => {
                return Err(e);
            },
        };
        let file_paths = self.tree.get_selected_file_paths();
        let ghost before = self.commits@;
        self.commits.push(GitCommitCandidate { msg, file_paths });
        assert(self.commits@.drop_last() =~= before);
        let curr_node_id = new_tree.root_id();
        self.items = get_item_list(&new_tree, curr_node_id);
        self.tree = new_tree;
        self.curr_node_id = curr_node_id;
        self.current_screen = CurrentScreen::FileNavigator;
        let (num_leaf_node, _) = self.tree.stats();
        if num_leaf_node == 0 {
            self.should_quit = true;
        }
        Ok(())
    }

    /// Ends the session.
    pub fn quit(&mut self)
        ensures
            final(self).should_quit,
            final(self).tree == old(self).tree,
            final(self).items == old(self).items,
            final(self).curr_node_id == old(self).curr_node_id,
            final(self).current_screen == old(self).current_screen,
            final(self).commits == old(self).commits,
    {
        self.should_quit = true;
    }
}

} // verus!
