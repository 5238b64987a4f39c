use git_split::navigator::{
    get_item_list, App, AppItem, CurrentScreen, ListState, StatefulList, EMPTY_MESSAGE,
    NOTHING_SELECTED,
};
use git_split::tree::{Mark, Tree, TreeError};
use git_split::update::{decide, update, Action, KeyCode, KeyEvent};

fn paths(list: &[&str]) -> Vec<String> {
    list.iter().map(|p| p.to_string()).collect()
}

fn prepare_app() -> App {
    App::new(paths(&[
        "./a/b/c/file.txt",
        "./a/b/file.txt",
        "./a/c/file.txt",
        "a/b/c/file2.txt",
        "zeta.txt",
        "Alpha.txt",
    ]))
    .unwrap()
}

fn key(code: KeyCode) -> KeyEvent {
    KeyEvent { code, control: false, other_modifiers: false }
}

fn control(code: KeyCode) -> KeyEvent {
    KeyEvent { code, control: true, other_modifiers: false }
}

fn names(app: &App) -> Vec<String> {
    app.items.items.iter().map(|i| i.key.clone()).collect()
}

#[test]
fn list_cursor_wraps_around() {
    let mut list = StatefulList::new(vec![10, 20, 30]);
    assert_eq!(list.state.selected(), Some(0));
    list.next();
    assert_eq!(list.state.selected(), Some(1));
    list.next();
    list.next();
    assert_eq!(list.state.selected(), Some(0));
    list.previous();
    assert_eq!(list.state.selected(), Some(2));
    list.previous();
    assert_eq!(list.state.selected(), Some(1));
    list.unselect();
    assert_eq!(list.state.selected(), None);
    list.next();
    assert_eq!(list.state.selected(), Some(0));
    list.unselect();
    list.previous();
    assert_eq!(list.state.selected(), Some(0));

    let mut empty: StatefulList<u8> = StatefulList::new(vec![]);
    assert_eq!(empty.state.selected(), None);
    empty.next();
    assert_eq!(empty.state.selected(), Some(0));
    empty.next();
    assert_eq!(empty.state.selected(), Some(0));
    empty.previous();
    assert_eq!(empty.state.selected(), Some(0));

    let mut state = ListState::default();
    assert_eq!(state.selected(), None);
    state.select(Some(4));
    assert_eq!(state.selected(), Some(4));
}

#[test]
fn listing_puts_directories_first_then_sorts_by_name() {
    let app = prepare_app();
    assert_eq!(names(&app), paths(&["a", "Alpha.txt", "zeta.txt"]));
    assert_eq!(app.items.state.selected(), Some(0));
    assert!(app.items.items[0].is_directory(&app.tree));
    assert!(!app.items.items[1].is_directory(&app.tree));
    assert_eq!(app.items.items[1].get_mark(&app.tree), Mark::Unselected);

    let tree = Tree::new_from_paths(paths(&["d/b", "d/ab", "d/a", "d/B/x", "d/é", "d/z/y", "d/"]))
        .unwrap();
    let d = tree.children_of(tree.root_id())[0];
    let list = get_item_list(&tree, d);
    let keys: Vec<String> = list.items.iter().map(|i| i.key.clone()).collect();
    assert_eq!(keys, paths(&["B", "z", "a", "ab", "b", "é"]));
    let item: &AppItem = &list.items[0];
    assert_eq!(tree.get_path_buf(item.node_id), "d/B");
}

#[test]
fn new_session_needs_something_to_browse() {
    assert_eq!(App::new(vec![]).err(), Some(TreeError::EmptyTreeError));
    assert_eq!(App::new(paths(&["a", ".."])).err(), Some(TreeError::CannotGetFileNameError));
    let app = App::new(paths(&["a"])).unwrap();
    assert_eq!(app.curr_node_id, 0);
    assert!(!app.should_quit);
    assert!(matches!(app.current_screen, CurrentScreen::FileNavigator));
    assert_eq!(app.get_stats(), (1, 0));
    assert_eq!(app.commits.len(), 0);
}

#[test]
fn walking_down_and_up() {
    let mut app = prepare_app();
    assert_eq!(app.get_current_path(), "");
    app.goto_child();
    assert_eq!(app.get_current_path(), "a");
    assert_eq!(names(&app), paths(&["b", "c"]));
    app.goto_child();
    assert_eq!(app.get_current_path(), "a/b");
    assert_eq!(names(&app), paths(&["c", "file.txt"]));
    app.items.next();
    app.goto_child();
    // a file is not entered
    assert_eq!(app.get_current_path(), "a/b");
    assert_eq!(app.items.state.selected(), Some(1));
    app.goto_parent();
    assert_eq!(app.get_current_path(), "a");
    assert_eq!(app.items.state.selected(), Some(0));
    app.goto_parent();
    app.goto_parent();
    assert_eq!(app.get_current_path(), "");
    app.items.unselect();
    app.goto_child();
    assert_eq!(app.get_current_path(), "");
}

#[test]
fn click_flips_between_selected_and_unselected() {
    let mut app = prepare_app();
    app.goto_child();
    app.goto_child();
    // on "a/b/c"
    app.select();
    assert_eq!(app.items.items[0].get_mark(&app.tree), Mark::Selected);
    assert_eq!(app.get_stats(), (6, 2));
    app.goto_parent();
    // "a/b" is partially selected; a click selects it all
    assert_eq!(app.items.items[0].get_mark(&app.tree), Mark::PartiallySelected);
    app.select();
    assert_eq!(app.items.items[0].get_mark(&app.tree), Mark::Selected);
    assert_eq!(app.get_stats(), (6, 3));
    app.select();
    assert_eq!(app.items.items[0].get_mark(&app.tree), Mark::Unselected);
    assert_eq!(app.get_stats(), (6, 0));
    app.items.unselect();
    app.select();
    assert_eq!(app.get_stats(), (6, 0));
}

#[test]
fn editor_opens_only_with_a_selection() {
    let mut app = prepare_app();
    app.open_editor();
    match &app.current_screen {
        CurrentScreen::ErrorMessagePopUp(msg, previous) => {
            assert_eq!(*msg, NOTHING_SELECTED);
            assert_eq!(
                *msg,
                "You should select more than one file before writing your commit message!"
            );
            assert!(matches!(**previous, CurrentScreen::FileNavigator));
        }
        _ => panic!("no message"),
    }
    app.close_popup();
    assert!(matches!(app.current_screen, CurrentScreen::FileNavigator));
    app.close_popup();
    assert!(matches!(app.current_screen, CurrentScreen::FileNavigator));
    app.select();
    app.open_editor();
    assert!(matches!(app.current_screen, CurrentScreen::CommitMessageEditor));
    app.open_help_popup();
    match &app.current_screen {
        CurrentScreen::HelpMessagePopUp(previous) => {
            assert!(matches!(**previous, CurrentScreen::CommitMessageEditor));
        }
        _ => panic!("no help"),
    }
    app.close_popup();
    assert!(matches!(app.current_screen, CurrentScreen::CommitMessageEditor));
    app.close_editor();
    assert!(matches!(app.current_screen, CurrentScreen::FileNavigator));
}

#[test]
fn commit_message_loses_what_trails() {
    assert_eq!(App::message_of(&paths(&["subject", "", "body  ", "", ""])), "subject\n\nbody");
    assert_eq!(App::message_of(&paths(&["one \n \r\n\r\n"])), "one \n");
    assert_eq!(App::message_of(&paths(&["x\r\n\n  "])), "x\r\n\n");
    assert_eq!(App::message_of(&paths(&["  ", " "])), "  \n");
    assert_eq!(App::message_of(&paths(&["", ""])), "");
    assert_eq!(App::message_of(&vec![]), "");
    assert_eq!(App::message_of(&paths(&[" "])), "");
}

#[test]
fn saving_spends_the_selection() {
    let mut app = prepare_app();
    app.select();
    app.open_editor();
    assert_eq!(app.save_commit(&paths(&["", ""])), Ok(()));
    match &app.current_screen {
        CurrentScreen::ErrorMessagePopUp(msg, previous) => {
            assert_eq!(*msg, EMPTY_MESSAGE);
            assert_eq!(*msg, "Cannot commit with the empty commit message!");
            assert!(matches!(**previous, CurrentScreen::CommitMessageEditor));
        }
        _ => panic!("no message"),
    }
    assert_eq!(app.commits.len(), 0);
    app.close_popup();

    assert_eq!(app.save_commit(&paths(&["everything under a", ""])), Ok(()));
    assert_eq!(app.commits.len(), 1);
    assert_eq!(app.commits[0].msg, "everything under a");
    assert_eq!(
        app.commits[0].file_paths,
        paths(&["a/b/c/file.txt", "a/b/file.txt", "a/c/file.txt", "a/b/c/file2.txt"])
    );
    assert!(matches!(app.current_screen, CurrentScreen::FileNavigator));
    assert_eq!(app.get_stats(), (2, 0));
    assert_eq!(names(&app), paths(&["Alpha.txt", "zeta.txt"]));
    assert_eq!(app.curr_node_id, 0);
    assert!(!app.should_quit);

    app.select();
    app.items.next();
    app.select();
    assert_eq!(app.save_commit(&paths(&["the rest"])), Ok(()));
    assert_eq!(app.commits.len(), 2);
    assert_eq!(app.commits[1].file_paths, paths(&["zeta.txt", "Alpha.txt"]));
    assert_eq!(app.get_stats(), (0, 0));
    assert!(app.should_quit);
    assert_eq!(app.items.items.len(), 0);
    assert_eq!(app.items.state.selected(), None);
}

#[test]
fn keys_pick_the_operation() {
    let nav = CurrentScreen::FileNavigator;
    assert_eq!(decide(&nav, key(KeyCode::Esc)), Action::Quit);
    assert_eq!(decide(&nav, key(KeyCode::Char('q'))), Action::Quit);
    assert_eq!(decide(&nav, control(KeyCode::Char('c'))), Action::Quit);
    assert_eq!(decide(&nav, control(KeyCode::Char('C'))), Action::Quit);
    assert_eq!(decide(&nav, key(KeyCode::Char('c'))), Action::Nothing);
    assert_eq!(
        decide(&nav, KeyEvent { code: KeyCode::Char('c'), control: true, other_modifiers: true }),
        Action::Nothing
    );
    assert_eq!(decide(&nav, key(KeyCode::Char('h'))), Action::OpenHelp);
    assert_eq!(decide(&nav, key(KeyCode::Char('H'))), Action::OpenHelp);
    assert_eq!(decide(&nav, key(KeyCode::Up)), Action::Previous);
    assert_eq!(decide(&nav, key(KeyCode::Down)), Action::Next);
    assert_eq!(decide(&nav, key(KeyCode::Right)), Action::GotoChild);
    assert_eq!(decide(&nav, key(KeyCode::Left)), Action::GotoParent);
    assert_eq!(decide(&nav, key(KeyCode::Char(' '))), Action::Select);
    assert_eq!(decide(&nav, key(KeyCode::Enter)), Action::OpenEditor);
    assert_eq!(decide(&nav, key(KeyCode::Char('x'))), Action::Nothing);
    assert_eq!(decide(&nav, key(KeyCode::Other)), Action::Nothing);

    let editor = CurrentScreen::CommitMessageEditor;
    assert_eq!(decide(&editor, key(KeyCode::Esc)), Action::CloseEditor);
    assert_eq!(decide(&editor, control(KeyCode::Char('w'))), Action::SaveCommit);
    assert_eq!(
        decide(&editor, KeyEvent { code: KeyCode::Char('W'), control: true, other_modifiers: true }),
        Action::SaveCommit
    );
    assert_eq!(decide(&editor, key(KeyCode::Char('w'))), Action::EditorInput);
    assert_eq!(decide(&editor, key(KeyCode::Char('q'))), Action::EditorInput);
    assert_eq!(decide(&editor, key(KeyCode::Enter)), Action::EditorInput);

    let help = CurrentScreen::HelpMessagePopUp(Box::new(CurrentScreen::FileNavigator));
    assert_eq!(decide(&help, key(KeyCode::Char('q'))), Action::ClosePopup);
    let error = CurrentScreen::ErrorMessagePopUp("m", Box::new(CurrentScreen::FileNavigator));
    assert_eq!(decide(&error, key(KeyCode::Esc)), Action::ClosePopup);
}

#[test]
fn keys_drive_a_session() {
    let mut app = prepare_app();
    let no_lines: Vec<String> = vec![];
    assert_eq!(update(&mut app, key(KeyCode::Down), &no_lines), Action::Next);
    assert_eq!(app.items.state.selected(), Some(1));
    assert_eq!(update(&mut app, key(KeyCode::Up), &no_lines), Action::Previous);
    assert_eq!(update(&mut app, key(KeyCode::Right), &no_lines), Action::GotoChild);
    assert_eq!(app.get_current_path(), "a");
    assert_eq!(update(&mut app, key(KeyCode::Char(' ')), &no_lines), Action::Select);
    assert_eq!(app.get_stats(), (6, 3));
    assert_eq!(update(&mut app, key(KeyCode::Left), &no_lines), Action::GotoParent);
    assert_eq!(update(&mut app, key(KeyCode::Char('h')), &no_lines), Action::OpenHelp);
    assert_eq!(update(&mut app, key(KeyCode::Char('q')), &no_lines), Action::ClosePopup);
    assert!(!app.should_quit);
    assert_eq!(update(&mut app, key(KeyCode::Enter), &no_lines), Action::OpenEditor);
    assert_eq!(update(&mut app, key(KeyCode::Char('m')), &no_lines), Action::EditorInput);
    let lines = paths(&["part b"]);
    assert_eq!(update(&mut app, control(KeyCode::Char('w')), &lines), Action::SaveCommit);
    assert_eq!(app.commits.len(), 1);
    assert_eq!(app.commits[0].msg, "part b");
    assert_eq!(app.get_stats(), (3, 0));
    assert_eq!(update(&mut app, key(KeyCode::Enter), &no_lines), Action::OpenEditor);
    assert_eq!(update(&mut app, key(KeyCode::Enter), &no_lines), Action::ClosePopup);
    assert_eq!(update(&mut app, key(KeyCode::Esc), &no_lines), Action::Quit);
    assert!(app.should_quit);
}
