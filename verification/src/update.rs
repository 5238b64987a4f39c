//! What a key does to a session: the rule that picks the operation, and the
//! step that carries it out.

use crate::navigator::{App, AppItem, CurrentScreen, StatefulList};
use crate::path::strings_view;
use vstd::prelude::*;

verus! {

/// The keys that the session tells apart.
#[derive(Debug, Clone, Copy)]
pub enum KeyCode {
    Enter,
    Left,
    Right,
    Up,
    Down,
    Char(char),
    Esc,
    Other,
}

/// A key that was pressed, with what was held down with it.
#[derive(Debug, Clone, Copy)]
pub struct KeyEvent {
    pub code: KeyCode,
    /// Whether the control key was held down.
    pub control: bool,
    /// Whether a modifier other than the control key was held down.
    pub other_modifiers: bool,
}

/// The operations of a session.
#[derive(Debug, Clone, Copy, PartialEq, Eq)]
pub enum Action {
    Nothing,
    Quit,
    OpenHelp,
    Previous,
    Next,
    GotoChild,
    GotoParent,
    Select,
    OpenEditor,
    CloseEditor,
    SaveCommit,
    /// The key belongs to the editor of the commit message.
    EditorInput,
    ClosePopup,
}

/// The operation that a key asks for in the tree.
pub open spec fn navigator_action(key: KeyEvent) -> Action {
    match key.code {
        KeyCode::Esc => Action::Quit,
        KeyCode::Char(c) => if c == 'q' {
            Action::Quit
        } else if c == 'c' || c == 'C' {
            if key.control && !key.other_modifiers {
                Action::Quit
            } else {
                Action::Nothing
            }
        } else if c == 'h' || c == 'H' {
            Action::OpenHelp
        } else if c == ' ' {
            Action::Select
        } else {
            Action::Nothing
        },
        KeyCode::Up => Action::Previous,
        KeyCode::Down => Action::Next,
        KeyCode::Right => Action::GotoChild,
        KeyCode::Left => Action::GotoParent,
        KeyCode::Enter => Action::OpenEditor,
        KeyCode::Other => Action::Nothing,
    }
}

/// The operation that a key asks for in the editor of the commit message.
pub open spec fn editor_action(key: KeyEvent) -> Action {
    match key.code {
        KeyCode::Esc => Action::CloseEditor,
        KeyCode::Char(c) => if (c == 'w' || c == 'W') && key.control {
            Action::SaveCommit
        } else {
            Action::EditorInput
        },
        _ => Action::EditorInput,
    }
}

/// The operation that a key asks for on a screen: a message goes away at
/// any key.
pub open spec fn action_for(screen: CurrentScreen, key: KeyEvent) -> Action {
    match screen {
        CurrentScreen::FileNavigator => navigator_action(key),
        CurrentScreen::CommitMessageEditor => editor_action(key),
        CurrentScreen::ErrorMessagePopUp(_, _) => Action::ClosePopup,
        CurrentScreen::HelpMessagePopUp(_) => Action::ClosePopup,
    }
}

/// The operation that a key asks for in the tree.
fn update_file_navigator(key_event: KeyEvent) -> (action: Action)
    ensures
        action == navigator_action(key_event),
{
    match key_event.code {
        KeyCode::Esc => Action::Quit,
        KeyCode::Char(c) => {
            if c == 'q' {
                Action::Quit
            } else if c == 'c' || c == 'C' {
                if key_event.control && !key_event.other_modifiers {
                    Action::Quit
                } else {
                    Action::Nothing
                }
            } else if c == 'h' || c == 'H' {
                Action::OpenHelp
            } else if c == ' ' {
                Action::Select
            } else {
                Action::Nothing
            }
        },
        KeyCode::Up => Action::Previous,
        KeyCode::Down => Action::Next,
        KeyCode::Right => Action::GotoChild,
        KeyCode::Left => Action::GotoParent,
        KeyCode::Enter => Action::OpenEditor,
        KeyCode::Other => Action::Nothing,
    }
}

/// The operation that a key asks for in the editor of the commit message.
fn update_commit_message_editor(key_event: KeyEvent) -> (action: Action)
    ensures
        action == editor_action(key_event),
{
    match key_event.code {
        KeyCode::Esc => Action::CloseEditor,
        KeyCode::Char(c) => {
            if (c == 'w' || c == 'W') && key_event.control {
                Action::SaveCommit
            } else {
                Action::EditorInput
            }
        },
        _ => Action::EditorInput,
    }
}

/// The operation that `key_event` asks for on `screen`.
pub fn decide(screen: &CurrentScreen, key_event: KeyEvent) -> (action: Action)
    ensures
        action == action_for(*screen, key_event),
{
    match screen {
        CurrentScreen::FileNavigator => update_file_navigator(key_event),
        CurrentScreen::CommitMessageEditor => update_commit_message_editor(key_event),
        CurrentScreen::ErrorMessagePopUp(_, _) => Action::ClosePopup,
        CurrentScreen::HelpMessagePopUp(_) => Action::ClosePopup,
    }
}

/// What the operation `action` leaves of the state `before` in `after`,
/// where the editor holds `lines`.
pub open spec fn stepped(before: App, after: App, action: Action, lines: Seq<Seq<char>>) -> bool {
    match action {
        Action::Nothing | Action::EditorInput => after == before,
        Action::Quit => after == (App { should_quit: true, ..before }),
        Action::OpenHelp => before.same_but_screen(&after) && after.current_screen
            == CurrentScreen::HelpMessagePopUp(Box::new(before.current_screen)),
        Action::Previous => after == (App {
            items: StatefulList {
                state: crate::navigator::ListState {
                    index: Some(
                        StatefulList::<AppItem>::before(
                            before.items.state.index,
                            before.items.items@.len(),
                        ),
                    ),
                },
                items: before.items.items,
            },
            ..before
        }),
        Action::Next => after == (App {
            items: StatefulList {
                state: crate::navigator::ListState {
                    index: Some(
                        StatefulList::<AppItem>::after(
                            before.items.state.index,
                            before.items.items@.len(),
                        ),
                    ),
                },
                items: before.items.items,
            },
            ..before
        }),
        Action::GotoChild => before.went_to_child(&after),
        Action::GotoParent => before.went_to_parent(&after),
        Action::Select => before.clicked(&after),
        Action::OpenEditor => before.same_but_screen(&after) && after.current_screen == if before.tree.selected_count()
            == 0 {
            CurrentScreen::ErrorMessagePopUp(
                crate::navigator::NOTHING_SELECTED,
                Box::new(before.current_screen),
            )
        } else {
            CurrentScreen::CommitMessageEditor
        },
        Action::CloseEditor => before.same_but_screen(&after) && after.current_screen
            == CurrentScreen::FileNavigator,
        Action::SaveCommit => before.saved(&after, lines),
        Action::ClosePopup => before.same_but_screen(&after) && after.current_screen
            == match before.current_screen {
            CurrentScreen::ErrorMessagePopUp(_, previous) => *previous,
            CurrentScreen::HelpMessagePopUp(previous) => *previous,
            other => other,
        },
    }
}

/// Carries out what `key_event` asks for on the screen that is shown, and
/// says what it was. `lines` are the lines that the editor of the commit
/// message holds; a key that belongs to the editor is left to it.
pub fn update(app: &mut App, key_event: KeyEvent, lines: &Vec<String>) -> (action: Action)
    requires
        old(app).wf(),
    ensures
        final(app).wf(),
        action == action_for(old(app).current_screen, key_event),
        stepped(*old(app), *final(app), action, strings_view(lines@)),
{
    let action = decide(&app.current_screen, key_event);
    match action {
        Action::Nothing => {},
        Action::EditorInput => {},
        Action::Quit => app.quit(),
        Action::OpenHelp => app.open_help_popup(),
        Action::Previous => app.items.previous(),
        Action::Next => app.items.next(),
        Action::GotoChild => app.goto_child(),
        Action::GotoParent => app.goto_parent(),
        Action::Select => app.select(),
        Action::OpenEditor => app.open_editor(),
        Action::CloseEditor => app.close_editor(),
        Action::SaveCommit => {
            let _ = app.save_commit(lines);
        },
        Action::ClosePopup => app.close_popup(),
    }
    action
}

} // verus!
