use wyvern::app::{
    Action, App, AppState, CompletionOption, Focus, Key, KeyCombo, PromptIntent, ALT, CONTROL,
    NO_MODIFIERS, SHIFT,
};
use wyvern::explorer::{ExplorerEntry, FileExplorer};
use wyvern::git::GitContext;
use wyvern::keys::{Effects, Motion, MouseKind};
use wyvern::layout::Rect;

fn app() -> App {
    let listing = vec![
        ExplorerEntry { path: "/ws/a.rs".to_string(), name: "a.rs".to_string(), is_dir: false },
        ExplorerEntry { path: "/ws/src".to_string(), name: "src".to_string(), is_dir: true },
    ];
    App::new("/ws".to_string(), FileExplorer::new("/ws".to_string(), Some(listing)), GitContext::empty())
}

fn press(a: &mut App, code: Key, modifiers: u8) -> Effects {
    let combo = KeyCombo { code, modifiers };
    assert!(a.check_key(combo));
    a.handle_normal_key(combo, 20)
}

fn type_text(a: &mut App, s: &str) {
    for c in s.chars() {
        press(a, Key::Char(c), NO_MODIFIERS);
    }
}

fn text(a: &App) -> String {
    a.get_active_document().unwrap().buffer.get_full_text()
}

fn cursor(a: &App) -> usize {
    a.get_active_document().unwrap().buffer.cursor_char_idx
}

fn editing_app() -> App {
    let mut a = app();
    press(&mut a, Key::Char('n'), NO_MODIFIERS);
    assert_eq!(a.focus, Focus::Window(1));
    a
}

fn with_uri(a: &mut App) {
    let d = &mut a.documents[0].1;
    d.uri = Some("file:///ws/a.rs".to_string());
    d.version = 1;
}

fn option(label: &str) -> CompletionOption {
    CompletionOption { label: label.to_string(), kind: None, detail: None, insert_text: label.to_string() }
}

#[test]
fn keys_in_the_tree_act_on_files() {
    let mut a = app();
    let e = press(&mut a, Key::Char('x'), NO_MODIFIERS);
    assert!(a.documents.is_empty() && e.changes.is_empty());
    press(&mut a, Key::Down, NO_MODIFIERS);
    press(&mut a, Key::Down, NO_MODIFIERS);
    assert_eq!(a.explorer.state.selected(), Some(2));
    press(&mut a, Key::Char('r'), NO_MODIFIERS);
    assert!(matches!(&a.prompt.as_ref().unwrap().intent, PromptIntent::Rename(p) if p == "/ws/a.rs"));
    a.prompt = None;
    press(&mut a, Key::Delete, NO_MODIFIERS);
    assert!(matches!(&a.prompt.as_ref().unwrap().intent, PromptIntent::Delete(p) if p == "/ws/a.rs"));
    a.prompt = None;
    press(&mut a, Key::Up, NO_MODIFIERS);
    assert_eq!(a.explorer.state.selected(), Some(1));
}

#[test]
fn enter_in_the_tree_opens_files_and_directories() {
    let mut a = app();
    press(&mut a, Key::Down, NO_MODIFIERS);
    let e = press(&mut a, Key::Enter, NO_MODIFIERS);
    assert!(e.reload_tree);
    assert_eq!(a.explorer.current_dir, "/ws/src");
    let mut a = app();
    a.explorer.state.select(Some(2));
    let e = press(&mut a, Key::Enter, NO_MODIFIERS);
    assert_eq!(e.open.as_deref(), Some("/ws/a.rs"));
}

#[test]
fn brackets_are_closed_and_stepped_over() {
    let mut a = editing_app();
    type_text(&mut a, "f(");
    assert_eq!(text(&a), "f()");
    assert_eq!(cursor(&a), 2);
    type_text(&mut a, "x)");
    assert_eq!(text(&a), "f(x)");
    assert_eq!(cursor(&a), 4);
    type_text(&mut a, "\"");
    assert_eq!(text(&a), "f(x)\"\"");
    assert!(a.get_active_document().unwrap().is_dirty);
}

#[test]
fn typing_announces_changes_and_asks_for_completions() {
    let mut a = editing_app();
    with_uri(&mut a);
    let e = press(&mut a, Key::Char('a'), NO_MODIFIERS);
    assert_eq!(e.changes.len(), 1);
    assert_eq!(e.changes[0].uri, "file:///ws/a.rs");
    assert_eq!(e.changes[0].version, 2);
    assert_eq!(e.changes[0].text, "a");
    let req = e.completion.unwrap();
    assert_eq!((req.uri.as_str(), req.line, req.character), ("file:///ws/a.rs", 0, 1));
    let e = press(&mut a, Key::Char(' '), NO_MODIFIERS);
    assert!(e.completion.is_none());
    assert_eq!(e.changes[0].version, 3);
}

#[test]
fn a_document_without_uri_announces_nothing() {
    let mut a = editing_app();
    let e = press(&mut a, Key::Char('a'), NO_MODIFIERS);
    assert!(e.changes.is_empty() && e.completion.is_none());
    assert_eq!(text(&a), "a");
}

#[test]
fn enter_keeps_the_indentation() {
    let mut a = editing_app();
    type_text(&mut a, "    foo");
    press(&mut a, Key::Enter, NO_MODIFIERS);
    assert_eq!(text(&a), "    foo\n    ");
    assert_eq!(cursor(&a), 12);
}

#[test]
fn enter_accepts_a_completion() {
    let mut a = editing_app();
    type_text(&mut a, "pri");
    a.completions = vec![option("print"), option("println")];
    a.completion_state.select(Some(0));
    press(&mut a, Key::Tab, NO_MODIFIERS);
    assert_eq!(a.completion_state.selected(), Some(1));
    press(&mut a, Key::Tab, NO_MODIFIERS);
    assert_eq!(a.completion_state.selected(), Some(0));
    press(&mut a, Key::Up, NO_MODIFIERS);
    assert_eq!(a.completion_state.selected(), Some(1));
    press(&mut a, Key::Enter, NO_MODIFIERS);
    assert_eq!(text(&a), "println");
    assert!(a.completions.is_empty());
}

#[test]
fn tab_inserts_four_spaces() {
    let mut a = editing_app();
    press(&mut a, Key::Tab, NO_MODIFIERS);
    assert_eq!(text(&a), "    ");
    press(&mut a, Key::Backspace, NO_MODIFIERS);
    assert_eq!(text(&a), "");
}

#[test]
fn backspace_announces_the_deletion() {
    let mut a = editing_app();
    type_text(&mut a, "ab");
    with_uri(&mut a);
    let e = press(&mut a, Key::Backspace, NO_MODIFIERS);
    assert_eq!(text(&a), "a");
    assert_eq!(e.changes.len(), 1);
    assert_eq!(e.changes[0].text, "a");
}

#[test]
fn copy_cut_and_paste() {
    let mut a = editing_app();
    type_text(&mut a, "hello");
    press(&mut a, Key::Left, SHIFT);
    press(&mut a, Key::Left, SHIFT);
    let e = press(&mut a, Key::Char('c'), CONTROL);
    assert_eq!(e.copy.as_deref(), Some("lo"));
    assert_eq!(a.clipboard.as_deref(), Some("lo"));
    assert_eq!(text(&a), "hello");
    let e = press(&mut a, Key::Char('x'), CONTROL);
    assert_eq!(e.copy.as_deref(), Some("lo"));
    assert_eq!(text(&a), "hel");
    let e = press(&mut a, Key::Char('v'), CONTROL);
    assert!(e.paste);
    a.execute_paste_text("LO");
    assert_eq!(text(&a), "helLO");
}

#[test]
fn undo_and_redo_report_their_state() {
    let mut a = editing_app();
    type_text(&mut a, "ab");
    press(&mut a, Key::Char('z'), CONTROL);
    assert_eq!(text(&a), "");
    assert_eq!(a.status_msg.as_deref(), Some("Deshacer"));
    press(&mut a, Key::Char('z'), CONTROL);
    assert_eq!(a.status_msg.as_deref(), Some("Ya en el estado mas antiguo"));
    press(&mut a, Key::Char('y'), CONTROL);
    assert_eq!(text(&a), "ab");
    assert_eq!(a.status_msg.as_deref(), Some("Rehacer"));
    press(&mut a, Key::Char('y'), CONTROL);
    assert_eq!(a.status_msg.as_deref(), Some("Ya en el estado mas reciente"));
}

#[test]
fn quitting_with_unsaved_changes_asks_first() {
    let mut a = editing_app();
    press(&mut a, Key::Char('q'), CONTROL);
    assert!(a.quit);
    let mut a = editing_app();
    type_text(&mut a, "x");
    press(&mut a, Key::Char('q'), CONTROL);
    assert!(!a.quit);
    assert!(matches!(a.prompt.as_ref().unwrap().intent, PromptIntent::ConfirmQuit));
}

#[test]
fn saving_a_named_document() {
    let mut a = app();
    a.load_file("/ws/a.rs".to_string(), Some("x".to_string()));
    let e = press(&mut a, Key::Char('s'), CONTROL);
    assert!(e.save);
}

#[test]
fn escape_closes_one_thing_at_a_time() {
    let mut a = editing_app();
    type_text(&mut a, "ab");
    press(&mut a, Key::Left, SHIFT);
    a.completions = vec![option("x")];
    a.show_help = true;
    press(&mut a, Key::Esc, NO_MODIFIERS);
    assert!(!a.show_help);
    press(&mut a, Key::Esc, NO_MODIFIERS);
    assert!(a.completions.is_empty());
    assert!(a.get_active_document().unwrap().buffer.selection_anchor.is_some());
    press(&mut a, Key::Esc, NO_MODIFIERS);
    assert!(a.get_active_document().unwrap().buffer.selection_anchor.is_none());
}

#[test]
fn bound_actions_without_a_document() {
    let mut a = app();
    assert!(a.check_action(Action::Undo));
    let e = a.execute_action(Action::Undo, 20);
    assert!(e.changes.is_empty());
    assert!(a.status_msg.is_none());
    let e = a.execute_action(Action::ToggleHelp, 20);
    assert!(a.show_help && e.changes.is_empty());
    let e = a.execute_action(Action::SearchFile, 20);
    assert!(e.search);
    assert!(matches!(a.prompt.as_ref().unwrap().intent, PromptIntent::SearchFile));
}

#[test]
fn control_and_alt_chars_are_not_typed() {
    let mut a = editing_app();
    press(&mut a, Key::Char('a'), CONTROL);
    press(&mut a, Key::Char('a'), ALT);
    press(&mut a, Key::Char('A'), SHIFT);
    assert_eq!(text(&a), "A");
}

#[test]
fn split_and_close_through_bindings() {
    let mut a = editing_app();
    press(&mut a, Key::Char('v'), ALT);
    assert_eq!(a.windows.len(), 2);
    press(&mut a, Key::Char('w'), ALT);
    assert_eq!(a.windows.len(), 1);
    press(&mut a, Key::Char('w'), ALT);
    assert_eq!(a.state, AppState::Intro);
}

#[test]
fn motions_of_the_active_buffer() {
    let mut a = editing_app();
    type_text(&mut a, "abc");
    press(&mut a, Key::Enter, NO_MODIFIERS);
    type_text(&mut a, "de");
    press(&mut a, Key::Home, NO_MODIFIERS);
    assert_eq!(cursor(&a), 4);
    press(&mut a, Key::Up, NO_MODIFIERS);
    assert_eq!(cursor(&a), 2);
    press(&mut a, Key::End, NO_MODIFIERS);
    assert_eq!(cursor(&a), 3);
    a.move_active(Motion::Right, false);
    assert_eq!(cursor(&a), 4);
    press(&mut a, Key::PageDown, NO_MODIFIERS);
    assert_eq!(cursor(&a), 5);
}

#[test]
fn clicks_in_the_tree_and_windows() {
    let mut a = app();
    a.load_file("/ws/a.rs".to_string(), Some("abc\ndef".to_string()));
    a.show_tree = true;
    a.window_areas = vec![(1, Rect { x: 16, y: 0, width: 64, height: 24 })];
    a.focus = Focus::Tree;
    assert!(a.check_mouse(2));
    let e = a.handle_mouse_event(MouseKind::LeftDown, 3, 2, 16, 20, false);
    assert!(e.open.is_none());
    assert_eq!(a.explorer.state.selected(), Some(1));
    let e = a.handle_mouse_event(MouseKind::LeftDown, 3, 3, 16, 20, true);
    assert_eq!(e.open.as_deref(), Some("/ws/a.rs"));
    a.handle_mouse_event(MouseKind::LeftDown, 16 + 4 + 2, 2, 16, 20, false);
    assert_eq!(a.focus, Focus::Window(1));
    assert_eq!(cursor(&a), 6);
    a.handle_mouse_event(MouseKind::LeftDrag, 16 + 4 + 0, 1, 16, 20, false);
    assert_eq!(cursor(&a), 1);
    assert_eq!(a.get_active_document().unwrap().buffer.selection_anchor, Some(6));
}

#[test]
fn wheel_scrolls_the_tree_three_rows() {
    let mut a = app();
    a.handle_mouse_event(MouseKind::ScrollDown, 0, 0, 0, 20, false);
    assert_eq!(a.explorer.state.selected(), Some(2));
    a.handle_mouse_event(MouseKind::ScrollUp, 0, 0, 0, 20, false);
    assert_eq!(a.explorer.state.selected(), Some(0));
}

#[test]
fn each_action_asks_only_for_what_it_uses() {
    let mut a = app();
    a.next_window_id = usize::MAX;
    a.next_buffer_id = usize::MAX;
    assert!(a.check_action(Action::Quit));
    assert!(a.check_action(Action::ToggleHelp));
    assert!(!a.check_action(Action::SplitVertical));
    assert!(!a.check_action(Action::SplitHorizontal));
}
