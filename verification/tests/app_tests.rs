use wyvern::app::{
    answer_is_yes, lookup_binding, Action, App, AppState, Focus, Key, KeyCombo, PromptAction,
    PromptIntent, PromptOutcome, SearchRequest, ALT, CONTROL, NO_MODIFIERS, SHIFT,
};
use wyvern::explorer::{ExplorerEntry, FileExplorer, WorkspaceTextMatch};
use wyvern::git::GitContext;
use wyvern::layout::{Direction, Rect, SplitNode};

fn tree_listing() -> Vec<ExplorerEntry> {
    vec![
        ExplorerEntry { path: "/ws/a.rs".to_string(), name: "a.rs".to_string(), is_dir: false },
        ExplorerEntry { path: "/ws/src".to_string(), name: "src".to_string(), is_dir: true },
    ]
}

fn app() -> App {
    App::new(
        "/ws".to_string(),
        FileExplorer::new("/ws".to_string(), Some(tree_listing())),
        GitContext::empty(),
    )
}

fn leaves(n: &SplitNode) -> Vec<usize> {
    match n {
        SplitNode::Leaf(id) => vec![*id],
        SplitNode::Split(_, a, b) => {
            let mut v = leaves(a);
            v.extend(leaves(b));
            v
        }
    }
}

fn window_ids(a: &App) -> Vec<usize> {
    a.windows.iter().map(|w| w.id).collect()
}

fn type_into_prompt(a: &mut App, s: &str) {
    for c in s.chars() {
        assert!(matches!(a.handle_prompt_key(Key::Char(c)), PromptOutcome::Search));
    }
}

fn active_text(a: &App) -> String {
    a.get_active_document().unwrap().buffer.get_full_text()
}

#[test]
fn a_new_app_shows_the_welcome_screen() {
    let a = app();
    assert_eq!(a.state, AppState::Intro);
    assert_eq!(a.focus, Focus::Tree);
    assert!(!a.show_tree && !a.quit && a.needs_redraw);
    assert!(a.documents.is_empty() && a.windows.is_empty());
    assert!(a.get_active_document().is_none());
    assert_eq!(a.keybindings.len(), 42);
}

#[test]
fn default_bindings() {
    let kb = App::default_keybindings();
    let look = |code, modifiers| lookup_binding(&kb, KeyCombo { code, modifiers });
    assert_eq!(look(Key::Char('s'), CONTROL), Some(Action::Save));
    assert_eq!(look(Key::F(2), NO_MODIFIERS), Some(Action::ToggleTree));
    assert_eq!(look(Key::Char('w'), ALT), Some(Action::CloseWindow));
    assert_eq!(look(Key::Left, SHIFT), Some(Action::MoveLeft(true)));
    assert_eq!(look(Key::Left, NO_MODIFIERS), Some(Action::MoveLeft(false)));
    assert_eq!(look(Key::Char('s'), NO_MODIFIERS), None);
    assert_eq!(look(Key::Left, CONTROL | SHIFT), None);
}

#[test]
fn a_blank_file_opens_the_workspace() {
    let mut a = app();
    a.new_blank_file();
    assert_eq!(a.state, AppState::Workspace);
    assert_eq!(window_ids(&a), vec![1]);
    assert_eq!(a.focus, Focus::Window(1));
    assert_eq!(leaves(&a.layout), vec![1]);
    assert_eq!(a.status_msg.as_deref(), Some("Archivo en memoria. CTRL + S para guardar"));
    let d = a.get_active_document().unwrap();
    assert!(d.filepath.is_none() && !d.is_dirty && d.version == 1);
    a.new_blank_file();
    assert_eq!(window_ids(&a), vec![1, 2]);
    assert_eq!(leaves(&a.layout), vec![1, 2]);
    assert!(matches!(a.layout, SplitNode::Split(Direction::Horizontal, _, _)));
    assert_eq!(a.active_window, 2);
    assert_eq!(a.documents.len(), 2);
}

#[test]
fn split_then_close_restores_the_window() {
    let mut a = app();
    a.new_blank_file();
    a.split_window(Direction::Vertical);
    assert_eq!(window_ids(&a), vec![1, 2]);
    assert_eq!(a.windows[1].buffer_id, a.windows[0].buffer_id);
    assert_eq!(a.focus, Focus::Window(2));
    assert!(matches!(a.layout, SplitNode::Split(Direction::Vertical, _, _)));
    a.close_active_window();
    assert_eq!(window_ids(&a), vec![1]);
    assert_eq!(a.focus, Focus::Window(1));
    assert!(matches!(a.layout, SplitNode::Leaf(1)));
    a.close_active_window();
    assert!(a.windows.is_empty());
    assert_eq!(a.state, AppState::Intro);
    assert_eq!(a.focus, Focus::Tree);
    assert!(matches!(a.layout, SplitNode::Leaf(0)));
}

#[test]
fn a_blank_file_then_close_restores_the_windows() {
    let mut a = app();
    a.new_blank_file();
    a.new_blank_file();
    a.close_active_window();
    assert_eq!(window_ids(&a), vec![1]);
    assert_eq!(leaves(&a.layout), vec![1]);
    assert_eq!(a.focus, Focus::Window(1));
}

#[test]
fn splitting_from_the_tree_does_nothing() {
    let mut a = app();
    a.split_window(Direction::Horizontal);
    assert!(a.windows.is_empty());
    a.close_active_window();
    assert_eq!(a.state, AppState::Intro);
}

#[test]
fn toggling_the_tree_twice() {
    let mut a = app();
    assert!(a.toggle_tree());
    assert!(a.show_tree);
    assert_eq!(a.focus, Focus::Tree);
    assert!(!a.toggle_tree());
    assert_eq!(a.state, AppState::Intro);
    a.new_blank_file();
    a.toggle_tree();
    a.toggle_tree();
    assert!(!a.show_tree);
    assert_eq!(a.focus, Focus::Window(1));
}

#[test]
fn loading_a_file_opens_it_once() {
    let mut a = app();
    assert!(a.load_file("/ws/src/a.rs".to_string(), Some("fn main() {}".to_string())));
    assert_eq!(a.state, AppState::Workspace);
    assert_eq!(a.working_dir, "/ws/src");
    assert_eq!(active_text(&a), "fn main() {}");
    assert!(!a.load_file("/ws/src/a.rs".to_string(), Some("other".to_string())));
    assert_eq!(a.documents.len(), 1);
    assert_eq!(active_text(&a), "fn main() {}");
    assert!(a.load_file("/ws/b.rs".to_string(), None));
    assert_eq!(a.documents.len(), 2);
    assert_eq!(window_ids(&a), vec![1]);
    assert_eq!(active_text(&a), "");
    assert_eq!(a.working_dir, "/ws");
}

#[test]
fn saving_a_new_file_asks_for_a_name() {
    let mut a = app();
    a.new_blank_file();
    assert!(!a.trigger_save());
    assert!(matches!(&a.prompt.as_ref().unwrap().intent, PromptIntent::SaveAs(d) if d == "/ws"));
    type_into_prompt(&mut a, " b.rs ");
    match a.handle_prompt_key(Key::Enter) {
        PromptOutcome::Answered(PromptAction::Save, true) => {}
        _ => panic!("expected a save"),
    }
    assert!(a.prompt.is_none());
    assert_eq!(a.get_active_document().unwrap().filepath.as_deref(), Some("/ws/b.rs"));
    assert_eq!(a.save_target(), Some(("/ws/b.rs".to_string(), String::new())));
    assert!(a.trigger_save());
    assert!(a.save_file(Ok(())));
    assert_eq!(a.status_msg.as_deref(), Some("Guardado Exitosamente"));
    assert!(!a.get_active_document().unwrap().is_dirty);
    assert!(!a.save_file(Err("disco lleno".to_string())));
    assert_eq!(a.status_msg.as_deref(), Some("Error: disco lleno"));
}

#[test]
fn an_empty_save_name_is_refused() {
    let mut a = app();
    a.new_blank_file();
    a.trigger_save();
    type_into_prompt(&mut a, "   ");
    let (action, refresh) = a.execute_prompt();
    assert!(matches!(action, PromptAction::Nothing));
    assert!(!refresh);
    assert_eq!(a.status_msg.as_deref(), Some("No se puede guardar: Nombre vacio"));
    assert!(a.get_active_document().unwrap().filepath.is_none());
}

#[test]
fn the_active_document_can_be_changed_in_place() {
    let mut a = app();
    assert!(a.active_document_mut().is_none());
    a.new_blank_file();
    a.new_blank_file();
    a.active_document_mut().unwrap().filepath = Some("/ws/n.rs".to_string());
    assert_eq!(a.documents[1].1.filepath.as_deref(), Some("/ws/n.rs"));
    assert!(a.documents[0].1.filepath.is_none());
}

#[test]
fn saving_without_a_document() {
    let mut a = app();
    assert!(!a.trigger_save());
    assert!(a.prompt.is_none());
    assert_eq!(a.save_target(), None);
    assert!(!a.save_file(Ok(())));
}

#[test]
fn renaming_the_selected_entry() {
    let mut a = app();
    a.load_file("/ws/a.rs".to_string(), Some("x".to_string()));
    a.explorer.next();
    a.explorer.next();
    assert_eq!(a.explorer.get_selected().unwrap().name, "a.rs");
    a.trigger_rename();
    let p = a.prompt.as_ref().unwrap();
    assert!(matches!(&p.intent, PromptIntent::Rename(f) if f == "/ws/a.rs"));
    assert_eq!(p.input, "a.rs");
    assert!(matches!(a.handle_prompt_key(Key::Backspace), PromptOutcome::Search));
    assert!(matches!(a.handle_prompt_key(Key::Backspace), PromptOutcome::Search));
    type_into_prompt(&mut a, "md");
    match a.handle_prompt_key(Key::Enter) {
        PromptOutcome::Answered(PromptAction::Rename { from, to }, true) => {
            assert_eq!(from, "/ws/a.rs");
            assert_eq!(to, "/ws/a.md");
            assert!(a.finish_rename(&from, to, true));
        }
        _ => panic!("expected a rename"),
    }
    assert_eq!(a.status_msg.as_deref(), Some("Renombrado exitosamente"));
    assert_eq!(a.get_active_document().unwrap().filepath.as_deref(), Some("/ws/a.md"));
    assert!(!a.finish_rename("/ws/a.md", "/ws/c.md".to_string(), false));
    assert_eq!(a.status_msg.as_deref(), Some("Error al renombrar"));
    assert_eq!(a.get_active_document().unwrap().filepath.as_deref(), Some("/ws/a.md"));
}

#[test]
fn the_parent_row_cannot_be_renamed_or_deleted() {
    let mut a = app();
    assert_eq!(a.explorer.get_selected().unwrap().name, "..");
    a.trigger_rename();
    assert!(a.prompt.is_none());
    a.trigger_delete();
    assert!(a.prompt.is_none());
}

#[test]
fn deleting_the_open_file_closes_its_window() {
    let mut a = app();
    a.load_file("/ws/a.rs".to_string(), Some("x".to_string()));
    a.explorer.next();
    a.explorer.next();
    a.trigger_delete();
    assert!(matches!(&a.prompt.as_ref().unwrap().intent, PromptIntent::Delete(f) if f == "/ws/a.rs"));
    type_into_prompt(&mut a, "Y");
    match a.execute_prompt() {
        (PromptAction::Delete { path }, true) => {
            assert_eq!(path, "/ws/a.rs");
            assert!(a.finish_delete(&path, true));
        }
        _ => panic!("expected a delete"),
    }
    assert_eq!(a.status_msg.as_deref(), Some("Eliminado exitosamente"));
    assert!(a.windows.is_empty());
    assert_eq!(a.state, AppState::Intro);
}

#[test]
fn a_delete_not_confirmed_does_nothing() {
    let mut a = app();
    a.explorer.next();
    a.trigger_delete();
    type_into_prompt(&mut a, "yes");
    assert!(matches!(a.execute_prompt(), (PromptAction::Nothing, true)));
    assert!(!a.finish_delete("/ws/src", false));
    assert_eq!(a.status_msg.as_deref(), Some("Error al eliminar"));
}

#[test]
fn confirming_quit() {
    let mut a = app();
    a.open_prompt(PromptIntent::ConfirmQuit);
    type_into_prompt(&mut a, "n");
    a.execute_prompt();
    assert!(!a.quit);
    a.open_prompt(PromptIntent::ConfirmQuit);
    type_into_prompt(&mut a, " y");
    a.execute_prompt();
    assert!(a.quit);
}

#[test]
fn yes_answers() {
    assert!(answer_is_yes("y"));
    assert!(answer_is_yes("  Y\n"));
    assert!(!answer_is_yes("yes"));
    assert!(!answer_is_yes(""));
}

#[test]
fn file_search_prompt_cycles_and_opens() {
    let mut a = app();
    assert!(a.open_prompt(PromptIntent::SearchFile));
    type_into_prompt(&mut a, "rs");
    match a.update_prompt_search() {
        Some(SearchRequest::Files { root, query }) => {
            assert_eq!(root, "/ws");
            assert_eq!(query, "rs");
        }
        _ => panic!("expected a file search"),
    }
    a.set_file_results(vec!["/ws/a.rs".to_string(), "/ws/b.rs".to_string(), "/ws/c.rs".to_string()]);
    assert_eq!(a.prompt.as_ref().unwrap().selection_state.selected(), Some(0));
    a.handle_prompt_key(Key::Up);
    assert_eq!(a.prompt.as_ref().unwrap().selection_state.selected(), Some(2));
    a.handle_prompt_key(Key::Down);
    assert_eq!(a.prompt.as_ref().unwrap().selection_state.selected(), Some(0));
    a.handle_prompt_key(Key::Down);
    match a.handle_prompt_key(Key::Enter) {
        PromptOutcome::Answered(PromptAction::Open { path }, true) => assert_eq!(path, "/ws/b.rs"),
        _ => panic!("expected a file to open"),
    }
}

#[test]
fn prompts_that_are_not_searches() {
    let mut a = app();
    assert!(!a.open_prompt(PromptIntent::ConfirmQuit));
    assert!(a.update_prompt_search().is_none());
    assert!(matches!(a.handle_prompt_key(Key::Tab), PromptOutcome::Nothing));
    assert!(matches!(a.handle_prompt_key(Key::Esc), PromptOutcome::Nothing));
    assert!(a.prompt.is_none());
    assert!(a.update_prompt_search().is_none());
}

#[test]
fn pasting_into_a_prompt() {
    let mut a = app();
    assert!(!a.paste_into_prompt("x"));
    a.open_prompt(PromptIntent::SearchText);
    type_into_prompt(&mut a, "ab");
    assert!(a.paste_into_prompt("cd"));
    assert_eq!(a.prompt.as_ref().unwrap().input, "abcd");
}

#[test]
fn a_text_search_match_puts_the_cursor_on_it() {
    let mut a = app();
    a.open_prompt(PromptIntent::SearchText);
    type_into_prompt(&mut a, "foo");
    let found = WorkspaceTextMatch {
        path: "/ws/a.rs".to_string(),
        line_idx: 1,
        char_offset: 2,
        line_preview: "a foo".to_string(),
    };
    a.set_text_results(vec![found]);
    let (action, refresh) = a.execute_prompt();
    assert!(refresh);
    let (m, query) = match action {
        PromptAction::OpenMatch { found, query } => (found, query),
        _ => panic!("expected a match to open"),
    };
    a.load_file(m.path.clone(), Some("foo\na foo\nfoo".to_string()));
    a.jump_to_text_match(&m, query);
    let b = &a.get_active_document().unwrap().buffer;
    assert_eq!(b.cursor_char_idx, 6);
    assert_eq!(b.selection_anchor, Some(9));
    assert_eq!(a.last_search_query.as_deref(), Some("foo"));
    assert_eq!(a.text_search_results, vec![4, 10, 13]);
    assert_eq!(a.current_search_idx, 0);
    assert!(!a.show_tree);
    a.nex_search_result();
    assert_eq!(a.current_search_idx, 1);
    assert_eq!(a.status_msg.as_deref(), Some("Coincidencia 2/3"));
    let b = &a.get_active_document().unwrap().buffer;
    assert_eq!(b.cursor_char_idx, 10);
    assert_eq!(b.selection_anchor, Some(13));
    a.nex_search_result();
    assert_eq!(a.current_search_idx, 2);
    assert_eq!(a.status_msg.as_deref(), Some("Coincidencia 2/3"));
    assert_eq!(a.get_active_document().unwrap().buffer.cursor_char_idx, 10);
    a.nex_search_result();
    assert_eq!(a.current_search_idx, 0);
    assert_eq!(a.status_msg.as_deref(), Some("Coincidencia 1/3"));
    let b = &a.get_active_document().unwrap().buffer;
    assert_eq!(b.cursor_char_idx, 4);
    assert_eq!(b.selection_anchor, Some(7));
}

#[test]
fn focus_moves_between_drawn_windows() {
    let mut a = app();
    a.new_blank_file();
    a.split_window(Direction::Horizontal);
    a.window_areas = vec![
        (1, Rect { x: 0, y: 0, width: 40, height: 20 }),
        (2, Rect { x: 40, y: 0, width: 40, height: 20 }),
    ];
    assert_eq!(a.focus, Focus::Window(2));
    assert!(a.check_focus_move(-1, 0));
    a.move_focus_dir(-1, 0);
    assert_eq!(a.focus, Focus::Window(1));
    assert_eq!(a.active_window, 1);
    a.move_focus_dir(0, 1);
    assert_eq!(a.focus, Focus::Window(1));
    a.show_tree = true;
    a.move_focus_dir(-1, 0);
    assert_eq!(a.focus, Focus::Tree);
    a.move_focus_dir(1, 0);
    assert_eq!(a.focus, Focus::Window(1));
    a.move_focus_dir(1, 0);
    assert_eq!(a.focus, Focus::Window(2));
}

#[test]
fn dirty_files_in_the_tree() {
    let mut a = app();
    a.load_file("/ws/a.rs".to_string(), Some("x".to_string()));
    assert_eq!(a.explorer.entries[2].name, "a.rs");
    assert!(!a.entry_dirty(2));
    a.documents[0].1.is_dirty = true;
    assert!(a.entry_dirty(2));
    assert!(!a.entry_dirty(1));
    assert!(!a.entry_dirty(0));
}

#[test]
fn loading_keeps_one_document_per_file() {
    let mut a = app();
    assert!(a.load_file("/ws/a.rs".to_string(), Some("a".to_string())));
    assert!(a.load_file("/ws/b.rs".to_string(), Some("b".to_string())));
    let next = a.next_buffer_id;
    assert!(!a.load_file("/ws/a.rs".to_string(), Some("again".to_string())));
    assert!(!a.load_file("/ws/b.rs".to_string(), None));
    assert_eq!(a.next_buffer_id, next);
    let mut paths: Vec<String> = a.documents.iter().filter_map(|(_, d)| d.filepath.clone()).collect();
    assert_eq!(paths.len(), 2);
    paths.sort();
    paths.dedup();
    assert_eq!(paths.len(), 2);
    assert_eq!(active_text(&a), "b");
}

#[test]
fn paths_that_name_one_file_open_one_document() {
    let mut a = app();
    assert!(a.load_file("/ws/src/a.rs".to_string(), Some("a".to_string())));
    assert!(!a.load_file("/ws//src/a.rs".to_string(), Some("again".to_string())));
    assert!(!a.load_file("/ws/./src/a.rs".to_string(), None));
    assert!(!a.load_file("/ws/src/a.rs/".to_string(), None));
    assert_eq!(a.documents.len(), 1);
    assert!(a.load_file("/ws/src/../src/a.rs".to_string(), None));
    assert_eq!(a.documents.len(), 2);
    assert_eq!(a.focus, Focus::Window(a.active_window));
}

#[test]
fn rename_and_delete_follow_the_file_by_path() {
    let mut a = app();
    a.load_file("/ws/a.rs".to_string(), Some("x".to_string()));
    assert!(a.finish_rename("/ws//a.rs", "/ws/b.rs".to_string(), true));
    assert_eq!(a.get_active_document().unwrap().filepath.as_deref(), Some("/ws/b.rs"));
    assert!(a.finish_delete("/ws/./b.rs", true));
    assert!(a.windows.is_empty());
    assert_eq!(a.status_msg.as_deref(), Some("Eliminado exitosamente"));
}

#[test]
fn a_language_server_failure_is_reported() {
    let mut a = app();
    a.lsp_failed("LSP process died");
    assert_eq!(a.status_msg.as_deref(), Some("Error LSP: LSP process died"));
}
