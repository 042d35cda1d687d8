use wyvern::editor::{EditorBuffer, Mutation};

fn numbered_lines(n: usize) -> String {
    (0..n).map(|i| format!("line{}\n", i)).collect()
}

#[test]
fn new_buffer_is_empty() {
    let b = EditorBuffer::new();
    assert_eq!(b.get_full_text(), "");
    assert_eq!(b.cursor_char_idx, 0);
    assert!(b.undo_stack.is_empty() && b.redo_stack.is_empty() && b.current_tx.is_none());
}

#[test]
fn typing_a_word_is_one_undo_step() {
    let mut b = EditorBuffer::new();
    b.insert_char('a');
    b.insert_char('b');
    assert_eq!(b.get_full_text(), "ab");
    assert_eq!(b.cursor_char_idx, 2);
    let deltas = b.undo().unwrap();
    assert_eq!(deltas, vec![(0, 2, String::new())]);
    assert_eq!(b.get_full_text(), "");
    assert_eq!(b.cursor_char_idx, 0);
    assert!(b.undo().is_none());
}

#[test]
fn a_separator_closes_the_group() {
    let mut b = EditorBuffer::new();
    for c in "ab c".chars() {
        b.insert_char(c);
    }
    assert_eq!(b.undo_stack.len(), 1);
    b.undo();
    assert_eq!(b.get_full_text(), "ab ");
    b.undo();
    assert_eq!(b.get_full_text(), "");
}

#[test]
fn redo_restores_what_undo_took_back() {
    let mut b = EditorBuffer::from_text("xy");
    b.cursor_char_idx = 2;
    b.insert_str("zz");
    b.undo();
    assert_eq!(b.get_full_text(), "xy");
    let deltas = b.redo().unwrap();
    assert_eq!(deltas, vec![(2, 2, "zz".to_string())]);
    assert_eq!(b.get_full_text(), "xyzz");
    assert_eq!(b.cursor_char_idx, 4);
    assert!(b.redo().is_none());
    b.undo();
    assert_eq!(b.get_full_text(), "xy");
    assert_eq!(b.cursor_char_idx, 2);
}

#[test]
fn a_new_edit_clears_redo() {
    let mut b = EditorBuffer::new();
    b.insert_char('a');
    b.undo();
    assert_eq!(b.redo_stack.len(), 1);
    b.insert_char('b');
    assert!(b.redo_stack.is_empty());
}

#[test]
fn empty_insert_str_changes_nothing() {
    let mut b = EditorBuffer::from_text("abc");
    b.insert_str("");
    assert_eq!(b.get_full_text(), "abc");
    assert!(b.current_tx.is_none());
}

#[test]
fn backspaces_merge_into_one_delete() {
    let mut b = EditorBuffer::from_text("abc");
    b.cursor_char_idx = 3;
    b.delete_backwards();
    b.delete_backwards();
    assert_eq!(b.get_full_text(), "a");
    match &b.current_tx.as_ref().unwrap().mutations[..] {
        [Mutation::Delete { idx, text }] => {
            assert_eq!(*idx, 1);
            assert_eq!(text, "bc");
        }
        other => panic!("unexpected mutations {:?}", other),
    }
    b.undo();
    assert_eq!(b.get_full_text(), "abc");
    assert_eq!(b.cursor_char_idx, 3);
}

#[test]
fn backspace_removes_a_soft_tab() {
    let mut b = EditorBuffer::from_text("      x");
    b.cursor_char_idx = 6;
    b.delete_backwards();
    assert_eq!(b.get_full_text(), "    x");
    assert_eq!(b.cursor_char_idx, 4);
    b.delete_backwards();
    assert_eq!(b.get_full_text(), "x");
}

#[test]
fn backspace_at_line_start_removes_crlf() {
    let mut b = EditorBuffer::from_text("a\r\nb");
    b.cursor_char_idx = 3;
    b.delete_backwards();
    assert_eq!(b.get_full_text(), "ab");
    assert_eq!(b.cursor_char_idx, 1);
}

#[test]
fn backspace_removes_a_whole_grapheme() {
    let mut b = EditorBuffer::from_text("xe\u{301}");
    b.cursor_char_idx = 3;
    b.delete_backwards();
    assert_eq!(b.get_full_text(), "x");
}

#[test]
fn backspace_at_start_does_nothing() {
    let mut b = EditorBuffer::from_text("abc");
    b.delete_backwards();
    assert_eq!(b.get_full_text(), "abc");
    assert!(b.current_tx.is_none());
}

#[test]
fn deleting_a_selection_is_undone_whole() {
    let mut b = EditorBuffer::from_text("hello");
    b.cursor_char_idx = 4;
    b.selection_anchor = Some(1);
    assert_eq!(b.get_selection_range(), Some(1..4));
    assert_eq!(b.get_selected_text().as_deref(), Some("ell"));
    assert_eq!(b.delete_selection().as_deref(), Some("ell"));
    assert_eq!(b.get_full_text(), "ho");
    assert_eq!(b.cursor_char_idx, 1);
    assert_eq!(b.selection_anchor, None);
    b.undo();
    assert_eq!(b.get_full_text(), "hello");
    assert_eq!(b.cursor_char_idx, 4);
}

#[test]
fn an_empty_selection_is_none() {
    let mut b = EditorBuffer::from_text("hello");
    b.cursor_char_idx = 2;
    b.selection_anchor = Some(2);
    assert_eq!(b.get_selection_range(), None);
    assert_eq!(b.delete_selection(), None);
    assert_eq!(b.get_full_text(), "hello");
}

#[test]
fn selecting_with_arrows() {
    let mut b = EditorBuffer::from_text("abcd");
    b.move_cursor_right(true);
    b.move_cursor_right(true);
    assert_eq!(b.selection_anchor, Some(0));
    assert_eq!(b.get_selected_text().as_deref(), Some("ab"));
    b.move_cursor_left(false);
    assert_eq!(b.selection_anchor, None);
    assert_eq!(b.cursor_char_idx, 1);
}

#[test]
fn moving_right_steps_over_crlf() {
    let mut b = EditorBuffer::from_text("a\r\nb");
    b.cursor_char_idx = 1;
    b.move_cursor_right(false);
    assert_eq!(b.cursor_char_idx, 3);
    b.move_cursor_left(false);
    assert_eq!(b.cursor_char_idx, 1);
}

#[test]
fn moving_over_a_combined_grapheme() {
    let mut b = EditorBuffer::from_text("e\u{301}x");
    b.move_cursor_right(false);
    assert_eq!(b.cursor_char_idx, 2);
    b.move_cursor_left(false);
    assert_eq!(b.cursor_char_idx, 0);
}

#[test]
fn vertical_moves_keep_the_column() {
    let mut b = EditorBuffer::from_text("abcdef\nab\nabcdef");
    for _ in 0..5 {
        b.move_cursor_right(false);
    }
    assert_eq!(b.target_visual_col, 5);
    b.move_cursor_down(false);
    assert_eq!(b.cursor_char_idx, 9);
    b.move_cursor_down(false);
    assert_eq!(b.cursor_char_idx, 15);
    b.move_cursor_down(false);
    assert_eq!(b.cursor_char_idx, 15);
    b.move_cursor_up(false);
    b.move_cursor_up(false);
    assert_eq!(b.cursor_char_idx, 5);
    b.move_cursor_up(false);
    assert_eq!(b.cursor_char_idx, 5);
}

#[test]
fn line_start_and_end() {
    let mut b = EditorBuffer::from_text("x\nabc\r\nd");
    b.cursor_char_idx = 3;
    b.move_to_end_of_line(false);
    assert_eq!(b.cursor_char_idx, 5);
    b.move_to_start_of_line(true);
    assert_eq!(b.cursor_char_idx, 2);
    assert_eq!(b.selection_anchor, Some(5));
}

#[test]
fn paging_moves_by_lines() {
    let mut b = EditorBuffer::from_text(&numbered_lines(100));
    b.move_page_down(false, 50);
    assert_eq!(b.line_and_start(b.cursor_char_idx).0, 50);
    b.move_page_down(false, 500);
    assert_eq!(b.line_and_start(b.cursor_char_idx).0, 100);
    b.move_page_up(false, 30);
    assert_eq!(b.line_and_start(b.cursor_char_idx).0, 70);
    b.move_page_up(false, 300);
    // Column 0 still takes in the first grapheme of a non-empty line.
    assert_eq!(b.cursor_char_idx, 1);
}

#[test]
fn visual_columns_count_wide_chars() {
    let b = EditorBuffer::from_text("日本x\nab");
    assert_eq!(b.char_idx_to_visual_col(1), 2);
    assert_eq!(b.char_idx_to_visual_col(3), 5);
    assert_eq!(b.visual_col_to_char_idx(0, 3), 1);
    assert_eq!(b.visual_col_to_char_idx(0, 4), 2);
    assert_eq!(b.visual_col_to_char_idx(1, 9), 6);
    assert_eq!(b.visual_col_to_char_idx(1, 0), 5);
    assert_eq!(b.visual_col_to_char_idx(0, 1), 1);
}

#[test]
fn scrolling_keeps_cursor_visible() {
    let mut b = EditorBuffer::from_text(&numbered_lines(100));
    b.move_page_down(false, 50);
    b.ensure_cursor_visible(80, 10);
    assert_eq!(b.scroll_y, 44);
    assert_eq!(b.scroll_x, 0);
    b.move_page_up(false, 48);
    b.ensure_cursor_visible(80, 10);
    assert_eq!(b.scroll_y, 0);
}

#[test]
fn horizontal_scroll_follows_cursor() {
    let mut b = EditorBuffer::from_text(&"x".repeat(200));
    b.move_to_end_of_line(false);
    b.ensure_cursor_visible(80, 10);
    assert_eq!(b.scroll_x, 200 + 4 + 1 - 80);
}

#[test]
fn viewport_scroll_drags_the_cursor() {
    let mut b = EditorBuffer::from_text(&numbered_lines(100));
    b.scroll_viewport_down(20, 10, false);
    assert_eq!(b.scroll_y, 20);
    assert_eq!(b.line_and_start(b.cursor_char_idx).0, 23);
    b.scroll_viewport_up(15, 10, false);
    assert_eq!(b.scroll_y, 5);
    assert_eq!(b.line_and_start(b.cursor_char_idx).0, 11);
}

#[test]
fn clicking_places_the_cursor() {
    let mut b = EditorBuffer::from_text("abc\ndef");
    b.set_cursor_from_screen(8, 4, 5, 3, 2, false);
    assert_eq!(b.cursor_char_idx, 5);
    b.set_cursor_from_screen(30, 20, 5, 3, 2, true);
    assert_eq!(b.cursor_char_idx, 7);
    assert_eq!(b.selection_anchor, Some(5));
    b.set_cursor_from_screen(6, 20, 5, 3, 2, false);
    assert_eq!(b.cursor_char_idx, 7);
}

#[test]
fn lsp_positions_count_utf16() {
    let mut b = EditorBuffer::from_text("😀a\nb");
    b.cursor_char_idx = 2;
    assert_eq!(b.get_lsp_position(), (0, 3));
    assert_eq!(b.get_lsp_position_utf16_at(4), (1, 1));
    assert_eq!(b.get_lsp_position_utf16_at(99), (1, 1));
}

#[test]
fn word_prefix_and_indentation() {
    let mut b = EditorBuffer::from_text("  \tfoo bar_1");
    b.cursor_char_idx = 12;
    assert_eq!(b.get_current_word_prefix(), "bar_1");
    assert_eq!(b.get_current_line_indentation(), "  \t");
    assert_eq!(b.char_at_cursor(), None);
    b.cursor_char_idx = 3;
    assert_eq!(b.char_at_cursor(), Some('f'));
    assert_eq!(b.get_current_word_prefix(), "");
}

#[test]
fn find_text_reports_rest_of_line_offsets() {
    let b = EditorBuffer::from_text("ab ab\nab");
    assert_eq!(b.find_text("ab"), vec![6, 4, 8]);
    assert_eq!(b.find_text(""), Vec::<usize>::new());
    assert_eq!(b.find_text("zz"), Vec::<usize>::new());
}

#[test]
fn mark_dirty_drops_stale_highlighting() {
    let mut b = EditorBuffer::from_text("a\nb\nc");
    b.min_dirty_line = 5;
    b.cursor_char_idx = 2;
    b.mark_dirty();
    assert_eq!(b.min_dirty_line, 1);
}

#[test]
fn commit_seals_the_open_group() {
    let mut b = EditorBuffer::new();
    b.insert_char('a');
    b.commit_tx();
    assert!(b.current_tx.is_none());
    assert_eq!(b.undo_stack.len(), 1);
    b.insert_char('b');
    b.undo();
    assert_eq!(b.get_full_text(), "a");
}

fn replay_deltas(text: &str, deltas: &[(usize, usize, String)]) -> String {
    let mut cs: Vec<char> = text.chars().collect();
    for (s, e, t) in deltas {
        assert!(s <= e);
        assert!(s == e || t.is_empty());
        cs.splice(*s..*e, t.chars());
    }
    cs.into_iter().collect()
}

fn committed(text: &str, cursor: usize, anchor: Option<usize>) -> EditorBuffer {
    let mut b = EditorBuffer::from_text(text);
    b.cursor_char_idx = cursor;
    b.selection_anchor = anchor;
    b.commit_tx();
    b
}

fn undo_restores(b0: &EditorBuffer, mut b1: EditorBuffer) {
    assert_ne!(b1.get_full_text(), b0.get_full_text());
    b1.undo().unwrap();
    assert_eq!(b1.get_full_text(), b0.get_full_text());
    assert_eq!(b1.cursor_char_idx, b0.cursor_char_idx);
    assert_eq!(b1.selection_anchor, None);
    assert_eq!(b1.redo_stack.len(), 1);
}

#[test]
fn one_edit_then_undo_restores_text_and_cursor() {
    let b0 = committed("hello world", 5, None);
    let mut b = committed("hello world", 5, None);
    b.insert_char('!');
    undo_restores(&b0, b);
    let mut b = committed("hello world", 5, None);
    b.insert_str(", big");
    undo_restores(&b0, b);
    let b0 = committed("hello world", 5, Some(2));
    let mut b = committed("hello world", 5, Some(2));
    assert_eq!(b.delete_selection(), Some("llo".to_string()));
    undo_restores(&b0, b);
    let b0 = committed("ab\ncd", 3, None);
    let mut b = committed("ab\ncd", 3, None);
    b.delete_backwards();
    assert_eq!(b.get_full_text(), "abcd");
    undo_restores(&b0, b);
}

#[test]
fn undo_and_redo_deltas_replay_to_the_new_text() {
    let mut b = EditorBuffer::from_text("one two");
    b.cursor_char_idx = 3;
    b.insert_str("xyz");
    b.delete_backwards();
    b.delete_backwards();
    b.insert_char('q');
    let before = b.get_full_text();
    let deltas = b.undo().unwrap();
    assert_eq!(replay_deltas(&before, &deltas), b.get_full_text());
    let before = b.get_full_text();
    let deltas = b.undo().unwrap();
    assert_eq!(replay_deltas(&before, &deltas), b.get_full_text());
    assert_eq!(b.get_full_text(), "onexyz two");
    let before = b.get_full_text();
    let deltas = b.redo().unwrap();
    assert_eq!(replay_deltas(&before, &deltas), b.get_full_text());
    let before = b.get_full_text();
    let deltas = b.redo().unwrap();
    assert_eq!(replay_deltas(&before, &deltas), b.get_full_text());
    assert_eq!(b.get_full_text(), "onexq two");
}

#[test]
fn ascii_columns_map_one_to_one() {
    let b = EditorBuffer::from_text("abcdef\r\nxy\nlast");
    assert_eq!(b.visual_col_to_char_idx(0, 3), 3);
    assert_eq!(b.visual_col_to_char_idx(0, 0), 1);
    assert_eq!(b.visual_col_to_char_idx(0, 99), 6);
    assert_eq!(b.visual_col_to_char_idx(1, 1), 9);
    assert_eq!(b.visual_col_to_char_idx(1, 5), 10);
    assert_eq!(b.visual_col_to_char_idx(2, 2), 13);
    assert_eq!(b.visual_col_to_char_idx(2, 40), 15);
    assert_eq!(b.char_idx_to_visual_col(3), 3);
    assert_eq!(b.char_idx_to_visual_col(10), 2);
    assert_eq!(b.char_idx_to_visual_col(14), 3);
}

#[test]
fn the_view_scrolls_only_when_cursor_or_size_changed() {
    let mut b = EditorBuffer::from_text(&numbered_lines(100));
    b.cursor_char_idx = 500;
    let now = b.sync_view(None, 40, 10);
    assert_eq!(now, (500, 40, 10));
    let y = b.scroll_y;
    assert!(y > 0);
    b.scroll_y = 0;
    assert_eq!(b.sync_view(Some(now), 40, 10), now);
    assert_eq!(b.scroll_y, 0);
    b.sync_view(Some(now), 40, 11);
    assert!(b.scroll_y > 0);
    b.mark_drawn(7);
    assert_eq!(b.min_dirty_line, 7);
    b.mark_drawn(3);
    assert_eq!(b.min_dirty_line, 7);
}
