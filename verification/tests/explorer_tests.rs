use wyvern::explorer::{
    chars_le, is_skipped_name, sort_by_name, sort_by_score_desc, take_top, ExplorerEntry,
    FileExplorer, FileSearch, ListSelection, TextSearch, FILE_RESULTS, TEXT_RESULTS,
};

fn entry(path: &str, name: &str, is_dir: bool) -> ExplorerEntry {
    ExplorerEntry { path: path.to_string(), name: name.to_string(), is_dir }
}

fn names(e: &FileExplorer) -> Vec<String> {
    e.entries.iter().map(|x| x.name.clone()).collect()
}

fn listing() -> Vec<ExplorerEntry> {
    vec![
        entry("/a/b/z.txt", "z.txt", false),
        entry("/a/b/src", "src", true),
        entry("/a/b/a.rs", "a.rs", false),
        entry("/a/b/lib", "lib", true),
        entry("/a/b/B.md", "B.md", false),
    ]
}

#[test]
fn directories_come_first_then_files_by_name() {
    let e = FileExplorer::new("/a/b".to_string(), Some(listing()));
    assert_eq!(names(&e), vec!["..", "lib", "src", "B.md", "a.rs", "z.txt"]);
    assert_eq!(e.entries[0].path, "/a");
    assert!(e.entries[0].is_dir);
    assert_eq!(e.state.selected(), Some(0));
    assert_eq!(e.state.offset(), 0);
}

#[test]
fn the_root_has_no_parent_row() {
    let e = FileExplorer::new("/".to_string(), Some(Vec::new()));
    assert!(e.entries.is_empty());
    assert_eq!(e.state.selected(), None);
    assert!(e.get_selected().is_none());
}

#[test]
fn a_failed_listing_keeps_only_the_parent_row() {
    let mut e = FileExplorer::new("/a/b".to_string(), Some(listing()));
    e.next();
    e.next();
    assert!(!e.reload(None));
    assert_eq!(names(&e), vec![".."]);
    assert_eq!(e.state.selected(), Some(2));
    assert!(e.get_selected().is_none());
    assert!(e.reload(Some(listing())));
    assert_eq!(e.state.selected(), Some(0));
}

#[test]
fn selection_stops_at_both_ends() {
    let mut e = FileExplorer::new("/a/b".to_string(), Some(listing()));
    e.previous();
    assert_eq!(e.state.selected(), Some(0));
    for _ in 0..10 {
        e.next();
    }
    assert_eq!(e.state.selected(), Some(5));
    assert_eq!(e.get_selected().unwrap().name, "z.txt");
    e.previous();
    assert_eq!(e.get_selected().unwrap().name, "a.rs");
    e.next();
    assert_eq!(e.state.selected(), Some(5));
}

#[test]
fn next_then_previous_comes_back() {
    let mut e = FileExplorer::new("/a/b".to_string(), Some(listing()));
    e.next();
    e.next();
    e.next();
    e.previous();
    assert_eq!(e.state.selected(), Some(2));
    e.previous();
    e.next();
    assert_eq!(e.state.selected(), Some(2));
}

#[test]
fn next_and_previous_from_nothing_select_the_first() {
    let mut e = FileExplorer::new("/".to_string(), None);
    assert_eq!(e.state.selected(), None);
    e.next();
    assert_eq!(e.state.selected(), Some(0));
    e.state.select(None);
    e.previous();
    assert_eq!(e.state.selected(), Some(0));
}

#[test]
fn clearing_the_selection_scrolls_to_top() {
    let mut s = ListSelection::new();
    s.offset = 7;
    s.select(Some(3));
    assert_eq!((s.selected(), s.offset()), (Some(3), 7));
    s.select(None);
    assert_eq!((s.selected(), s.offset()), (None, 0));
}

#[test]
fn names_sort_by_code_point() {
    let sorted = sort_by_name(listing());
    let got: Vec<&str> = sorted.iter().map(|x| x.name.as_str()).collect();
    assert_eq!(got, vec!["B.md", "a.rs", "lib", "src", "z.txt"]);
    let c = |s: &str| s.chars().collect::<Vec<char>>();
    assert!(chars_le(&c("ab"), &c("abc")));
    assert!(chars_le(&c("ab"), &c("ab")));
    assert!(!chars_le(&c("b"), &c("abc")));
}

#[test]
fn skipped_names() {
    for n in [".git", ".env", "target", "node_modules", "dist", "build"] {
        assert!(is_skipped_name(n), "{}", n);
    }
    for n in ["src", "targets", "Build", "a.rs", ""] {
        assert!(!is_skipped_name(n), "{}", n);
    }
}

#[test]
fn best_scores_first() {
    let v = vec![("a", 3i64), ("b", 9), ("c", -1), ("d", 5)];
    let s = sort_by_score_desc(v);
    assert_eq!(s, vec![("b", 9), ("d", 5), ("a", 3), ("c", -1)]);
    let v = vec![("a", 3i64), ("b", 9), ("c", -1), ("d", 5)];
    assert_eq!(take_top(v, 2), vec!["b", "d"]);
    assert_eq!(take_top(vec![("x", 1i64)], 5), vec!["x"]);
}

#[test]
fn file_search_walks_and_scores() {
    let mut s = FileSearch::new("/ws".to_string(), "main".to_string());
    assert_eq!(s.next_dir().as_deref(), Some("/ws"));
    assert_eq!(s.next_dir(), None);
    s.offer("/ws/src".to_string(), "src", true);
    s.offer("/ws/.git".to_string(), ".git", true);
    s.offer("/ws/target".to_string(), "target", true);
    s.offer("/ws/zzz.txt".to_string(), "zzz.txt", false);
    assert!(s.scored.is_empty());
    assert_eq!(s.pending, vec!["/ws/src".to_string()]);
    assert_eq!(s.next_dir().as_deref(), Some("/ws/src"));
    s.offer("/ws/src/main.rs".to_string(), "main.rs", false);
    s.offer("/ws/src/domain.rs".to_string(), "domain.rs", false);
    assert_eq!(s.scored.len(), 2);
    let best = s.finish();
    assert_eq!(best.len(), 2);
    assert_eq!(best[0], "/ws/src/main.rs");
}

#[test]
fn file_search_matches_the_path_below_the_root() {
    let mut s = FileSearch::new("/ws".to_string(), "ws".to_string());
    s.next_dir();
    s.offer("/ws/a.rs".to_string(), "a.rs", false);
    assert!(s.scored.is_empty());
    s.offer("/ws/news.txt".to_string(), "news.txt", false);
    assert_eq!(s.finish(), vec!["/ws/news.txt".to_string()]);
}

#[test]
fn file_search_with_empty_query_does_nothing() {
    let mut s = FileSearch::new("/ws".to_string(), String::new());
    assert_eq!(s.next_dir(), None);
    assert!(s.finish().is_empty());
}

#[test]
fn file_search_keeps_at_most_fifty() {
    let mut s = FileSearch::new("/ws".to_string(), "f".to_string());
    s.next_dir();
    for i in 0..120 {
        s.offer(format!("/ws/f{}", i), &format!("f{}", i), false);
    }
    assert_eq!(s.finish().len(), FILE_RESULTS);
}

#[test]
fn text_search_reads_files_and_keeps_lines() {
    let mut s = TextSearch::new("/ws".to_string(), "foo".to_string());
    assert_eq!(s.next_dir().as_deref(), Some("/ws"));
    assert!(!s.offer_entry("/ws/sub".to_string(), "sub", true));
    assert!(!s.offer_entry("/ws/.hidden".to_string(), ".hidden", false));
    assert!(s.offer_entry("/ws/a.rs".to_string(), "a.rs", false));
    assert_eq!(s.pending, vec!["/ws/sub".to_string()]);
    assert!(s.offer_line("/ws/a.rs", 3, "  let x = foo();\n"));
    assert!(s.offer_line("/ws/a.rs", 4, "nothing here\n"));
    assert_eq!(s.scored.len(), 1);
    let found = s.finish();
    assert_eq!(found.len(), 1);
    assert_eq!(found[0].path, "/ws/a.rs");
    assert_eq!(found[0].line_idx, 3);
    assert_eq!(found[0].char_offset, 10);
    assert_eq!(found[0].line_preview, "let x = foo();");
}

#[test]
fn text_search_stops_after_five_hundred_lines() {
    let mut s = TextSearch::new("/ws".to_string(), "a".to_string());
    s.next_dir();
    let mut go_on = true;
    let mut n = 0;
    while go_on {
        go_on = s.offer_line("/ws/f", n, "a\n");
        n += 1;
    }
    assert_eq!(n, 5 * TEXT_RESULTS);
    assert_eq!(s.next_dir(), None);
    assert_eq!(s.finish().len(), TEXT_RESULTS);
}
