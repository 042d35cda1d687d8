use wyvern::app::{App, Focus};
use wyvern::explorer::FileExplorer;
use wyvern::git::GitContext;
use wyvern::lsp::{
    classify_payload, clean_insert_text, frame_message, group_by_line, language_id, parse_content_length,
    parse_rpc_message, rank_completions, server_candidates, take_request_id, CompletionAnswer, CompletionItemData, ResponsePlan,
    ResponseRoute, RpcFacts, RpcKind,
};

fn app() -> App {
    App::new("/ws".to_string(), FileExplorer::new("/ws".to_string(), None), GitContext::empty())
}

fn item(label: &str, sort_text: Option<&str>) -> CompletionItemData {
    CompletionItemData {
        label: label.to_string(),
        kind: Some(3),
        detail: None,
        sort_text: sort_text.map(|s| s.to_string()),
        edit_text: None,
        insert_text: None,
    }
}

fn labels(v: &[wyvern::app::CompletionOption]) -> Vec<String> {
    v.iter().map(|o| o.label.clone()).collect()
}

#[test]
fn servers_by_extension() {
    let names = |ext: &str| -> Vec<(String, Vec<String>)> {
        server_candidates(ext).into_iter().map(|c| (c.program, c.args)).collect()
    };
    assert_eq!(names("rs"), vec![("rust-analyzer".to_string(), vec![])]);
    assert_eq!(names("h"), vec![("clangd".to_string(), vec![])]);
    assert_eq!(
        names("py"),
        vec![
            ("pyright-langserver".to_string(), vec!["--stdio".to_string()]),
            ("pylsp".to_string(), vec![]),
        ]
    );
    assert!(names("txt").is_empty());
    assert!(names("hpp").is_empty());
}

#[test]
fn language_ids() {
    assert_eq!(language_id("rs"), "rust");
    assert_eq!(language_id("py"), "python");
    assert_eq!(language_id("c"), "c");
    assert_eq!(language_id("hpp"), "cpp");
    assert_eq!(language_id("cc"), "cpp");
    assert_eq!(language_id("go"), "go");
    assert_eq!(language_id(""), "");
}

#[test]
fn content_length_headers() {
    assert_eq!(parse_content_length("Content-Length: 42\r\n"), Some(42));
    assert_eq!(parse_content_length("Content-Length:   7  "), Some(7));
    assert_eq!(parse_content_length("Content-Length: Content-Length: 5\r\n"), Some(5));
    assert_eq!(parse_content_length("Content-Type: x\r\n"), None);
    assert_eq!(parse_content_length("Content-Length: abc\r\n"), None);
    assert_eq!(parse_content_length("content-length: 3"), None);
}

#[test]
fn framing_counts_bytes() {
    assert_eq!(frame_message("{}"), "Content-Length: 2\r\n\r\n{}");
    let json = "{\"a\":\"ñ\"}";
    let framed = frame_message(json);
    assert_eq!(framed, format!("Content-Length: {}\r\n\r\n{}", json.len(), json));
    let header = framed.split("\r\n").next().unwrap().to_string() + "\r\n";
    assert_eq!(parse_content_length(&header), Some(json.len()));
}

#[test]
fn sorting_incoming_messages() {
    let facts = |id: Option<u64>, has_result: bool, has_error: bool, method: Option<&str>, diagnostics: bool| RpcFacts {
        id,
        has_result,
        has_error,
        method: method.map(|m| m.to_string()),
        diagnostics,
    };
    assert_eq!(parse_rpc_message(&facts(Some(3), true, false, None, false)), RpcKind::Response { id: 3, null_result: false });
    assert_eq!(parse_rpc_message(&facts(Some(3), false, true, None, false)), RpcKind::Response { id: 3, null_result: true });
    assert_eq!(
        parse_rpc_message(&facts(None, false, false, Some("textDocument/publishDiagnostics"), true)),
        RpcKind::Diagnostics
    );
    assert_eq!(
        parse_rpc_message(&facts(None, false, false, Some("textDocument/publishDiagnostics"), false)),
        RpcKind::Notification
    );
    assert_eq!(parse_rpc_message(&facts(Some(9), false, false, Some("window/logMessage"), false)), RpcKind::Notification);
    assert_eq!(parse_rpc_message(&facts(Some(9), false, false, None, false)), RpcKind::Invalid);
}

#[test]
fn message_bodies_are_read_and_sorted() {
    let k = |b: &str| classify_payload(b.as_bytes());
    assert_eq!(k(r#"{"jsonrpc":"2.0","id":3,"result":null}"#), Some(RpcKind::Response { id: 3, null_result: false }));
    assert_eq!(k(r#"{"jsonrpc":"2.0","id":4,"error":{"code":1,"message":"x"}}"#), Some(RpcKind::Response { id: 4, null_result: true }));
    assert_eq!(
        k(r#"{"jsonrpc":"2.0","method":"textDocument/publishDiagnostics","params":{"uri":"file:///a.rs","diagnostics":[]}}"#),
        Some(RpcKind::Diagnostics)
    );
    assert_eq!(
        k(r#"{"jsonrpc":"2.0","method":"textDocument/publishDiagnostics","params":{"oops":1}}"#),
        Some(RpcKind::Notification)
    );
    assert_eq!(k(r#"{"jsonrpc":"2.0","method":"window/logMessage","params":{}}"#), Some(RpcKind::Notification));
    assert_eq!(k(r#"{"jsonrpc":"2.0","id":"abc"}"#), Some(RpcKind::Invalid));
    assert_eq!(k("not json"), None);
}

#[test]
fn snippets_are_cut() {
    assert_eq!(clean_insert_text("println!($1)"), "println!");
    assert_eq!(clean_insert_text("Vec<$1>"), "Vec");
    assert_eq!(clean_insert_text("foo(a)"), "foo(a)");
    assert_eq!(clean_insert_text("$0"), "$0");
}

#[test]
fn completions_rank_by_score_then_sort_text() {
    let items = vec![item("b", Some("2")), item("a", Some("9")), item("c", None)];
    let menu = rank_completions(items, "");
    assert_eq!(labels(&menu), vec!["b", "a", "c"]);
    let mut with_edit = item("vec", None);
    with_edit.edit_text = Some("vec![$1]".to_string());
    with_edit.insert_text = Some("ignored".to_string());
    let mut with_insert = item("fmt", None);
    with_insert.insert_text = Some("format($1)".to_string());
    let menu = rank_completions(vec![with_edit, with_insert, item("zzz", None)], "");
    assert_eq!(menu[0].insert_text, "format");
    assert_eq!(menu[1].insert_text, "vec![$1]");
    assert_eq!(menu[2].insert_text, "zzz");
    assert_eq!(menu[0].kind, Some(3));
}

#[test]
fn items_that_rank_alike_keep_their_order() {
    let menu = rank_completions(vec![item("x", Some("k")), item("y", Some("k")), item("a", Some("z"))], "");
    assert_eq!(labels(&menu), vec!["x", "y", "a"]);
    let menu = rank_completions(vec![item("y", Some("k")), item("a", Some("z")), item("x", Some("k"))], "");
    assert_eq!(labels(&menu), vec!["y", "x", "a"]);
}

#[test]
fn completions_drop_items_that_do_not_match() {
    let menu = rank_completions(vec![item("print", None), item("xyz", None), item("sprintf", None)], "pri");
    let got = labels(&menu);
    assert_eq!(got.len(), 2);
    assert_eq!(got[0], "print");
    assert!(got.contains(&"sprintf".to_string()));
}

fn editing_app() -> App {
    let mut a = app();
    a.load_file("/ws/main.rs".to_string(), Some("let pri".to_string()));
    a.documents[0].1.buffer.cursor_char_idx = 7;
    a
}

#[test]
fn a_completion_answer_fills_the_menu() {
    let mut a = editing_app();
    assert!(!a.completion_response(1, CompletionAnswer::Null));
    a.pending_completion_id = Some(4);
    assert!(!a.completion_response(5, CompletionAnswer::Items(vec![item("print", None)])));
    assert!(a.completions.is_empty());
    assert!(a.completion_response(4, CompletionAnswer::Items(vec![item("xyz", None), item("print", None)])));
    assert_eq!(labels(&a.completions), vec!["print"]);
    assert_eq!(a.completion_state.selected(), Some(0));
    assert_eq!(a.pending_completion_id, None);
    a.pending_completion_id = Some(6);
    assert!(a.completion_response(6, CompletionAnswer::Unreadable));
    assert_eq!(labels(&a.completions), vec!["print"]);
    a.pending_completion_id = Some(7);
    assert!(a.completion_response(7, CompletionAnswer::Null));
    assert!(a.completions.is_empty());
}

#[test]
fn the_document_gets_its_url_and_the_server_its_text() {
    let mut a = editing_app();
    assert!(a.lsp_ready().is_none());
    let ext = a.setup_lsp_for_current_file("/ws/main.rs");
    assert_eq!(ext.as_deref(), Some("rs"));
    assert_eq!(a.documents[0].1.uri.as_deref(), Some("file:///ws/main.rs"));
    a.lsp_started("rs");
    assert_eq!(a.status_msg.as_deref(), Some("LSP iniciado: (rs)"));
    let open = a.lsp_ready().unwrap();
    assert_eq!(open.uri, "file:///ws/main.rs");
    assert_eq!(open.text, "let pri");
    assert_eq!(open.version, 1);
    assert_eq!(open.language_id, "rust");
    assert_eq!(a.status_msg.as_deref(), Some("LSP Listo (rs)"));
}

#[test]
fn a_relative_path_gets_no_url() {
    let mut a = editing_app();
    assert_eq!(a.setup_lsp_for_current_file("main.rs"), None);
    assert!(a.documents[0].1.uri.is_none());
    let mut b = app();
    b.new_blank_file();
    assert_eq!(b.focus, Focus::Window(1));
    assert_eq!(b.setup_lsp_for_current_file("/ws/x.rs"), None);
}

#[test]
fn responses_go_where_they_are_awaited() {
    let mut a = app();
    a.pending_inlay_hints_id = Some(7);
    a.pending_completion_id = Some(8);
    let p = a.plan_response(0, 0, false);
    assert_eq!(p, ResponsePlan { completes_handshake: true, route: ResponseRoute::Unclaimed });
    let p = a.plan_response(0, 0, true);
    assert!(!p.completes_handshake);
    let p = a.plan_response(8, 0, true);
    assert_eq!(p.route, ResponseRoute::Completion);
    assert_eq!(a.pending_completion_id, Some(8));
    let p = a.plan_response(7, 0, true);
    assert_eq!(p.route, ResponseRoute::InlayHints);
    assert_eq!(a.pending_inlay_hints_id, None);
    assert_eq!(a.plan_response(7, 0, true).route, ResponseRoute::Unclaimed);
}

#[test]
fn positions_are_grouped_by_line() {
    assert_eq!(group_by_line(&vec![]), vec![]);
    assert_eq!(
        group_by_line(&vec![4, 2, 4, 9, 2, 4]),
        vec![(4, vec![0, 2, 5]), (2, vec![1, 4]), (9, vec![3])]
    );
}

#[test]
fn request_ids_count_up() {
    let mut next: u64 = 1;
    assert_eq!(take_request_id(&mut next), 1);
    assert_eq!(take_request_id(&mut next), 2);
    assert_eq!(next, 3);
}
