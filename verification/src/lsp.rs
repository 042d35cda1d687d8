//! What the editor decides in its conversation with a language server:
//! which server serves a file, how messages are framed on the wire, what a
//! message that came in is, and how a completion answer becomes the menu.
use vstd::prelude::*;
use vstd::string::StringSliceAdditionalSpecFns;
use crate::strs::{str_to_chars, chars_to_string, parse_usize, parse_usize_spec, trim_chars, trimmed, decimal, decimal_string};
use crate::app::{App, Document, docs_but};
use crate::explorer::ListSelection;

verus! {

broadcast use vstd::seq_lib::group_to_multiset_ensures, vstd::multiset::group_multiset_axioms;

/// A program to start, with its arguments.
pub struct ServerCommand {
    pub program: String,
    pub args: Vec<String>,
}

/// The program and arguments of `c`, as plain text.
pub open spec fn command_view(c: ServerCommand) -> (Seq<char>, Seq<Seq<char>>) {
    (c.program@, c.args@.map_values(|a: String| a@))
}

/// The servers that handle files with extension `ext`, the preferred first.
pub open spec fn servers_for(ext: Seq<char>) -> Seq<(Seq<char>, Seq<Seq<char>>)> {
    if ext == "rs"@ {
        seq![("rust-analyzer"@, Seq::empty())]
    } else if ext == "c"@ || ext == "cpp"@ || ext == "h"@ {
        seq![("clangd"@, Seq::empty())]
    } else if ext == "py"@ {
        seq![("pyright-langserver"@, seq!["--stdio"@]), ("pylsp"@, Seq::empty())]
    } else {
        Seq::empty()
    }
}

fn command(program: &str, args: Vec<String>) -> (c: ServerCommand)
    ensures
        c.program@ == program@,
        c.args == args,
{
    ServerCommand { program: String::from_str(program), args }
}

/// The servers that handle files with extension `ext`; the caller starts
/// the first that is installed.
pub fn server_candidates(ext: &str) -> (r: Vec<ServerCommand>)
    ensures
        r@.map_values(|c: ServerCommand| command_view(c)) == servers_for(ext@),
{
    let e = String::from_str(ext);
    let mut r: Vec<ServerCommand> = Vec::new();
    if e == String::from_str("rs") {
        r.push(command("rust-analyzer", Vec::new()));
    } else if e == String::from_str("c") || e == String::from_str("cpp") || e == String::from_str("h") {
        r.push(command("clangd", Vec::new()));
    } else if e == String::from_str("py") {
        let mut args: Vec<String> = Vec::new();
        args.push(String::from_str("--stdio"));
        r.push(command("pyright-langserver", args));
        r.push(command("pylsp", Vec::new()));
    }
    proof {
        let v = r@.map_values(|c: ServerCommand| command_view(c));
        if v.len() > 0 {
            assert(r@[0].args@.map_values(|a: String| a@) =~= servers_for(ext@)[0].1);
        }
        if v.len() > 1 {
            assert(r@[1].args@.map_values(|a: String| a@) =~= servers_for(ext@)[1].1);
        }
    }
    assert(r@.map_values(|c: ServerCommand| command_view(c)) =~= servers_for(ext@));
    r
}

/// The language id a server knows files with extension `ext` by.
pub open spec fn language_id_of(ext: Seq<char>) -> Seq<char> {
    if ext == "rs"@ {
        "rust"@
    } else if ext == "py"@ {
        "python"@
    } else if ext == "c"@ {
        "c"@
    } else if ext == "cpp"@ || ext == "cxx"@ || ext == "cc"@ || ext == "h"@ || ext == "hpp"@ {
        "cpp"@
    } else {
        ext
    }
}

pub fn language_id(ext: &str) -> (r: String)
    ensures
        r@ == language_id_of(ext@),
{
    let e = String::from_str(ext);
    if e == String::from_str("rs") {
        String::from_str("rust")
    } else if e == String::from_str("py") {
        String::from_str("python")
    } else if e == String::from_str("c") {
        String::from_str("c")
    } else if e == String::from_str("cpp") || e == String::from_str("cxx") || e == String::from_str("cc")
        || e == String::from_str("h") || e == String::from_str("hpp") {
        String::from_str("cpp")
    } else {
        e
    }
}

/// The header that announces the length of a message.
pub open spec fn length_header() -> Seq<char> {
    "Content-Length: "@
}

/// `s` starts with `p`.
pub open spec fn starts_with(s: Seq<char>, p: Seq<char>) -> bool {
    s.len() >= p.len() && s.take(p.len() as int) == p
}

/// `s` with every leading copy of `p` removed, as `str::trim_start_matches`.
pub open spec fn strip_all(s: Seq<char>, p: Seq<char>) -> Seq<char>
    decreases s.len(),
{
    if p.len() > 0 && starts_with(s, p) {
        strip_all(s.skip(p.len() as int), p)
    } else {
        s
    }
}

/// The length a header line announces: the number after the header (and
/// any further copies of it), between blanks.
pub open spec fn content_length(line: Seq<char>) -> Option<usize> {
    if starts_with(line, length_header()) {
        parse_usize_spec(trimmed(strip_all(line, length_header())))
    } else {
        None
    }
}

fn starts_with_at(s: &Vec<char>, at: usize, p: &Vec<char>) -> (r: bool)
    requires
        at <= s@.len(),
    ensures
        r == starts_with(s@.skip(at as int), p@),
{
    if s.len() - at < p.len() {
        return false;
    }
    let mut i: usize = 0;
    while i < p.len()
        invariant
            i <= p@.len(),
            at + p@.len() <= s@.len(),
            s@.len() <= usize::MAX,
            forall|j: int| 0 <= j < i ==> s@[at + j] == p@[j],
        decreases p.len() - i,
    {
        if s[at + i] != p[i] {
            assert(s@.skip(at as int).take(p@.len() as int)[i as int] != p@[i as int]);
            return false;
        }
        i = i + 1;
    }
    assert(s@.skip(at as int).take(p@.len() as int) =~= p@);
    true
}

/// The length announced by a header line of a message.
pub fn parse_content_length(line: &str) -> (r: Option<usize>)
    ensures
        r == content_length(line@),
{
    let s = str_to_chars(line);
    let p = str_to_chars("Content-Length: ");
    let ghost hp = length_header();
    assert(p@ == hp);
    if !starts_with_at(&s, 0, &p) {
        assert(s@.skip(0) =~= s@);
        return None;
    }
    assert(s@.skip(0) =~= s@);
    proof { reveal_strlit("Content-Length: "); }
    let mut at: usize = 0;
    let len = s.len();
    assert(s@.len() == len);
    while starts_with_at(&s, at, &p)
        invariant
            at <= s@.len(),
            s@.len() <= usize::MAX,
            p@ == hp,
            hp.len() > 0,
            strip_all(s@, hp) == strip_all(s@.skip(at as int), hp),
        decreases s@.len() - at,
    {
        assert(s@.skip(at as int).skip(p@.len() as int) =~= s@.skip(at + p@.len()));
        at = at + p.len();
    }
    let mut rest: Vec<char> = Vec::new();
    let mut k: usize = at;
    while k < s.len()
        invariant
            at <= k <= s@.len(),
            rest@ == s@.subrange(at as int, k as int),
        decreases s.len() - k,
    {
        rest.push(s[k]);
        k = k + 1;
    }
    assert(rest@ =~= s@.skip(at as int));
    let t = trim_chars(&rest);
    parse_usize(&t)
}

/// The wire form of a message: the length header with the byte length of
/// `json`, a blank line, then `json`.
pub open spec fn framed(json: &str) -> Seq<char> {
    length_header() + decimal(json.len() as nat) + "\r\n\r\n"@ + json@
}

pub fn frame_message(json: &str) -> (r: String)
    ensures
        r@ == framed(json),
{
    let n = json.len();
    let mut r = String::from_str("Content-Length: ");
    let d = decimal_string(n);
    r.append(d.as_str());
    r.append("\r\n\r\n");
    r.append(json);
    proof {
        reveal_strlit("\r\n\r\n");
        assert(r@ =~= framed(json));
    }
    r
}

/// What a message from the server holds, as far as the editor looks: its
/// numeric id, whether it has a result or an error, its method, and whether
/// its parameters read as published diagnostics.
pub struct RpcFacts {
    pub id: Option<u64>,
    pub has_result: bool,
    pub has_error: bool,
    pub method: Option<String>,
    pub diagnostics: bool,
}

/// What a message from the server is.
#[derive(Clone, Copy, Debug, PartialEq, Eq, Structural)]
pub enum RpcKind {
    /// The answer to request `id`; an error answers with a null result.
    Response { id: u64, null_result: bool },
    /// Diagnostics published for a document.
    Diagnostics,
    /// Any other notification.
    Notification,
    /// Not a message the editor understands.
    Invalid,
}

pub open spec fn rpc_kind(f: RpcFacts) -> RpcKind {
    match f.id {
        Some(id) if f.has_result || f.has_error => RpcKind::Response { id, null_result: !f.has_result },
        _ => match f.method {
            Some(m) => if m@ == "textDocument/publishDiagnostics"@ && f.diagnostics {
                RpcKind::Diagnostics
            } else {
                RpcKind::Notification
            },
            None => RpcKind::Invalid,
        },
    }
}

/// Sorts a message from the server.
pub fn parse_rpc_message(f: &RpcFacts) -> (r: RpcKind)
    ensures
        r == rpc_kind(*f),
{
    match f.id {
        Some(id) => {
            if f.has_result {
                return RpcKind::Response { id, null_result: false };
            } else if f.has_error {
                return RpcKind::Response { id, null_result: true };
            }
        },
        None => {},
    }
    match &f.method {
        Some(m) => {
            if *m == String::from_str("textDocument/publishDiagnostics") && f.diagnostics {
                RpcKind::Diagnostics
            } else {
                RpcKind::Notification
            }
        },
        None => RpcKind::Invalid,
    }
}

/// The facts that a message body gives when it reads as JSON (see
/// `RpcFacts`); `None` when it does not.
pub uninterp spec fn payload_facts(payload: Seq<u8>) -> Option<RpcFacts>;

/// `serde_json::from_slice` of a message body, and the fields of the value
/// the editor looks at: the numeric `id`, whether `result` and `error` are
/// there, the `method` string, and whether `params` read as
/// `lsp_types::PublishDiagnosticsParams`.
#[verifier::external_body]
pub(crate) fn rpc_facts_of(payload: &[u8]) -> (r: Option<RpcFacts>)
    ensures
        r == payload_facts(payload@),
{
    let v: serde_json::Value = serde_json::from_slice(payload).ok()?;
    Some(RpcFacts {
        id: v.get("id").and_then(|i| i.as_u64()),
        has_result: v.get("result").is_some(),
        has_error: v.get("error").is_some(),
        method: v.get("method").and_then(|m| m.as_str()).map(|m| m.to_string()),
        diagnostics: serde_json::from_value::<lsp_types::PublishDiagnosticsParams>(v["params"].clone()).is_ok(),
    })
}

/// Sorts a message body as the server sent it; `None` when it is not JSON.
pub fn classify_payload(payload: &[u8]) -> (r: Option<RpcKind>)
    ensures
        r == match payload_facts(payload@) {
            Some(f) => Some(rpc_kind(f)),
            None => None,
        },
{
    match rpc_facts_of(payload) {
        Some(f) => Some(parse_rpc_message(&f)),
        None => None,
    }
}

/// A completion item as the server sent it, as far as the menu uses it.
pub struct CompletionItemData {
    pub label: String,
    pub kind: Option<i32>,
    pub detail: Option<String>,
    pub sort_text: Option<String>,
    /// The new text of the item's text edit, if it has one.
    pub edit_text: Option<String>,
    pub insert_text: Option<String>,
}

/// The char `c`.
pub open spec fn is_char(c: char) -> spec_fn(char) -> bool {
    |x: char| x == c
}

/// The text an item inserts: its edit's, else its insert text, else its label.
pub open spec fn inserted_text(i: CompletionItemData) -> Seq<char> {
    match i.edit_text {
        Some(e) => e@,
        None => match i.insert_text {
            Some(t) => t@,
            None => i.label@,
        },
    }
}

/// A snippet (text with a `$`) is cut before its first `(`, or else before
/// its first `<`.
pub open spec fn cleaned(s: Seq<char>) -> Seq<char> {
    if s.contains('$') {
        match crate::app::first_where(s, is_char('(')) {
            Some(k) => s.take(k),
            None => match crate::app::first_where(s, is_char('<')) {
                Some(k) => s.take(k),
                None => s,
            },
        }
    } else {
        s
    }
}

/// What an item sorts by among items as well scored: its sort text, else its label.
pub open spec fn sort_key(i: CompletionItemData) -> Seq<char> {
    match i.sort_text {
        Some(t) => t@,
        None => i.label@,
    }
}

/// `a` may come before `b`: a higher score, or the same score and a sort
/// key not after `b`'s.
pub open spec fn rank_le(a: (CompletionItemData, i64), b: (CompletionItemData, i64)) -> bool {
    a.1 > b.1 || (a.1 == b.1 && crate::explorer::lex_le(sort_key(a.0), sort_key(b.0)))
}

pub open spec fn ranked(s: Seq<(CompletionItemData, i64)>) -> bool {
    forall|i: int, j: int| 0 <= i < j < s.len() ==> rank_le(#[trigger] s[i], #[trigger] s[j])
}

/// The items that match `prefix`, with their scores, in order; with an
/// empty prefix every item, scored 0.
pub open spec fn scored(items: Seq<CompletionItemData>, prefix: Seq<char>) -> Seq<(CompletionItemData, i64)>
    decreases items.len(),
{
    if items.len() == 0 {
        Seq::empty()
    } else {
        let rest = scored(items.drop_last(), prefix);
        let it = items.last();
        if prefix.len() == 0 {
            rest.push((it, 0i64))
        } else {
            match crate::explorer::skim_score(it.label@, prefix) {
                Some(sc) => rest.push((it, sc)),
                None => rest,
            }
        }
    }
}

/// `o` is the menu entry for item `i`.
pub open spec fn option_of(i: CompletionItemData, o: crate::app::CompletionOption) -> bool {
    &&& o.label == i.label
    &&& o.kind == i.kind
    &&& o.detail == i.detail
    &&& o.insert_text@ == cleaned(inserted_text(i))
}

/// `a` ranks strictly ahead of `b`: `b` may not come before it.
pub open spec fn ahead(a: (CompletionItemData, i64), b: (CompletionItemData, i64)) -> bool {
    !rank_le(b, a)
}

/// The items that `x` ranks strictly ahead of.
pub open spec fn outranked_by(x: (CompletionItemData, i64)) -> spec_fn((CompletionItemData, i64)) -> bool {
    |y: (CompletionItemData, i64)| ahead(x, y)
}

/// `sorted` with `x` put before the first item that it ranks strictly
/// ahead of, at the end when there is none: after every item ranked with it.
pub open spec fn place(sorted: Seq<(CompletionItemData, i64)>, x: (CompletionItemData, i64)) -> Seq<(CompletionItemData, i64)> {
    match crate::app::first_where(sorted, outranked_by(x)) {
        Some(p) => sorted.insert(p, x),
        None => sorted.push(x),
    }
}

/// The items in rank order, items that rank alike in the order they came:
/// what a stable sort by descending score, then sort key, gives.
pub open spec fn rank_sort(s: Seq<(CompletionItemData, i64)>) -> Seq<(CompletionItemData, i64)>
    decreases s.len(),
{
    if s.len() == 0 {
        Seq::empty()
    } else {
        place(rank_sort(s.drop_last()), s.last())
    }
}

/// `r` is the menu for `items` typed after `prefix`: the matching items in
/// rank order, as entries.
pub open spec fn menu_of(items: Seq<CompletionItemData>, prefix: Seq<char>, r: Seq<crate::app::CompletionOption>) -> bool {
    let sorted = rank_sort(scored(items, prefix));
    &&& r.len() == sorted.len()
    &&& forall|j: int| 0 <= j < r.len() ==> option_of(sorted[j].0, #[trigger] r[j])
}

fn first_pos(v: &Vec<char>, c: char) -> (r: Option<usize>)
    ensures
        match r {
            Some(i) => crate::app::first_where(v@, is_char(c)) == Some(i as int),
            None => crate::app::first_where(v@, is_char(c)) is None,
        },
{
    let mut i: usize = 0;
    while i < v.len()
        invariant
            i <= v@.len(),
            forall|j: int| 0 <= j < i ==> !is_char(c)(#[trigger] v@[j]),
        decreases v.len() - i,
    {
        if v[i] == c {
            proof { crate::app::lemma_first_where_some(v@, is_char(c), i as int); }
            return Some(i);
        }
        i = i + 1;
    }
    proof { crate::app::lemma_first_where_none(v@, is_char(c)); }
    None
}

/// A snippet cut as `cleaned` says.
pub fn clean_insert_text(s: &str) -> (r: String)
    ensures
        r@ == cleaned(s@),
{
    let v = str_to_chars(s);
    let dollar = first_pos(&v, '$');
    proof {
        if v@.contains('$') {
            let k = choose|k: int| 0 <= k < v@.len() && v@[k] == '$';
            crate::app::lemma_first_where_found(v@, is_char('$'), k);
        }
    }
    if dollar.is_none() {
        return String::from_str(s);
    }
    let cut = match first_pos(&v, '(') {
        Some(k) => Some(k),
        None => first_pos(&v, '<'),
    };
    match cut {
        Some(k) => {
            let t = crate::strs::slice_vec(&v, 0, k);
            assert(t@ =~= v@.take(k as int));
            chars_to_string(&t)
        },
        None => String::from_str(s),
    }
}

proof fn lemma_rank_total(a: (CompletionItemData, i64), b: (CompletionItemData, i64))
    ensures
        rank_le(a, b) || rank_le(b, a),
{
    crate::explorer::lemma_lex_total(sort_key(a.0), sort_key(b.0));
}

proof fn lemma_rank_trans(a: (CompletionItemData, i64), b: (CompletionItemData, i64), c: (CompletionItemData, i64))
    requires
        rank_le(a, b),
        rank_le(b, c),
    ensures
        rank_le(a, c),
{
    if a.1 == b.1 && b.1 == c.1 {
        crate::explorer::lemma_lex_trans(sort_key(a.0), sort_key(b.0), sort_key(c.0));
    }
}

fn key_chars(i: &CompletionItemData) -> (r: Vec<char>)
    ensures
        r@ == sort_key(*i),
{
    match &i.sort_text {
        Some(t) => str_to_chars(t.as_str()),
        None => str_to_chars(i.label.as_str()),
    }
}

fn rank_before(a: &(CompletionItemData, i64), b: &(CompletionItemData, i64)) -> (r: bool)
    ensures
        r == rank_le(*a, *b),
{
    if a.1 != b.1 {
        a.1 > b.1
    } else {
        crate::explorer::chars_le(&key_chars(&a.0), &key_chars(&b.0))
    }
}

/// Where `x` goes in `sorted` (see `place`).
fn place_index(sorted: &Vec<(CompletionItemData, i64)>, x: &(CompletionItemData, i64)) -> (p: usize)
    ensures
        match crate::app::first_where(sorted@, outranked_by(*x)) {
            Some(i) => p == i,
            None => p == sorted@.len(),
        },
{
    let mut j: usize = 0;
    while j < sorted.len()
        invariant
            j <= sorted@.len(),
            forall|k: int| 0 <= k < j ==> !outranked_by(*x)(#[trigger] sorted@[k]),
        decreases sorted.len() - j,
    {
        if !rank_before(&sorted[j], x) {
            proof { crate::app::lemma_first_where_some(sorted@, outranked_by(*x), j as int); }
            return j;
        }
        j = j + 1;
    }
    proof { crate::app::lemma_first_where_none(sorted@, outranked_by(*x)); }
    j
}

/// The scored items in rank order (see `rank_sort`), by insertion.
fn sort_ranked(v: Vec<(CompletionItemData, i64)>) -> (r: Vec<(CompletionItemData, i64)>)
    ensures
        r@ == rank_sort(v@),
{
    let ghost all = v@;
    let mut rest = v;
    let mut out: Vec<(CompletionItemData, i64)> = Vec::new();
    let ghost mut k: int = 0;
    while rest.len() > 0
        invariant
            0 <= k <= all.len(),
            rest@ == all.subrange(k, all.len() as int),
            out@ == rank_sort(all.take(k)),
        decreases rest@.len(),
    {
        let x = rest.remove(0);
        assert(all.take(k + 1).drop_last() =~= all.take(k));
        assert(all.take(k + 1).last() == x);
        let p = place_index(&out, &x);
        let ghost o0 = out@;
        out.insert(p, x);
        proof {
            if crate::app::first_where(o0, outranked_by(x)) is None {
                assert(o0.insert(o0.len() as int, x) =~= o0.push(x));
            }
            k = k + 1;
        }
        assert(rest@ =~= all.subrange(k, all.len() as int));
    }
    assert(all.take(k) =~= all);
    out
}

/// Putting an item into a ranked list keeps it ranked.
proof fn lemma_place_ranked(s: Seq<(CompletionItemData, i64)>, x: (CompletionItemData, i64))
    requires
        ranked(s),
    ensures
        ranked(place(s, x)),
{
    let r = place(s, x);
    match crate::app::first_where(s, outranked_by(x)) {
        Some(p) => {
            assert(crate::app::is_first(s, outranked_by(x), p));
            assert forall|i: int, j: int| 0 <= i < j < r.len() implies rank_le(#[trigger] r[i], #[trigger] r[j]) by {
                if j < p {
                    assert(r[i] == s[i] && r[j] == s[j]);
                } else if j == p {
                    assert(r[i] == s[i] && r[j] == x);
                    assert(!outranked_by(x)(s[i]));
                } else if i < p {
                    assert(r[i] == s[i] && r[j] == s[j - 1]);
                } else if i == p {
                    assert(r[i] == x && r[j] == s[j - 1]);
                    lemma_rank_total(x, s[p]);
                    if j - 1 > p {
                        lemma_rank_trans(x, s[p], s[j - 1]);
                    }
                } else {
                    assert(r[i] == s[i - 1] && r[j] == s[j - 1]);
                }
            }
        },
        None => {
            assert forall|i: int, j: int| 0 <= i < j < r.len() implies rank_le(#[trigger] r[i], #[trigger] r[j]) by {
                if j == s.len() {
                    assert(r[j] == x && r[i] == s[i]);
                    if !rank_le(s[i], x) {
                        crate::app::lemma_first_where_found(s, outranked_by(x), i);
                    }
                } else {
                    assert(r[i] == s[i] && r[j] == s[j]);
                }
            }
        },
    }
}

/// The completion menu is in rank order: a higher score first, and among
/// equal scores the earlier sort key first.
pub proof fn law_menu_is_ranked(s: Seq<(CompletionItemData, i64)>)
    ensures
        ranked(rank_sort(s)),
    decreases s.len(),
{
    if s.len() > 0 {
        law_menu_is_ranked(s.drop_last());
        lemma_place_ranked(rank_sort(s.drop_last()), s.last());
    }
}

/// The completion menu for `items` typed after `prefix` (see `menu_of`).
pub fn rank_completions(items: Vec<CompletionItemData>, prefix: &str) -> (r: Vec<crate::app::CompletionOption>)
    ensures
        menu_of(items@, prefix@, r@),
{
    let ghost all = items@;
    let mut rest = items;
    let mut sc: Vec<(CompletionItemData, i64)> = Vec::new();
    let empty = prefix.is_empty();
    let ghost mut k: int = 0;
    while rest.len() > 0
        invariant
            0 <= k <= all.len(),
            rest@ == all.subrange(k, all.len() as int),
            sc@ == scored(all.take(k), prefix@),
            empty == (prefix@.len() == 0),
        decreases rest@.len(),
    {
        let it = rest.remove(0);
        assert(all.take(k + 1).drop_last() =~= all.take(k));
        assert(all.take(k + 1).last() == it);
        if empty {
            sc.push((it, 0));
        } else {
            match crate::explorer::fuzzy_score(it.label.as_str(), prefix) {
                Some(s) => sc.push((it, s)),
                None => {},
            }
        }
        proof { k = k + 1; }
        assert(rest@ =~= all.subrange(k, all.len() as int));
    }
    assert(all.take(k) =~= all);
    let sorted = sort_ranked(sc);
    let ghost sv = sorted@;
    let mut src = sorted;
    let mut out: Vec<crate::app::CompletionOption> = Vec::new();
    let ghost mut j: int = 0;
    while src.len() > 0
        invariant
            0 <= j <= sv.len(),
            src@ == sv.subrange(j, sv.len() as int),
            out@.len() == j,
            forall|q: int| 0 <= q < j ==> option_of(sv[q].0, #[trigger] out@[q]),
        decreases src@.len(),
    {
        let (it, _score) = src.remove(0);
        assert(sv[j].0 == it);
        let raw = match &it.edit_text {
            Some(e) => e.clone(),
            None => match &it.insert_text {
                Some(t) => t.clone(),
                None => it.label.clone(),
            },
        };
        let ins = clean_insert_text(raw.as_str());
        let CompletionItemData { label, kind, detail, sort_text: _, edit_text: _, insert_text: _ } = it;
        let ghost o0 = out@;
        out.push(crate::app::CompletionOption { label, kind, detail, insert_text: ins });
        assert forall|q: int| 0 <= q < j + 1 implies option_of(sv[q].0, #[trigger] out@[q]) by {
            if q < j {
                assert(out@[q] == o0[q]);
            }
        }
        proof { j = j + 1; }
        assert(src@ =~= sv.subrange(j, sv.len() as int));
    }
    out
}

/// What a server's `url::Url::from_file_path` gives for `path`, as text.
pub uninterp spec fn file_url_of(path: Seq<char>) -> Option<Seq<char>>;

/// `url::Url::from_file_path`: the `file://` URL of an absolute path; a
/// relative path has none.
#[verifier::external_body]
pub(crate) fn file_url(path: &str) -> (r: Option<String>)
    ensures
        match r {
            Some(u) => file_url_of(path@) == Some(u@) && starts_with(u@, "file://"@),
            None => file_url_of(path@) is None,
        },
{
    url::Url::from_file_path(path).ok().map(|u| u.as_str().to_string())
}

/// How the server answered a completion request.
pub enum CompletionAnswer {
    /// A null result: no completions.
    Null,
    Items(Vec<CompletionItemData>),
    /// A result that does not read as completions.
    Unreadable,
}

/// What opening a document tells the server.
pub struct DidOpen {
    pub uri: String,
    pub text: String,
    pub version: i32,
    pub language_id: String,
}

/// The extension of the file at `path`, empty when it has none.
pub open spec fn ext_or_empty(path: Seq<char>) -> Seq<char> {
    match crate::paths::path_extension(path) {
        Some(e) => e,
        None => Seq::empty(),
    }
}

impl App {
    /// The answer to completion request `id`, when it is the one awaited:
    /// the menu shows the matching items for the word before the cursor of
    /// the active document, best first, with the first selected.
    pub fn completion_response(&mut self, id: u64, answer: CompletionAnswer) -> (handled: bool)
        requires
            old(self).wf(),
        ensures
            final(self).wf(),
            handled == (old(self).pending_completion_id == Some(id)),
            !handled ==> *final(self) == *old(self),
            handled ==> match answer {
                CompletionAnswer::Null => final(self).completions@.len() == 0
                    && *final(self) == (App { completions: final(self).completions, pending_completion_id: None, ..*old(self) }),
                CompletionAnswer::Unreadable => *final(self) == (App { pending_completion_id: None, ..*old(self) }),
                CompletionAnswer::Items(items) => match old(self).active_pos() {
                    Some(i) => {
                        let b = old(self).documents@[i].1.buffer;
                        let t = b.text_view();
                        let c = b.cursor_char_idx as int;
                        &&& menu_of(items@, t.subrange(crate::editor::word_start(t, c), c), final(self).completions@)
                        &&& final(self).completion_state == if final(self).completions@.len() > 0 {
                            (ListSelection { selected: Some(0), ..old(self).completion_state })
                        } else {
                            old(self).completion_state
                        }
                        &&& *final(self) == (App {
                            completions: final(self).completions,
                            completion_state: final(self).completion_state,
                            pending_completion_id: None,
                            ..*old(self)
                        })
                    },
                    None => *final(self) == (App { pending_completion_id: None, ..*old(self) }),
                },
            },
    {
        let awaited = match self.pending_completion_id {
            Some(p) => p == id,
            None => false,
        };
        if !awaited {
            return false;
        }
        match answer {
            CompletionAnswer::Null => {
                self.completions = Vec::new();
            },
            CompletionAnswer::Unreadable => {},
            CompletionAnswer::Items(items) => {
                match self.active_doc_index() {
                    Some(i) => {
                        let prefix = self.documents[i].1.buffer.get_current_word_prefix();
                        let menu = rank_completions(items, prefix.as_str());
                        let any = menu.len() > 0;
                        self.completions = menu;
                        if any {
                            self.completion_state.select(Some(0));
                        }
                    },
                    None => {},
                }
            },
        }
        self.pending_completion_id = None;
        true
    }

    /// The server finished starting: what opening the active document tells
    /// it, and the status line says so with the file's extension.
    pub fn lsp_ready(&mut self) -> (r: Option<DidOpen>)
        ensures
            match old(self).active_pos() {
                Some(i) => {
                    let d = old(self).documents@[i].1;
                    match (d.uri, d.filepath) {
                        (Some(u), Some(p)) => {
                            let ext = ext_or_empty(p@);
                            &&& r matches Some(o) && o.uri@ == u@ && o.text@ == d.buffer.text_view()
                                && o.version == d.version && o.language_id@ == language_id_of(ext)
                            &&& final(self).status_msg matches Some(m) && m@ == "LSP Listo ("@ + ext + ")"@
                            &&& *final(self) == (App { status_msg: final(self).status_msg, ..*old(self) })
                        },
                        _ => r is None && *final(self) == *old(self),
                    }
                },
                None => r is None && *final(self) == *old(self),
            },
            old(self).wf() ==> final(self).wf(),
    {
        match self.active_doc_index() {
            Some(i) => {
                let doc = &self.documents[i].1;
                match (&doc.uri, &doc.filepath) {
                    (Some(u), Some(p)) => {
                        let ext = match crate::paths::extension_of(p.as_str()) {
                            Some(e) => e,
                            None => String::new(),
                        };
                        let open = DidOpen {
                            uri: u.clone(),
                            text: doc.buffer.get_full_text(),
                            version: doc.version,
                            language_id: language_id(ext.as_str()),
                        };
                        let mut m = String::from_str("LSP Listo (");
                        m.append(ext.as_str());
                        m.append(")");
                        proof {
                            reveal_strlit(")");
                        }
                        self.status_msg = Some(m);
                        Some(open)
                    },
                    _ => None,
                }
            },
            None => None,
        }
    }

    /// Gives the active document the URL of its file (at `canonical_path`,
    /// absolute) and, when that file has an extension, returns it for the
    /// caller to start a server for.
    pub fn setup_lsp_for_current_file(&mut self, canonical_path: &str) -> (ext: Option<String>)
        ensures
            match old(self).active_pos() {
                Some(i) if old(self).documents@[i].1.filepath is Some => match file_url_of(canonical_path@) {
                    Some(u) => {
                        let d0 = old(self).documents@[i].1;
                        let d = final(self).documents@[i].1;
                        &&& docs_but(old(self).documents@, final(self).documents@, i)
                        &&& d == (Document { uri: d.uri, ..d0 })
                        &&& d.uri matches Some(v) && v@ == u
                        &&& *final(self) == (App { documents: final(self).documents, ..*old(self) })
                        &&& match crate::paths::path_extension(canonical_path@) {
                            Some(e) => ext matches Some(x) && x@ == e,
                            None => ext is None,
                        }
                    },
                    None => ext is None && *final(self) == *old(self),
                },
                _ => ext is None && *final(self) == *old(self),
            },
            old(self).wf() ==> final(self).wf(),
    {
        match self.active_doc_index() {
            Some(i) => {
                if self.documents[i].1.filepath.is_none() {
                    return None;
                }
                match file_url(canonical_path) {
                    Some(u) => {
                        let ghost o = *self;
                        let (id, mut doc) = self.documents.remove(i);
                        doc.uri = Some(u);
                        self.documents.insert(i, (id, doc));
                        proof {
                            assert forall|j: int| 0 <= j < o.documents@.len() && j != i implies self.documents@[j] == o.documents@[j] by {
                            }
                            if o.wf() {
                                App::lemma_doc_swap_wf(o, *self, i as int);
                            }
                        }
                        crate::paths::extension_of(canonical_path)
                    },
                    None => None,
                }
            },
            None => None,
        }
    }

    /// A server for files with extension `ext` started.
    pub fn lsp_started(&mut self, ext: &str)
        ensures
            final(self).status_msg matches Some(m) && m@ == "LSP iniciado: ("@ + ext@ + ")"@,
            *final(self) == (App { status_msg: final(self).status_msg, ..*old(self) }),
    {
        let mut m = String::from_str("LSP iniciado: (");
        m.append(ext);
        m.append(")");
        self.status_msg = Some(m);
    }
}

proof fn lemma_digit_value(d: nat)
    requires
        d < 10,
    ensures
        crate::strs::digit_char(d) as nat - '0' as nat == d,
        '0' <= crate::strs::digit_char(d) <= '9',
{
    let ds = seq!['0', '1', '2', '3', '4', '5', '6', '7', '8', '9'];
    assert(crate::strs::digit_char(d) == ds[d as int]);
}

/// The digits of `n` read back give `n`.
proof fn lemma_decimal_value(n: nat)
    ensures
        crate::strs::all_digits(decimal(n)),
        crate::strs::digits_value(decimal(n)) == n,
        decimal(n).len() > 0,
    decreases n,
{
    if n < 10 {
        lemma_digit_value(n);
        assert(decimal(n).drop_last() =~= Seq::<char>::empty());
        assert(crate::strs::digits_value(decimal(n)) == crate::strs::digits_value(Seq::<char>::empty()) * 10 + n);
    } else {
        lemma_decimal_value(n / 10);
        lemma_digit_value(n % 10);
        let d = decimal(n);
        assert(d.drop_last() =~= decimal(n / 10));
        assert(d.last() == crate::strs::digit_char(n % 10));
        assert(crate::strs::digits_value(d) == crate::strs::digits_value(decimal(n / 10)) * 10 + (n % 10));
        assert(n == (n / 10) * 10 + n % 10);
        assert forall|k: int| 0 <= k < d.len() implies crate::strs::is_digit(#[trigger] d[k]) by {
            if k < d.len() - 1 {
                assert(d[k] == decimal(n / 10)[k]);
            }
        }
    }
}

/// A `usize` in decimal parses back to itself.
proof fn lemma_parse_decimal(n: usize)
    ensures
        parse_usize_spec(decimal(n as nat)) == Some(n),
{
    lemma_decimal_value(n as nat);
    let d = decimal(n as nat);
    assert(crate::strs::is_digit(d[0]));
    assert(crate::strs::unsigned_digits(d) == d);
}

/// The header line of a framed message, as a reader gets it (with its line
/// break), announces the byte length of the message.
pub proof fn law_frame_header_roundtrip(json: &str)
    ensures
        content_length(length_header() + decimal(json.len() as nat) + "\r\n"@) == Some(json.len()),
{
    reveal_strlit("Content-Length: ");
    reveal_strlit("\r\n");
    let h = length_header();
    let d = decimal(json.len() as nat);
    let line = h + d + "\r\n"@;
    lemma_decimal_value(json.len() as nat);
    assert(line.take(h.len() as int) =~= h);
    let rest = line.skip(h.len() as int);
    assert(rest =~= d + "\r\n"@);
    assert(crate::strs::is_digit(d[0]));
    assert(!starts_with(rest, h)) by {
        if starts_with(rest, h) {
            assert(rest.take(h.len() as int)[0] == h[0]);
        }
    }
    assert(strip_all(rest, h) == rest);
    assert(strip_all(line, h) == strip_all(rest, h));
    // trimming takes off the line break only
    assert(crate::strs::skip_ws(rest, 0) == 0);
    let n = rest.len() as int;
    assert(rest[n - 1] == '\n');
    assert(rest[n - 2] == '\r');
    assert(!crate::strs::char_whitespace(rest[n - 3]));
    assert(crate::strs::rskip_ws(rest, n - 2) == n - 2);
    assert(crate::strs::rskip_ws(rest, n - 1) == n - 2);
    assert(crate::strs::rskip_ws(rest, n) == n - 2);
    assert(crate::strs::trimmed(rest) =~= d);
    lemma_parse_decimal(json.len());
}

/// Where the result of a response from the language server goes.
#[derive(Clone, Copy, Debug, PartialEq, Eq, Structural)]
pub enum ResponseRoute {
    /// The inlay hints asked for last.
    InlayHints,
    /// The completion menu asked for last.
    Completion,
    /// No request that is still awaited.
    Unclaimed,
}

/// What to do with a response: whether it answers the initialisation
/// request, so that the handshake is completed, and where its result goes.
#[derive(Clone, Copy, Debug, PartialEq, Eq, Structural)]
pub struct ResponsePlan {
    pub completes_handshake: bool,
    pub route: ResponseRoute,
}

/// The awaited request that the response to `id` answers; the inlay-hint
/// request is looked at first.
pub open spec fn response_route(a: App, id: u64) -> ResponseRoute {
    if a.pending_inlay_hints_id == Some(id) {
        ResponseRoute::InlayHints
    } else if a.pending_completion_id == Some(id) {
        ResponseRoute::Completion
    } else {
        ResponseRoute::Unclaimed
    }
}

impl App {
    /// Decides what to do with the response to request `id`, given the id of
    /// the initialisation request and whether the handshake is done.  An
    /// inlay-hint request that it answers is no longer awaited, whatever its
    /// result holds; a completion answer is left to `completion_response`.
    pub fn plan_response(&mut self, id: u64, init_id: u64, initialized: bool) -> (p: ResponsePlan)
        ensures
            p.completes_handshake == (id == init_id && !initialized),
            p.route == response_route(*old(self), id),
            *final(self) == (App {
                pending_inlay_hints_id: if p.route == ResponseRoute::InlayHints { None } else { old(self).pending_inlay_hints_id },
                ..*old(self)
            }),
            old(self).wf() ==> final(self).wf(),
    {
        let completes_handshake = id == init_id && !initialized;
        let route = if self.pending_inlay_hints_id == Some(id) {
            self.pending_inlay_hints_id = None;
            ResponseRoute::InlayHints
        } else if self.pending_completion_id == Some(id) {
            ResponseRoute::Completion
        } else {
            ResponseRoute::Unclaimed
        };
        ResponsePlan { completes_handshake, route }
    }
}

/// The lines of `lines`, each once, in the order in which they first occur.
pub open spec fn first_lines(lines: Seq<usize>) -> Seq<usize>
    decreases lines.len(),
{
    if lines.len() == 0 {
        Seq::empty()
    } else {
        let p = first_lines(lines.drop_last());
        if p.contains(lines.last()) { p } else { p.push(lines.last()) }
    }
}

/// The positions in `lines` that hold `l`, ascending.
pub open spec fn positions_of(lines: Seq<usize>, l: usize) -> Seq<usize>
    decreases lines.len(),
{
    if lines.len() == 0 {
        Seq::empty()
    } else {
        let p = positions_of(lines.drop_last(), l);
        if lines.last() == l { p.push((lines.len() - 1) as usize) } else { p }
    }
}

proof fn lemma_first_lines_has(lines: Seq<usize>, l: usize)
    ensures
        first_lines(lines).contains(l) == lines.contains(l),
        first_lines(lines).no_duplicates(),
        !lines.contains(l) ==> positions_of(lines, l) == Seq::<usize>::empty(),
    decreases lines.len(),
{
    if lines.len() > 0 {
        let init = lines.drop_last();
        let x = lines.last();
        let p = first_lines(init);
        lemma_first_lines_has(init, l);
        lemma_first_lines_has(init, x);
        assert(lines.contains(l) == (init.contains(l) || x == l)) by {
            if lines.contains(l) && l != x {
                let k = choose|k: int| 0 <= k < lines.len() && lines[k] == l;
                assert(k < init.len());
                assert(init[k] == l);
            }
            if init.contains(l) {
                let k = choose|k: int| 0 <= k < init.len() && init[k] == l;
                assert(lines[k] == l);
            }
            if x == l {
                assert(lines[lines.len() - 1] == l);
            }
        }
        if !p.contains(x) {
            let q = p.push(x);
            assert(q.contains(l) == (p.contains(l) || x == l)) by {
                if x == l {
                    assert(q[p.len() as int] == l);
                }
                if p.contains(l) {
                    let j = choose|j: int| 0 <= j < p.len() && p[j] == l;
                    assert(q[j] == l);
                }
                if q.contains(l) {
                    let j = choose|j: int| 0 <= j < q.len() && q[j] == l;
                    if j < p.len() {
                        assert(p[j] == l);
                    }
                }
            }
            assert forall|i: int, j: int| 0 <= i < q.len() && 0 <= j < q.len() && i != j implies q[i] != q[j] by {
                if i < p.len() && j < p.len() {
                } else if i < p.len() {
                    assert(p[i] == q[i]);
                } else {
                    assert(p[j] == q[j]);
                }
            }
        }
    }
}

/// Groups positions by line: for each line of `lines`, in the order in which
/// lines first occur, the positions that hold it, ascending.  The editor
/// files diagnostics and inlay hints under the line they start on this way.
pub fn group_by_line(lines: &Vec<usize>) -> (r: Vec<(usize, Vec<usize>)>)
    ensures
        r@.map_values(|e: (usize, Vec<usize>)| e.0) == first_lines(lines@),
        forall|i: int| 0 <= i < r@.len() ==> (#[trigger] r@[i]).1@ == positions_of(lines@, r@[i].0),
{
    let mut r: Vec<(usize, Vec<usize>)> = Vec::new();
    let mut k: usize = 0;
    while k < lines.len()
        invariant
            k <= lines@.len(),
            r@.map_values(|e: (usize, Vec<usize>)| e.0) == first_lines(lines@.take(k as int)),
            forall|i: int| 0 <= i < r@.len() ==> (#[trigger] r@[i]).1@ == positions_of(lines@.take(k as int), r@[i].0),
        decreases lines.len() - k,
    {
        let l = lines[k];
        let ghost pre = lines@.take(k as int);
        let ghost nxt = lines@.take(k + 1);
        assert(nxt.drop_last() =~= pre);
        assert(nxt.last() == l);
        proof {
            lemma_first_lines_has(pre, l);
        }
        let mut i: usize = 0;
        while i < r.len() && r[i].0 != l
            invariant
                i <= r@.len(),
                forall|j: int| 0 <= j < i ==> (#[trigger] r@[j]).0 != l,
            decreases r.len() - i,
        {
            i = i + 1;
        }
        let found = i < r.len();
        let ghost keys = r@.map_values(|e: (usize, Vec<usize>)| e.0);
        if found {
            assert(keys[i as int] == l);
            assert(first_lines(pre).contains(l));
            assert(first_lines(nxt) == first_lines(pre));
            let ghost r0 = r@;
            let (line, mut ps) = r.remove(i);
            ps.push(k);
            r.insert(i, (line, ps));
            assert(r@ =~= r0.update(i as int, (line, ps)));
            assert(r@.map_values(|e: (usize, Vec<usize>)| e.0) =~= keys);
            assert forall|j: int| 0 <= j < r@.len() implies (#[trigger] r@[j]).1@ == positions_of(nxt, r@[j].0) by {
                if j == i as int {
                    assert(r0[j].1@ == positions_of(pre, l));
                    assert(ps@ =~= positions_of(pre, l).push(k));
                } else {
                    assert(r@[j] == r0[j]);
                    assert(r0[j].0 != l) by {
                        lemma_first_lines_has(pre, l);
                        assert(keys[j] == r0[j].0);
                        assert(keys[i as int] == l);
                    }
                }
            }
        } else {
            assert(!first_lines(pre).contains(l)) by {
                if first_lines(pre).contains(l) {
                    let j = choose|j: int| 0 <= j < keys.len() && keys[j] == l;
                    assert(r@[j].0 == l);
                }
            }
            assert(first_lines(nxt) == first_lines(pre).push(l));
            let ghost r0 = r@;
            let mut ps: Vec<usize> = Vec::new();
            ps.push(k);
            r.push((l, ps));
            assert(r@.map_values(|e: (usize, Vec<usize>)| e.0) =~= keys.push(l));
            assert forall|j: int| 0 <= j < r@.len() implies (#[trigger] r@[j]).1@ == positions_of(nxt, r@[j].0) by {
                if j == r0.len() {
                    assert(positions_of(pre, l) == Seq::<usize>::empty());
                    assert(ps@ =~= Seq::<usize>::empty().push(k));
                } else {
                    assert(r@[j] == r0[j]);
                    assert(r0[j].0 != l);
                }
            }
        }
        k = k + 1;
    }
    assert(lines@.take(lines.len() as int) =~= lines@);
    r
}

impl App {
    /// Records that the language server failed with `err`: the status line
    /// reads `Error LSP: ` and the message, and nothing else changes.  The
    /// caller stops reading messages and drops the server.
    pub fn lsp_failed(&mut self, err: &str)
        ensures
            final(self).status_msg matches Some(m) && m@ == "Error LSP: "@ + err@,
            *final(self) == (App { status_msg: final(self).status_msg, ..*old(self) }),
            old(self).wf() ==> final(self).wf(),
    {
        let mut m = String::from_str("Error LSP: ");
        m.append(err);
        proof { reveal_strlit("Error LSP: "); }
        self.status_msg = Some(m);
    }
}

/// Takes the id for the next request to the language server from the
/// counter `next`, which moves on by one.
pub fn take_request_id(next: &mut u64) -> (id: u64)
    requires
        *old(next) < u64::MAX,
    ensures
        id == *old(next),
        *final(next) == id + 1,
{
    let id = *next;
    *next = id + 1;
    id
}

} // verus!

