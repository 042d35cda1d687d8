//! What typing, the bound actions and the mouse do to the workspace.  Each
//! handler changes the editor's state and hands back, as `Effects`, what the
//! caller has to carry out in the outside world.
use vstd::prelude::*;
use crate::app::{
    App, Action, Document, Focus, AppState, docs_but, opens_blank, asks_rename, asks_delete, cycle_up, cycle_down,
};
use crate::editor::{EditorBuffer, selection, backspace_count, right_pos, left_pos, lsp_position};
use crate::explorer::ListSelection;
use crate::strs::{char_alphanumeric, is_alphanumeric};

verus! {

/// A full-text change of a document, to announce to a language server.
pub struct DocChange {
    pub uri: String,
    pub version: i32,
    pub text: String,
}

/// A completion request at the cursor of a document.
pub struct CompletionRequest {
    pub uri: String,
    pub line: u32,
    pub character: u32,
}

/// What a handler asks of the outside world.
pub struct Effects {
    /// Changes to announce to the language server, in order.
    pub changes: Vec<DocChange>,
    /// Ask the language server for the inlay hints of a document, over
    /// this many lines.
    pub inlay_hints: Option<(String, usize)>,
    /// Ask the language server for completions.
    pub completion: Option<CompletionRequest>,
    /// Put this text on the system clipboard.
    pub copy: Option<String>,
    /// Read the system clipboard and paste it (`execute_paste_text`).
    pub paste: bool,
    /// Write the active document (`save_target`, then `save_file`).
    pub save: bool,
    /// Reload the file tree from disk.
    pub reload_tree: bool,
    /// Run the open prompt's search (`update_prompt_search`).
    pub search: bool,
    /// Read this file and open it (`load_file`).
    pub open: Option<String>,
}

impl Effects {
    /// Nothing to carry out.
    pub open spec fn quiet(&self) -> bool {
        &&& self.changes@.len() == 0
        &&& self.only_changes()
    }

    /// Nothing to carry out but announcing changes.
    pub open spec fn only_changes(&self) -> bool {
        &&& self.inlay_hints is None
        &&& self.completion is None
        &&& self.copy is None
        &&& !self.paste
        &&& !self.save
        &&& !self.reload_tree
        &&& !self.search
        &&& self.open is None
    }

    pub fn none() -> (e: Self)
        ensures
            e.quiet(),
    {
        Effects {
            changes: Vec::new(),
            inlay_hints: None,
            completion: None,
            copy: None,
            paste: false,
            save: false,
            reload_tree: false,
            search: false,
            open: None,
        }
    }
}

/// The version of `d` after announcing an edit: one more when it has a URI.
pub open spec fn bumped(d: Document) -> i32 {
    if d.uri is Some { (d.version + 1) as i32 } else { d.version }
}

/// `k` more edits of `d` can be announced without the version overflowing.
pub open spec fn can_announce(d: Document, k: nat) -> bool {
    d.uri is Some ==> d.version + k <= i32::MAX
}

/// `cs` announces the text of `d`: one change when `d` has a URI, none else.
pub open spec fn changes_for(d: Document, cs: Seq<DocChange>) -> bool {
    match d.uri {
        Some(u) => cs.len() == 1 && cs[0].uri@ == u@ && cs[0].version == d.version && cs[0].text@ == d.buffer.text_view(),
        None => cs.len() == 0,
    }
}

/// `r` asks for completions at the cursor of `d`, when `d` has a URI.
pub open spec fn completion_for(d: Document, r: Option<CompletionRequest>) -> bool {
    match d.uri {
        Some(u) => r matches Some(q) && q.uri@ == u@
            && (q.line, q.character) == lsp_position(d.buffer.text_view(), d.buffer.cursor_char_idx as int),
        None => r is None,
    }
}

/// Marks `doc` edited: dirty, one version further when it has a URI, and
/// the change that announces it.
fn announce(doc: &mut Document) -> (r: Vec<DocChange>)
    requires
        can_announce(*old(doc), 1),
    ensures
        *final(doc) == (Document { is_dirty: true, version: bumped(*old(doc)), ..*old(doc) }),
        changes_for(*final(doc), r@),
{
    doc.is_dirty = true;
    let uri = match &doc.uri {
        Some(u) => Some(u.clone()),
        None => None,
    };
    let mut out: Vec<DocChange> = Vec::new();
    match uri {
        Some(u) => {
            doc.version = doc.version + 1;
            out.push(DocChange { uri: u, version: doc.version, text: doc.buffer.get_full_text() });
        },
        None => {},
    }
    out
}

/// The text and cursor of `b` once its selection, if any, is deleted.
pub open spec fn unselected(b: EditorBuffer) -> (Seq<char>, int) {
    match selection(b.cursor_char_idx, b.selection_anchor) {
        Some((a, e)) => (b.text_view().take(a as int) + b.text_view().skip(e as int), a as int),
        None => (b.text_view(), b.cursor_char_idx as int),
    }
}

/// A char that closes a pair; typed in front of itself it is stepped over.
pub open spec fn closing_char(c: char) -> bool {
    c == ')' || c == '}' || c == ']' || c == '"' || c == '\''
}

/// The char that typing `c` adds after the cursor.
pub open spec fn pair_of(c: char) -> Option<char> {
    if c == '(' {
        Some(')')
    } else if c == '{' {
        Some('}')
    } else if c == '[' {
        Some(']')
    } else if c == '"' {
        Some('"')
    } else if c == '\'' {
        Some('\'')
    } else {
        None
    }
}

/// Text and cursor after typing `c` at `k` in `t`: a closing char in front
/// of the same char steps over it; an opening char comes with its pair,
/// the cursor between them; any other char is inserted.
pub open spec fn typed(t: Seq<char>, k: int, c: char) -> (Seq<char>, int) {
    if closing_char(c) && k < t.len() && t[k] == c {
        (t, right_pos(t, k))
    } else {
        match pair_of(c) {
            Some(p) => {
                let t2 = t.take(k) + seq![c, p] + t.skip(k);
                (t2, left_pos(t2, k + 2))
            },
            None => (t.take(k).push(c) + t.skip(k), k + 1),
        }
    }
}

/// `b` is `b1`, which has no selection, after typing `c` at its cursor:
/// stepping over a closing char in front of the same char, inserting an
/// opening char with its pair and going back between them, or inserting
/// any other char.
pub open spec fn typed_after(b1: EditorBuffer, b: EditorBuffer, c: char) -> bool {
    let t = b1.text_view();
    let k = b1.cursor_char_idx as int;
    if closing_char(c) && k < t.len() && t[k] == c {
        b.moved_right(&b1, false)
    } else {
        match pair_of(c) {
            Some(p) => exists|b2: EditorBuffer, b3: EditorBuffer|
                #[trigger] b2.char_inserted(&b1, c) && #[trigger] b3.char_inserted(&b2, p) && b.moved_left(&b3, false),
            None => b.char_inserted(&b1, c),
        }
    }
}

/// `b` is `b0` after typing `c`: the selection deleted, then `typed_after`.
pub open spec fn typed_buffer(b0: EditorBuffer, b: EditorBuffer, c: char) -> bool {
    exists|b1: EditorBuffer| #[trigger] b1.selection_cleared(&b0) && typed_after(b1, b, c)
}

/// `b` is `b0` with its selection replaced by `s`: the selection deleted,
/// then `s` inserted at the cursor.
pub open spec fn replaced_by(b0: EditorBuffer, b: EditorBuffer, s: Seq<char>) -> bool {
    exists|b1: EditorBuffer| #[trigger] b1.selection_cleared(&b0) && b.str_inserted(&b1, s)
}

/// The indentation (leading blanks and tabs) of the line of `b`'s cursor.
pub open spec fn indent_of(b: EditorBuffer) -> Seq<char> {
    let t = b.text_view();
    let line = crate::text::line_chars(t, crate::text::line_of(t, b.cursor_char_idx as int));
    line.take(crate::editor::indent_len(line, 0))
}

/// `b` is `b0` after Enter: the selection deleted, a line break inserted,
/// then the indentation of the line it broke.
pub open spec fn newline_buffer(b0: EditorBuffer, b: EditorBuffer) -> bool {
    exists|b1: EditorBuffer, b2: EditorBuffer|
        #[trigger] b1.selection_cleared(&b0) && #[trigger] b2.char_inserted(&b1, '\n') && b.str_inserted(&b2, indent_of(b1))
}

/// A selection anchor past the end of the text.
pub open spec fn stale_anchor(b: EditorBuffer) -> bool {
    b.selection_anchor matches Some(x) && x > b.text_view().len()
}

/// One backspace, which does nothing once the anchor went stale.
pub open spec fn backspace_step(b0: EditorBuffer, b: EditorBuffer) -> bool {
    if stale_anchor(b0) { b == b0 } else { b.backspaced(&b0) }
}

/// Each buffer of `s` is a backspace after the one before it.
pub open spec fn backspace_chain(s: Seq<EditorBuffer>) -> bool {
    forall|i: int| 0 <= i < s.len() - 1 ==> backspace_step(#[trigger] s[i], s[i + 1])
}

/// `b` is `b0` after `n` backspaces, those after the anchor went stale
/// doing nothing.
pub open spec fn backspaced_n(b0: EditorBuffer, b: EditorBuffer, n: nat) -> bool {
    exists|s: Seq<EditorBuffer>| #[trigger] backspace_chain(s) && s.len() == n + 1 && s[0] == b0 && s.last() == b
}

/// Typing `c` asks for completions.
pub open spec fn completes(c: char) -> bool {
    char_alphanumeric(c) || c == '.' || c == ':'
}

/// `n` is `o` with the buffer of the active document (and nothing else)
/// replaced by one that `f` relates to the old one.
pub open spec fn buffer_moved(o: App, n: App, f: spec_fn(EditorBuffer, EditorBuffer) -> bool) -> bool {
    match o.active_pos() {
        Some(i) => {
            let d0 = o.documents@[i].1;
            let d = n.documents@[i].1;
            &&& docs_but(o.documents@, n.documents@, i)
            &&& d == (Document { buffer: d.buffer, ..d0 })
            &&& f(d0.buffer, d.buffer)
            &&& n == (App { documents: n.documents, ..o })
        },
        None => n == o,
    }
}

/// The active document can take an edit: its selection anchor lies in the
/// text, and its version can grow by `k`.
pub open spec fn editable(a: App, k: nat) -> bool {
    match a.active_pos() {
        Some(i) => a.documents@[i].1.buffer.anchor_ok() && can_announce(a.documents@[i].1, k),
        None => true,
    }
}

proof fn lemma_reinsert(o: Seq<(usize, Document)>, s: Seq<(usize, Document)>, i: int, d: Document)
    requires
        0 <= i < o.len(),
        s == o.remove(i).insert(i, (o[i].0, d)),
    ensures
        docs_but(o, s, i),
        s[i] == (o[i].0, d),
{
    assert forall|j: int| 0 <= j < o.len() && j != i implies s[j] == o[j] by {
        if j < i {
            assert(s[j] == o.remove(i)[j]);
        } else {
            assert(s[j] == o.remove(i)[j - 1]);
        }
    }
}

/// `n` is `o` after Escape (see `handle_escape`).
pub open spec fn escapes(o: App, n: App) -> bool {
    if o.show_help {
        n == (App { show_help: false, ..o })
    } else if o.focus is Tree && o.show_tree {
        n == if o.windows@.len() == 0 {
            (App { show_tree: false, state: AppState::Intro, ..o })
        } else {
            (App { show_tree: false, focus: Focus::Window(o.active_window), ..o })
        }
    } else if o.completions@.len() > 0 {
        n == (App { completions: n.completions, ..o }) && n.completions@.len() == 0
    } else {
        buffer_moved(o, n, |b0: EditorBuffer, b: EditorBuffer| b == (EditorBuffer { selection_anchor: None, ..b0 }))
    }
}

/// `n` is `o` after Up, extending the selection when `selecting`.
pub open spec fn goes_up(o: App, n: App, selecting: bool) -> bool {
    if o.focus is Tree {
        &&& n == (App { explorer: n.explorer, ..o })
        &&& n.explorer.entries == o.explorer.entries
        &&& n.explorer.current_dir == o.explorer.current_dir
        &&& n.explorer.state == (ListSelection {
            selected: Some(match o.explorer.state.selected {
                Some(i) => if i > 0 { (i - 1) as usize } else { 0usize },
                None => 0usize,
            }),
            ..o.explorer.state
        })
    } else if o.completions@.len() > 0 {
        n == (App {
            completion_state: (ListSelection {
                selected: Some(cycle_up(o.completion_state.selected, o.completions@.len())),
                ..o.completion_state
            }),
            ..o
        })
    } else {
        buffer_moved(o, n, |b0: EditorBuffer, b: EditorBuffer| b.moved_up(&b0, selecting))
    }
}

/// `n` is `o` after Down, extending the selection when `selecting`.
pub open spec fn goes_down(o: App, n: App, selecting: bool) -> bool {
    if o.focus is Tree {
        &&& n == (App { explorer: n.explorer, ..o })
        &&& n.explorer.entries == o.explorer.entries
        &&& n.explorer.current_dir == o.explorer.current_dir
        &&& n.explorer.state == (ListSelection {
            selected: Some(match o.explorer.state.selected {
                Some(i) => if i >= crate::explorer::sat_sub1(o.explorer.entries@.len()) {
                    crate::explorer::sat_sub1(o.explorer.entries@.len()) as usize
                } else {
                    (i + 1) as usize
                },
                None => 0usize,
            }),
            ..o.explorer.state
        })
    } else if o.completions@.len() > 0 {
        n == (App {
            completion_state: (ListSelection {
                selected: Some(cycle_down(o.completion_state.selected, o.completions@.len())),
                ..o.completion_state
            }),
            ..o
        })
    } else {
        buffer_moved(o, n, |b0: EditorBuffer, b: EditorBuffer| b.moved_down(&b0, selecting))
    }
}

/// `n` is `o` after Tab: in a window, it steps through the completion
/// menu when one is open, else replaces the selection by four spaces.
pub open spec fn tabs(o: App, n: App) -> bool {
    let o1 = App { status_msg: None, ..o };
    if o.focus is Tree {
        n == o1
    } else if o.completions@.len() > 0 {
        n == (App {
            completion_state: (ListSelection {
                selected: Some(cycle_down(o.completion_state.selected, o.completions@.len())),
                ..o.completion_state
            }),
            ..o1
        })
    } else {
        buffer_moved(o1, n, |b0: EditorBuffer, b: EditorBuffer| {
            let (t1, k1) = unselected(b0);
            &&& b.wf()
            &&& replaced_by(b0, b, seq![' ', ' ', ' ', ' '])
            &&& b.text_view() == t1.take(k1) + seq![' ', ' ', ' ', ' '] + t1.skip(k1)
            &&& b.cursor_char_idx == k1 + 4
        })
    }
}

/// `n` is `o` after Backspace, announcing `e`: in a window, the selection
/// or else what `backspace_count` says before the cursor goes, and the
/// completion menu closes.
pub open spec fn backspaces(o: App, n: App, e: Effects) -> bool {
    let o1 = App { status_msg: None, ..o };
    &&& e.only_changes()
    &&& if o.focus is Tree {
        n == o1 && e.changes@.len() == 0
    } else {
        &&& n.completions@.len() == 0
        &&& match o.active_pos() {
            Some(i) => {
                let d0 = o.documents@[i].1;
                let b0 = d0.buffer;
                let t = b0.text_view();
                let c = b0.cursor_char_idx as int;
                let d = n.documents@[i].1;
                let changed = selection(b0.cursor_char_idx, b0.selection_anchor) is Some || c > 0;
                &&& docs_but(o.documents@, n.documents@, i)
                &&& d.buffer.wf()
                &&& d.buffer.backspaced(&b0)
                &&& if changed {
                    d == (Document { buffer: d.buffer, is_dirty: true, version: bumped(d0), ..d0 }) && changes_for(d, e.changes@)
                } else {
                    d == d0 && e.changes@.len() == 0
                }
                &&& n == (App { documents: n.documents, completions: n.completions, ..o1 })
            },
            None => n == (App { completions: n.completions, ..o1 }) && e.changes@.len() == 0,
        }
    }
}

/// `n` is `o` after pasting `text` into the active document, announcing `e`.
pub open spec fn pastes(o: App, n: App, text: Seq<char>, e: Effects) -> bool {
    &&& e.only_changes()
    &&& match o.active_pos() {
        Some(i) => {
            let d0 = o.documents@[i].1;
            let (t1, k1) = unselected(d0.buffer);
            let d = n.documents@[i].1;
            &&& docs_but(o.documents@, n.documents@, i)
            &&& d.buffer.wf()
            &&& replaced_by(d0.buffer, d.buffer, text)
            &&& d.buffer.text_view() == t1.take(k1) + text + t1.skip(k1)
            &&& d.buffer.cursor_char_idx == k1 + text.len()
            &&& d == (Document { buffer: d.buffer, is_dirty: true, version: bumped(d0), ..d0 })
            &&& changes_for(d, e.changes@)
            &&& n == (App { documents: n.documents, ..o })
        },
        None => n == o && e.changes@.len() == 0,
    }
}

/// `d` is `d0` after typing `c` over its selection, and `cs` announces it
/// when the text changed.
pub open spec fn typed_doc(d0: Document, d: Document, c: char, cs: Seq<DocChange>) -> bool {
    let b0 = d0.buffer;
    let (t1, k1) = unselected(b0);
    let skip = closing_char(c) && k1 < t1.len() && t1[k1] == c;
    let notify = !skip || selection(b0.cursor_char_idx, b0.selection_anchor) is Some;
    &&& d.buffer.wf()
    &&& typed_buffer(b0, d.buffer, c)
    &&& (d.buffer.text_view(), d.buffer.cursor_char_idx as int) == typed(t1, k1, c)
    &&& d.filepath == d0.filepath
    &&& d.uri == d0.uri
    &&& if notify {
        d.is_dirty && d.version == bumped(d0) && changes_for(d, cs)
    } else {
        d.is_dirty == d0.is_dirty && d.version == d0.version && cs.len() == 0
    }
}

/// Typing a char that closes a pair (`)`, `}`, `]`, `"` or `'`), with no
/// selection, right in front of the same char steps over it: the text stays
/// as it was, the cursor moves one step right, and nothing is announced.
pub proof fn law_closing_char_steps_over(d0: Document, d: Document, c: char, cs: Seq<DocChange>)
    requires
        c == ')' || c == '}' || c == ']' || c == '"' || c == '\'',
        selection(d0.buffer.cursor_char_idx, d0.buffer.selection_anchor) is None,
        d0.buffer.cursor_char_idx < d0.buffer.text_view().len(),
        d0.buffer.text_view()[d0.buffer.cursor_char_idx as int] == c,
        typed_doc(d0, d, c, cs),
    ensures
        d.buffer.text_view() == d0.buffer.text_view(),
        d.buffer.cursor_char_idx == right_pos(d0.buffer.text_view(), d0.buffer.cursor_char_idx as int),
        cs.len() == 0,
        d.version == d0.version,
        d.is_dirty == d0.is_dirty,
{
}

/// Typing an opening char, with no selection and not in front of the same
/// char, puts its closing partner right after it: `(` gives `()`, `{` gives
/// `{}`, `[` gives `[]`, and a quote two quotes.  A char that opens or closes
/// no pair is inserted alone.
pub proof fn law_opening_char_gets_its_pair(d0: Document, d: Document, c: char, cs: Seq<DocChange>)
    requires
        selection(d0.buffer.cursor_char_idx, d0.buffer.selection_anchor) is None,
        !(d0.buffer.cursor_char_idx < d0.buffer.text_view().len() && d0.buffer.text_view()[d0.buffer.cursor_char_idx as int] == c),
        typed_doc(d0, d, c, cs),
    ensures
        ({
            let t = d0.buffer.text_view();
            let k = d0.buffer.cursor_char_idx as int;
            let p = if c == '(' { ')' } else if c == '{' { '}' } else if c == '[' { ']' } else { c };
            if c == '(' || c == '{' || c == '[' || c == '"' || c == '\'' {
                d.buffer.text_view() == t.take(k) + seq![c, p] + t.skip(k)
            } else {
                d.buffer.text_view() == t.take(k) + seq![c] + t.skip(k) && d.buffer.cursor_char_idx == k + 1
            }
        }),
{
    let t = d0.buffer.text_view();
    let k = d0.buffer.cursor_char_idx as int;
    assert(t.take(k).push(c) =~= t.take(k) + seq![c]);
}

/// Types `c` into `doc` (see `typed_doc`).
#[verifier::spinoff_prover]
#[verifier::rlimit(30)]
fn type_into(doc: &mut Document, c: char) -> (cs: Vec<DocChange>)
    requires
        old(doc).buffer.wf(),
        old(doc).buffer.anchor_ok(),
        can_announce(*old(doc), 1),
    ensures
        typed_doc(*old(doc), *final(doc), c, cs@),
{
    let ghost b0 = doc.buffer;
    let had_selection = doc.buffer.get_selection_range().is_some();
    let _ = doc.buffer.delete_selection();
    let ghost b1 = doc.buffer;
    proof {
        let (t1, k1) = unselected(b0);
        assert(b1.text_view() == t1 && b1.cursor_char_idx == k1);
    }
    let closing = c == ')' || c == '}' || c == ']' || c == '"' || c == '\'';
    let same = match doc.buffer.char_at_cursor() {
        Some(x) => x == c,
        None => false,
    };
    let notify;
    if closing && same {
        doc.buffer.move_cursor_right(false);
        notify = had_selection;
        assert(typed_after(b1, doc.buffer, c));
    } else {
        doc.buffer.insert_char(c);
        let ghost b2 = doc.buffer;
        let pair: Option<char> = if c == '(' {
            Some(')')
        } else if c == '{' {
            Some('}')
        } else if c == '[' {
            Some(']')
        } else if c == '"' {
            Some('"')
        } else if c == '\'' {
            Some('\'')
        } else {
            None
        };
        match pair {
            Some(p) => {
                doc.buffer.insert_char(p);
                proof {
                    let (t1, k1) = unselected(b0);
                    assert(doc.buffer.text_view() =~= t1.take(k1) + seq![c, p] + t1.skip(k1));
                }
                let ghost b3 = doc.buffer;
                doc.buffer.move_cursor_left(false);
                assert(b2.char_inserted(&b1, c) && b3.char_inserted(&b2, p) && doc.buffer.moved_left(&b3, false));
            },
            None => {
                proof {
                    let (t1, k1) = unselected(b0);
                    assert(doc.buffer.text_view() =~= t1.take(k1).push(c) + t1.skip(k1));
                }
            },
        }
        notify = true;
        assert(typed_after(b1, doc.buffer, c));
    }
    assert(b1.selection_cleared(&b0) && typed_after(b1, doc.buffer, c));
    if notify {
        announce(doc)
    } else {
        Vec::new()
    }
}

/// `n` is `o` after typing `c` in its focused window, announcing `e`.
pub open spec fn types_in_window(o: App, n: App, c: char, e: Effects) -> bool {
    &&& e.inlay_hints is None && e.copy is None && !e.paste && !e.save && !e.reload_tree && !e.search && e.open is None
    &&& match o.active_pos() {
        None => n == (App { completions: n.completions, ..o }) && n.completions@.len() == 0 && e.changes@.len() == 0
            && e.completion is None,
        Some(i) => {
            let d = n.documents@[i].1;
            &&& docs_but(o.documents@, n.documents@, i)
            &&& typed_doc(o.documents@[i].1, d, c, e.changes@)
            &&& if completes(c) {
                n.completions == o.completions && completion_for(d, e.completion)
            } else {
                n.completions@.len() == 0 && e.completion is None
            }
            &&& n == (App { documents: n.documents, completions: n.completions, ..o })
        },
    }
}

/// `n` is `o` after the char `c` was typed, announcing `e`: in the tree,
/// `n`, `r` and `d` make a new file, rename and delete; in a window the
/// char goes into the active document, a blank one being opened first on
/// the welcome screen.
pub open spec fn types(o: App, n: App, c: char, e: Effects) -> bool {
    let o1 = App { status_msg: None, ..o };
    if o.focus is Tree {
        &&& e.quiet()
        &&& if c == 'n' {
            opens_blank(o1, n)
        } else if c == 'r' {
            asks_rename(o1, n)
        } else if c == 'd' {
            asks_delete(o1, n)
        } else {
            n == o1
        }
    } else if o.state is Intro {
        exists|m: App| #[trigger] opens_blank(o1, m) && types_in_window(m, n, c, e)
    } else {
        types_in_window(o1, n, c, e)
    }
}

impl App {
    /// Marks the active document edited (dirty, one version further when a
    /// language server knows it) and gives the change to announce.
    pub fn notify_lsp_incremental(&mut self, _start_char: usize, _end_char: usize, _inserted_text: &str) -> (r: Vec<DocChange>)
        requires
            editable(*old(self), 1),
        ensures
            match old(self).active_pos() {
                Some(i) => {
                    let d0 = old(self).documents@[i].1;
                    let d = final(self).documents@[i].1;
                    &&& docs_but(old(self).documents@, final(self).documents@, i)
                    &&& d == (Document { is_dirty: true, version: bumped(d0), ..d0 })
                    &&& changes_for(d, r@)
                    &&& *final(self) == (App { documents: final(self).documents, ..*old(self) })
                },
                None => *final(self) == *old(self) && r@.len() == 0,
            },
            old(self).wf() ==> final(self).wf(),
    {
        match self.active_doc_index() {
            Some(i) => {
                let ghost o = *self;
                let (id, mut doc) = self.documents.remove(i);
                let r = announce(&mut doc);
                self.documents.insert(i, (id, doc));
                proof {
                    lemma_reinsert(o.documents@, self.documents@, i as int, doc);
                    if o.wf() {
                        App::lemma_doc_swap_wf(o, *self, i as int);
                    }
                }
                r
            },
            None => Vec::new(),
        }
    }

    /// The completion request for the cursor of the active document, when a
    /// language server knows it.
    pub fn trigger_completion(&self) -> (r: Option<CompletionRequest>)
        requires
            self.wf(),
        ensures
            match self.active_pos() {
                Some(i) => completion_for(self.documents@[i].1, r),
                None => r is None,
            },
    {
        match self.active_doc_index() {
            Some(i) => {
                let doc = &self.documents[i].1;
                match &doc.uri {
                    Some(u) => {
                        let (line, character) = doc.buffer.get_lsp_position();
                        Some(CompletionRequest { uri: u.clone(), line, character })
                    },
                    None => None,
                }
            },
            None => None,
        }
    }

    /// A completion request went out as request `id`: its answer is awaited
    /// and the old menu closes.
    pub fn completion_sent(&mut self, id: u64)
        ensures
            final(self).completions@.len() == 0,
            *final(self) == (App { pending_completion_id: Some(id), completions: final(self).completions, ..*old(self) }),
    {
        self.pending_completion_id = Some(id);
        self.completions = Vec::new();
    }

    /// Escape: closes the help, then the focused tree, then the completion
    /// menu, and else drops the selection of the active document.
    pub fn handle_escape(&mut self)
        ensures
            escapes(*old(self), *final(self)),
            old(self).wf() ==> final(self).wf(),
    {
        if self.show_help {
            self.show_help = false;
        } else if self.focus == Focus::Tree && self.show_tree {
            let _ = self.toggle_tree();
        } else if self.completions.len() > 0 {
            self.completions = Vec::new();
        } else {
            match self.active_doc_index() {
                Some(i) => {
                    let ghost o = *self;
                    let (id, mut doc) = self.documents.remove(i);
                    doc.buffer.selection_anchor = None;
                    self.documents.insert(i, (id, doc));
                    proof {
                        lemma_reinsert(o.documents@, self.documents@, i as int, doc);
                        if o.wf() {
                            App::lemma_doc_swap_wf(o, *self, i as int);
                        }
                    }
                },
                None => {},
            }
        }
    }

    /// Up: the previous tree row, the previous completion (wrapping), or
    /// the cursor one line up.
    pub fn handle_up(&mut self, selecting: bool)
        requires
            old(self).wf(),
        ensures
            goes_up(*old(self), *final(self), selecting),
            final(self).wf(),
    {
        if self.focus == Focus::Tree {
            self.explorer.previous();
        } else if self.completions.len() > 0 {
            let n = self.completions.len();
            let i = match self.completion_state.selected() {
                Some(i) => if i == 0 { n - 1 } else { i - 1 },
                None => 0,
            };
            self.completion_state.select(Some(i));
        } else {
            match self.active_doc_index() {
                Some(i) => {
                    let ghost o = *self;
                    let (id, mut doc) = self.documents.remove(i);
                    doc.buffer.move_cursor_up(selecting);
                    self.documents.insert(i, (id, doc));
                    proof {
                        lemma_reinsert(o.documents@, self.documents@, i as int, doc);
                        App::lemma_doc_swap_wf(o, *self, i as int);
                    }
                },
                None => {},
            }
        }
    }
}

impl App {
    /// Down: the next tree row, the next completion (wrapping), or the
    /// cursor one line down.
    pub fn handle_down(&mut self, selecting: bool)
        requires
            old(self).wf(),
        ensures
            goes_down(*old(self), *final(self), selecting),
            final(self).wf(),
    {
        if self.focus == Focus::Tree {
            self.explorer.next();
        } else if self.completions.len() > 0 {
            let n = self.completions.len();
            let i = match self.completion_state.selected() {
                Some(i) => if i >= n - 1 { 0 } else { i + 1 },
                None => 0,
            };
            self.completion_state.select(Some(i));
        } else {
            match self.active_doc_index() {
                Some(i) => {
                    let ghost o = *self;
                    let (id, mut doc) = self.documents.remove(i);
                    doc.buffer.move_cursor_down(selecting);
                    self.documents.insert(i, (id, doc));
                    proof {
                        lemma_reinsert(o.documents@, self.documents@, i as int, doc);
                        App::lemma_doc_swap_wf(o, *self, i as int);
                    }
                },
                None => {},
            }
        }
    }

    /// Tab (see `tabs`).
    pub fn handle_tab(&mut self)
        requires
            old(self).wf(),
            editable(*old(self), 0),
        ensures
            tabs(*old(self), *final(self)),
            final(self).wf(),
    {
        self.status_msg = None;
        if let Focus::Window(_) = self.focus {
            if self.completions.len() > 0 {
                let n = self.completions.len();
                let i = match self.completion_state.selected() {
                    Some(i) => if i >= n - 1 { 0 } else { i + 1 },
                    None => 0,
                };
                self.completion_state.select(Some(i));
            } else {
                match self.active_doc_index() {
                    Some(i) => {
                        let ghost o = *self;
                        let (id, mut doc) = self.documents.remove(i);
                        let ghost b0 = doc.buffer;
                        let _ = doc.buffer.delete_selection();
                        let ghost b1 = doc.buffer;
                        doc.buffer.insert_str("    ");
                        proof {
                            reveal_strlit("    ");
                            let (t1, k1) = unselected(b0);
                            assert(b1.text_view() == t1 && b1.cursor_char_idx == k1);
                            assert(doc.buffer.text_view() =~= t1.take(k1) + seq![' ', ' ', ' ', ' '] + t1.skip(k1));
                            assert("    "@ =~= seq![' ', ' ', ' ', ' ']);
                            assert(b1.selection_cleared(&b0) && doc.buffer.str_inserted(&b1, seq![' ', ' ', ' ', ' ']));
                        }
                        self.documents.insert(i, (id, doc));
                        proof {
                            lemma_reinsert(o.documents@, self.documents@, i as int, doc);
                            App::lemma_doc_swap_wf(o, *self, i as int);
                        }
                    },
                    None => {},
                }
            }
        }
    }

    /// Backspace (see `backspaces`).
    pub fn handle_backspace(&mut self) -> (e: Effects)
        requires
            old(self).wf(),
            editable(*old(self), 1),
        ensures
            backspaces(*old(self), *final(self), e),
            final(self).wf(),
    {
        self.status_msg = None;
        let mut e = Effects::none();
        if let Focus::Window(_) = self.focus {
            match self.active_doc_index() {
                Some(i) => {
                    let ghost o = *self;
                    let (id, mut doc) = self.documents.remove(i);
                    let ghost d0 = doc;
                    let changed = match doc.buffer.get_selection_range() {
                        Some(_r) => {
                            let _ = doc.buffer.delete_selection();
                            true
                        },
                        None => {
                            let end_idx = doc.buffer.cursor_char_idx;
                            doc.buffer.delete_backwards();
                            let start_idx = doc.buffer.cursor_char_idx;
                            start_idx != end_idx
                        },
                    };
                    if changed {
                        e.changes = announce(&mut doc);
                    }
                    self.documents.insert(i, (id, doc));
                    proof {
                        lemma_reinsert(o.documents@, self.documents@, i as int, doc);
                        App::lemma_doc_swap_wf(o, *self, i as int);
                    }
                },
                None => {},
            }
            self.completions = Vec::new();
        }
        e
    }

    /// Pastes `text` over the selection of the active document (see `pastes`).
    pub fn execute_paste_text(&mut self, text: &str) -> (e: Effects)
        requires
            old(self).wf(),
            editable(*old(self), 1),
        ensures
            pastes(*old(self), *final(self), text@, e),
            final(self).wf(),
    {
        let mut e = Effects::none();
        match self.active_doc_index() {
            Some(i) => {
                let ghost o = *self;
                let (id, mut doc) = self.documents.remove(i);
                let ghost b0 = doc.buffer;
                let _ = doc.buffer.delete_selection();
                let ghost b1 = doc.buffer;
                doc.buffer.insert_str(text);
                proof {
                    let (t1, k1) = unselected(b0);
                    assert(b1.text_view() == t1 && b1.cursor_char_idx == k1);
                    assert(doc.buffer.text_view() =~= t1.take(k1) + text@ + t1.skip(k1));
                    assert(b1.selection_cleared(&b0) && doc.buffer.str_inserted(&b1, text@));
                }
                e.changes = announce(&mut doc);
                self.documents.insert(i, (id, doc));
                proof {
                    lemma_reinsert(o.documents@, self.documents@, i as int, doc);
                    App::lemma_doc_swap_wf(o, *self, i as int);
                }
            },
            None => {},
        }
        e
    }
}

impl App {
    /// Types `c` in the focused window (see `types_in_window`).
    fn type_in_window(&mut self, c: char) -> (e: Effects)
        requires
            old(self).wf(),
            editable(*old(self), 1),
        ensures
            types_in_window(*old(self), *final(self), c, e),
            final(self).wf(),
    {
        let mut e = Effects::none();
        let mut trigger = false;
        match self.active_doc_index() {
            Some(i) => {
                let ghost o = *self;
                let (id, mut doc) = self.documents.remove(i);
                e.changes = type_into(&mut doc, c);
                if is_alphanumeric(c) || c == '.' || c == ':' {
                    trigger = true;
                }
                self.documents.insert(i, (id, doc));
                proof {
                    lemma_reinsert(o.documents@, self.documents@, i as int, doc);
                    App::lemma_doc_swap_wf(o, *self, i as int);
                    App::lemma_docs_but_active(o, *self, i as int);
                }
            },
            None => {},
        }
        if trigger {
            e.completion = self.trigger_completion();
        } else {
            self.completions = Vec::new();
        }
        e
    }

    /// A char typed outside the prompt (see `types`).
    pub fn handle_char(&mut self, c: char) -> (e: Effects)
        requires
            old(self).wf(),
            editable(*old(self), 1),
            old(self).next_buffer_id < usize::MAX,
            old(self).next_window_id < usize::MAX,
        ensures
            types(*old(self), *final(self), c, e),
            final(self).wf(),
    {
        self.status_msg = None;
        if self.focus == Focus::Tree {
            if c == 'n' {
                self.new_blank_file();
            } else if c == 'r' {
                self.trigger_rename();
            } else if c == 'd' {
                self.trigger_delete();
            }
            return Effects::none();
        }
        if self.state == AppState::Intro {
            self.new_blank_file();
            let ghost m = *self;
            proof {
                // a fresh document has nothing to guard
                assert(self.active_pos() == Some((self.documents@.len() - 1) as int)) by {
                    let w = self.windows@.len() - 1;
                    assert(self.windows@[w].id == self.active_window);
                    crate::app::lemma_first_where_found(self.windows@, crate::app::win_has(self.active_window), w);
                    let k = self.win_pos(self.active_window)->0;
                    assert(self.win_ids().no_duplicates());
                    assert(self.win_ids()[k] == self.win_ids()[w]);
                    let di = self.documents@.len() - 1;
                    assert(self.documents@[di].0 == self.windows@[w].buffer_id);
                    crate::app::lemma_first_where_found(self.documents@, crate::app::doc_has(self.windows@[w].buffer_id), di);
                    let dk = self.doc_pos(self.windows@[w].buffer_id)->0;
                    assert(self.doc_ids().no_duplicates());
                    assert(self.doc_ids()[dk] == self.doc_ids()[di]);
                }
            }
            let e = self.type_in_window(c);
            assert(opens_blank(App { status_msg: None, ..*old(self) }, m));
            return e;
        }
        self.type_in_window(c)
    }
}

/// Text, cursor and anchor after `n` backspaces from cursor `c` and anchor
/// `a` in `t`; once the anchor lies past the end of the text the remaining
/// backspaces are skipped.
pub open spec fn after_backspaces(t: Seq<char>, c: int, a: Option<usize>, n: nat) -> (Seq<char>, int, Option<usize>)
    decreases n,
{
    if n == 0 || (a matches Some(x) && x > t.len()) {
        (t, c, a)
    } else {
        let step = match selection(c as usize, a) {
            Some((x, y)) => (t.take(x as int) + t.skip(y as int), x as int, None::<usize>),
            None => if c <= 0 {
                (t, c, a)
            } else {
                let k = backspace_count(t, c);
                (t.take(c - k) + t.skip(c), c - k, a)
            },
        };
        after_backspaces(step.0, step.1, step.2, (n - 1) as nat)
    }
}

/// `d` is `d0` with a completion accepted: the word before the cursor taken
/// back by one backspace per byte of it, `ins` inserted, and the change
/// announced with a request for inlay hints.
pub open spec fn accepted_doc(d0: Document, d: Document, ins: Seq<char>, e: Effects) -> bool {
    let b0 = d0.buffer;
    let t0 = b0.text_view();
    let c0 = b0.cursor_char_idx as int;
    let word = t0.subrange(crate::editor::word_start(t0, c0), c0);
    let (t1, c1, _a1) = after_backspaces(t0, c0, b0.selection_anchor, crate::strs::utf8_len(word));
    &&& d.buffer.wf()
    &&& exists|b1: EditorBuffer| #[trigger] backspaced_n(b0, b1, crate::strs::utf8_len(word)) && d.buffer.str_inserted(&b1, ins)
    &&& d.buffer.text_view() == t1.take(c1) + ins + t1.skip(c1)
    &&& d.buffer.cursor_char_idx == c1 + ins.len()
    &&& d == (Document { buffer: d.buffer, is_dirty: true, version: bumped(d0), ..d0 })
    &&& changes_for(d, e.changes@)
    &&& match d.uri {
        Some(u) => e.inlay_hints matches Some((v, lines)) && v@ == u@ && lines == crate::text::num_lines(d.buffer.text_view()),
        None => e.inlay_hints is None,
    }
}

/// `d` is `d0` after Enter: the selection replaced by a line break and the
/// indentation of the line it broke, the change announced by `cs`.
pub open spec fn newline_doc(d0: Document, d: Document, cs: Seq<DocChange>) -> bool {
    let (t1, k1) = unselected(d0.buffer);
    let line = crate::text::line_chars(t1, crate::text::line_of(t1, k1));
    let indent = line.take(crate::editor::indent_len(line, 0));
    &&& d.buffer.wf()
    &&& newline_buffer(d0.buffer, d.buffer)
    &&& d.buffer.text_view() == t1.take(k1) + seq!['\n'] + indent + t1.skip(k1)
    &&& d.buffer.cursor_char_idx == k1 + 1 + indent.len()
    &&& d == (Document { buffer: d.buffer, is_dirty: true, version: bumped(d0), ..d0 })
    &&& changes_for(d, cs)
}

/// `n` is `o` after Enter, with effects `e`: in the tree, a directory is
/// entered (and reloaded) or a file opened; with the completion menu open,
/// the selected completion is accepted; in a window, a line break is typed.
pub open spec fn enters(o: App, n: App, e: Effects) -> bool {
    let o1 = App { status_msg: None, ..o };
    if o.focus is Tree {
        match o.explorer.state.selected {
            Some(k) if k < o.explorer.entries@.len() => {
                let en = o.explorer.entries@[k as int];
                if en.is_dir {
                    &&& n == (App { explorer: n.explorer, ..o1 })
                    &&& n.explorer == (crate::explorer::FileExplorer { current_dir: en.path, ..o.explorer })
                    &&& e.reload_tree && e.open is None && e.changes@.len() == 0 && e.inlay_hints is None
                    &&& e.completion is None && e.copy is None && !e.paste && !e.save && !e.search
                } else {
                    &&& n == o1
                    &&& e.open == Some(en.path)
                    &&& !e.reload_tree && e.changes@.len() == 0 && e.inlay_hints is None
                    &&& e.completion is None && e.copy is None && !e.paste && !e.save && !e.search
                }
            },
            _ => n == o1 && e.quiet(),
        }
    } else if o.completions@.len() > 0 {
        &&& n.completions@.len() == 0
        &&& e.completion is None && e.copy is None && !e.paste && !e.save && !e.reload_tree && !e.search && e.open is None
        &&& match (o.completion_state.selected, o.active_pos()) {
            (Some(idx), Some(i)) if idx < o.completions@.len() => {
                &&& docs_but(o.documents@, n.documents@, i)
                &&& accepted_doc(o.documents@[i].1, n.documents@[i].1, o.completions@[idx as int].insert_text@, e)
                &&& n == (App { documents: n.documents, completions: n.completions, ..o1 })
            },
            _ => n == (App { completions: n.completions, ..o1 }) && e.changes@.len() == 0 && e.inlay_hints is None,
        }
    } else {
        &&& e.only_changes()
        &&& n.completions@.len() == 0
        &&& match o.active_pos() {
            Some(i) => {
                &&& docs_but(o.documents@, n.documents@, i)
                &&& newline_doc(o.documents@[i].1, n.documents@[i].1, e.changes@)
                &&& n == (App { documents: n.documents, completions: n.completions, ..o1 })
            },
            None => n == (App { completions: n.completions, ..o1 }) && e.changes@.len() == 0,
        }
    }
}

/// Backspaces `n` times in `b`; once the anchor lies past the end, the
/// remaining backspaces do nothing.
fn backspace_times(b: &mut EditorBuffer, n: usize)
    requires
        old(b).wf(),
    ensures
        final(b).wf(),
        backspaced_n(*old(b), *final(b), n as nat),
        (final(b).text_view(), final(b).cursor_char_idx as int, final(b).selection_anchor) == after_backspaces(
            old(b).text_view(),
            old(b).cursor_char_idx as int,
            old(b).selection_anchor,
            n as nat,
        ),
{
    let mut j: usize = 0;
    let ghost mut states: Seq<EditorBuffer> = seq![*b];
    while j < n
        invariant
            j <= n,
            b.wf(),
            states.len() == j + 1,
            states[0] == *old(b),
            states.last() == *b,
            backspace_chain(states),
            after_backspaces(old(b).text_view(), old(b).cursor_char_idx as int, old(b).selection_anchor, n as nat)
                == after_backspaces(b.text_view(), b.cursor_char_idx as int, b.selection_anchor, (n - j) as nat),
        decreases n - j,
    {
        let len = crate::text::rope_len_chars(&b.text);
        let stale = match b.selection_anchor {
            Some(x) => x > len,
            None => false,
        };
        let ghost bp = *b;
        let ghost t = b.text_view();
        let ghost c = b.cursor_char_idx;
        let ghost a = b.selection_anchor;
        if !stale {
            b.delete_backwards();
            proof {
                match selection(c, a) {
                    Some((x, y)) => {
                        assert(b.text_view() =~= t.take(x as int) + t.skip(y as int));
                    },
                    None => {},
                }
            }
        } else {
            assert(after_backspaces(t, c as int, a, (n - j) as nat) == (t, c as int, a));
            assert(after_backspaces(t, c as int, a, (n - j - 1) as nat) == (t, c as int, a));
        }
        proof {
            assert(stale == stale_anchor(bp));
            assert(backspace_step(bp, *b));
            let s0 = states;
            states = states.push(*b);
            assert forall|i: int| 0 <= i < states.len() - 1 implies backspace_step(#[trigger] states[i], states[i + 1]) by {
                if i < s0.len() - 1 {
                    assert(states[i] == s0[i] && states[i + 1] == s0[i + 1]);
                } else {
                    assert(states[i] == bp);
                }
            }
        }
        j = j + 1;
    }
    assert(backspace_chain(states) && states.len() == n + 1 && states[0] == *old(b) && states.last() == *b);
}

/// The document `d` after a whole-text change was announced with a request
/// for inlay hints (see `accepted_doc`).
fn announce_with_hints(doc: &mut Document) -> (e: Effects)
    requires
        can_announce(*old(doc), 1),
        old(doc).buffer.wf(),
    ensures
        *final(doc) == (Document { is_dirty: true, version: bumped(*old(doc)), ..*old(doc) }),
        changes_for(*final(doc), e.changes@),
        match final(doc).uri {
            Some(u) => e.inlay_hints matches Some((v, lines)) && v@ == u@ && lines == crate::text::num_lines(final(doc).buffer.text_view()),
            None => e.inlay_hints is None,
        },
        e.completion is None && e.copy is None && !e.paste && !e.save && !e.reload_tree && !e.search && e.open is None,
{
    let mut e = Effects::none();
    e.changes = announce(doc);
    match &doc.uri {
        Some(u) => {
            let lines = crate::text::rope_len_lines(&doc.buffer.text);
            e.inlay_hints = Some((u.clone(), lines));
        },
        None => {},
    }
    e
}

/// Accepts a completion inserting `ins` into `doc` (see `accepted_doc`).
fn accept_into(doc: &mut Document, ins: &str) -> (e: Effects)
    requires
        old(doc).buffer.wf(),
        can_announce(*old(doc), 1),
        4 * old(doc).buffer.text_view().len() <= usize::MAX,
    ensures
        accepted_doc(*old(doc), *final(doc), ins@, e),
        e.completion is None && e.copy is None && !e.paste && !e.save && !e.reload_tree && !e.search && e.open is None,
{
    let ghost b0 = doc.buffer;
    let prefix = crate::strs::str_to_chars(doc.buffer.get_current_word_prefix().as_str());
    proof {
        crate::editor::lemma_word_start(b0.text_view(), b0.cursor_char_idx as int);
        crate::strs::lemma_utf8_len_bound(prefix@);
    }
    let n = crate::strs::utf8_len_of(&prefix);
    backspace_times(&mut doc.buffer, n);
    let ghost b1 = doc.buffer;
    doc.buffer.insert_str(ins);
    proof {
        let t1 = b1.text_view();
        let c1 = b1.cursor_char_idx as int;
        assert(doc.buffer.text_view() =~= t1.take(c1) + ins@ + t1.skip(c1));
        assert(backspaced_n(b0, b1, n as nat) && doc.buffer.str_inserted(&b1, ins@));
    }
    announce_with_hints(doc)
}

/// Types a line break with the line's indentation into `doc` (see `newline_doc`).
fn newline_into(doc: &mut Document) -> (cs: Vec<DocChange>)
    requires
        old(doc).buffer.wf(),
        old(doc).buffer.anchor_ok(),
        can_announce(*old(doc), 1),
    ensures
        newline_doc(*old(doc), *final(doc), cs@),
{
    let ghost b0 = doc.buffer;
    let _ = doc.buffer.delete_selection();
    proof {
        let (t1, k1) = unselected(b0);
        assert(doc.buffer.text_view() == t1 && doc.buffer.cursor_char_idx == k1);
    }
    let ghost b1 = doc.buffer;
    let indent = doc.buffer.get_current_line_indentation();
    doc.buffer.insert_char('\n');
    let ghost b2 = doc.buffer;
    doc.buffer.insert_str(indent.as_str());
    assert(b1.selection_cleared(&b0) && b2.char_inserted(&b1, '\n') && doc.buffer.str_inserted(&b2, indent_of(b1)));
    proof {
        let (t1, k1) = unselected(b0);
        let line = crate::text::line_chars(t1, crate::text::line_of(t1, k1));
        let ind = line.take(crate::editor::indent_len(line, 0));
        assert(doc.buffer.text_view() =~= t1.take(k1) + seq!['\n'] + ind + t1.skip(k1));
    }
    announce(doc)
}

impl App {
    /// Announces a whole-text change of the active document, asking for its
    /// inlay hints too.
    pub fn notify_lsp_change(&mut self) -> (e: Effects)
        requires
            old(self).wf(),
            editable(*old(self), 1),
        ensures
            final(self).wf(),
            match old(self).active_pos() {
                Some(i) => {
                    let d0 = old(self).documents@[i].1;
                    let d = final(self).documents@[i].1;
                    &&& docs_but(old(self).documents@, final(self).documents@, i)
                    &&& d == (Document { is_dirty: true, version: bumped(d0), ..d0 })
                    &&& changes_for(d, e.changes@)
                    &&& match d.uri {
                        Some(u) => e.inlay_hints matches Some((v, lines)) && v@ == u@
                            && lines == crate::text::num_lines(d.buffer.text_view()),
                        None => e.inlay_hints is None,
                    }
                    &&& *final(self) == (App { documents: final(self).documents, ..*old(self) })
                },
                None => *final(self) == *old(self) && e.quiet(),
            },
            e.completion is None && e.copy is None && !e.paste && !e.save && !e.reload_tree && !e.search && e.open is None,
    {
        match self.active_doc_index() {
            Some(i) => {
                let ghost o = *self;
                let (id, mut doc) = self.documents.remove(i);
                let e = announce_with_hints(&mut doc);
                self.documents.insert(i, (id, doc));
                proof {
                    lemma_reinsert(o.documents@, self.documents@, i as int, doc);
                    App::lemma_doc_swap_wf(o, *self, i as int);
                }
                e
            },
            None => Effects::none(),
        }
    }

    /// Enter (see `enters`).
    pub fn handle_enter(&mut self) -> (e: Effects)
        requires
            old(self).wf(),
            editable(*old(self), 1),
            match old(self).active_pos() {
                Some(i) => 4 * old(self).documents@[i].1.buffer.text_view().len() <= usize::MAX,
                None => true,
            },
        ensures
            enters(*old(self), *final(self), e),
            final(self).wf(),
    {
        self.status_msg = None;
        let mut e = Effects::none();
        if self.focus == Focus::Tree {
            let picked = match self.explorer.get_selected() {
                Some(entry) => Some((entry.path.clone(), entry.is_dir)),
                None => None,
            };
            match picked {
                Some((path, is_dir)) => {
                    if is_dir {
                        self.explorer.current_dir = path;
                        e.reload_tree = true;
                    } else {
                        e.open = Some(path);
                    }
                },
                None => {},
            }
            return e;
        }
        if self.completions.len() > 0 {
            let chosen = match self.completion_state.selected() {
                Some(idx) => if idx < self.completions.len() { Some(idx) } else { None },
                None => None,
            };
            match chosen {
                Some(idx) => {
                    match self.active_doc_index() {
                        Some(i) => {
                            let ghost o = *self;
                            let ins = self.completions[idx].insert_text.clone();
                            let (id, mut doc) = self.documents.remove(i);
                            e = accept_into(&mut doc, ins.as_str());
                            self.documents.insert(i, (id, doc));
                            proof {
                                lemma_reinsert(o.documents@, self.documents@, i as int, doc);
                                App::lemma_doc_swap_wf(o, *self, i as int);
                            }
                        },
                        None => {},
                    }
                },
                None => {},
            }
            self.completions = Vec::new();
            return e;
        }
        match self.active_doc_index() {
            Some(i) => {
                let ghost o = *self;
                let (id, mut doc) = self.documents.remove(i);
                e.changes = newline_into(&mut doc);
                self.documents.insert(i, (id, doc));
                proof {
                    lemma_reinsert(o.documents@, self.documents@, i as int, doc);
                    App::lemma_doc_swap_wf(o, *self, i as int);
                }
            },
            None => {},
        }
        self.completions = Vec::new();
        e
    }
}

/// A cursor motion of the active buffer.
pub enum Motion {
    Left,
    Right,
    LineStart,
    LineEnd,
    PageUp(usize),
    PageDown(usize),
    /// Scroll up by the first count, in a view of the second's height.
    ScrollUp(usize, usize),
    ScrollDown(usize, usize),
}

/// How motion `m` (extending the selection when `sel`) relates buffers.
pub open spec fn motion(m: Motion, sel: bool) -> spec_fn(EditorBuffer, EditorBuffer) -> bool {
    |b0: EditorBuffer, b: EditorBuffer| match m {
        Motion::Left => b.moved_left(&b0, sel),
        Motion::Right => b.moved_right(&b0, sel),
        Motion::LineStart => b.moved_to_line_start(&b0, sel),
        Motion::LineEnd => b.moved_to_line_end(&b0, sel),
        Motion::PageUp(k) => b.paged_up(&b0, sel, k),
        Motion::PageDown(k) => b.paged_down(&b0, sel, k),
        Motion::ScrollUp(k, h) => {
            &&& b.wf()
            &&& b.scroll_y == crate::editor::sat_sub(b0.scroll_y as int, k as int)
            &&& b.kept_in_view(&b0, b.scroll_y as int, h as int, sel)
        },
        Motion::ScrollDown(k, h) => {
            &&& b.wf()
            &&& b.scroll_y == crate::editor::min_int(b0.scroll_y + k, crate::text::num_lines(b0.text_view()) - 1)
            &&& b.kept_in_view(&b0, b.scroll_y as int, h as int, sel)
        },
    }
}

/// Some document has unsaved changes.
pub open spec fn any_dirty(ds: Seq<(usize, Document)>) -> bool {
    exists|j: int| 0 <= j < ds.len() && (#[trigger] ds[j]).1.is_dirty
}

/// `n` is `o` after Copy, with effects `e`: the selection of the active
/// document goes to the clipboard.
pub open spec fn copies(o: App, n: App, e: Effects) -> bool {
    &&& e.changes@.len() == 0
    &&& e.inlay_hints is None && e.completion is None && !e.paste && !e.save && !e.reload_tree && !e.search && e.open is None
    &&& match o.active_pos() {
        Some(i) => {
            let b0 = o.documents@[i].1.buffer;
            match selection(b0.cursor_char_idx, b0.selection_anchor) {
                Some((a, z)) => {
                    let t = b0.text_view().subrange(a as int, z as int);
                    &&& n.clipboard matches Some(c) && c@ == t
                    &&& e.copy matches Some(c) && c@ == t
                    &&& n == (App { clipboard: n.clipboard, ..o })
                },
                None => n == o && e.copy is None,
            }
        },
        None => n == o && e.copy is None,
    }
}

/// `n` is `o` after Cut, with effects `e`: the selection of the active
/// document goes to the clipboard and out of the text.
pub open spec fn cuts(o: App, n: App, e: Effects) -> bool {
    &&& e.inlay_hints is None && e.completion is None && !e.paste && !e.save && !e.reload_tree && !e.search && e.open is None
    &&& match o.active_pos() {
        Some(i) => {
            let d0 = o.documents@[i].1;
            let b0 = d0.buffer;
            match selection(b0.cursor_char_idx, b0.selection_anchor) {
                Some((a, z)) => {
                    let t = b0.text_view().subrange(a as int, z as int);
                    let d = n.documents@[i].1;
                    &&& docs_but(o.documents@, n.documents@, i)
                    &&& d.buffer.wf()
                    &&& d.buffer.is_selection_deleted(&b0, a, z)
                    &&& d == (Document { buffer: d.buffer, is_dirty: true, version: bumped(d0), ..d0 })
                    &&& changes_for(d, e.changes@)
                    &&& n.clipboard matches Some(c) && c@ == t
                    &&& e.copy matches Some(c) && c@ == t
                    &&& n == (App { documents: n.documents, clipboard: n.clipboard, ..o })
                },
                None => n == o && e.quiet(),
            }
        },
        None => n == o && e.quiet(),
    }
}

/// `cs` announces `k` edits of `d`, each with the whole text, the versions
/// counting up to that of `d`; none when `d` has no URI.
pub open spec fn changes_run(d: Document, k: nat, cs: Seq<DocChange>) -> bool {
    match d.uri {
        Some(u) => cs.len() == k && forall|j: int| 0 <= j < k ==> {
            &&& (#[trigger] cs[j]).uri@ == u@
            &&& cs[j].version == d.version - k + j + 1
            &&& cs[j].text@ == d.buffer.text_view()
        },
        None => cs.len() == 0,
    }
}

/// The group of edits an undo (or, with `redo`, a redo) of `b` steps over.
pub open spec fn step_group(b: EditorBuffer, redo: bool) -> Option<crate::history::TxSpec> {
    let h = if redo { b.redo_view() } else { b.history() };
    if h.len() > 0 { Some(h.last()) } else { None }
}

/// `n` is `o` after Undo (or Redo), with effects `e`: each edit stepped
/// over is announced; the status line tells what happened.
pub open spec fn steps_history(o: App, n: App, redo: bool, e: Effects) -> bool {
    &&& e.only_changes()
    &&& match o.active_pos() {
        Some(i) => {
            let d0 = o.documents@[i].1;
            let b0 = d0.buffer;
            let d = n.documents@[i].1;
            &&& docs_but(o.documents@, n.documents@, i)
            &&& d.buffer.wf()
            &&& if redo { d.buffer.redone(&b0) } else { d.buffer.undone(&b0) }
            &&& n == (App { documents: n.documents, status_msg: n.status_msg, ..o })
            &&& match step_group(b0, redo) {
                Some(tx) => {
                    &&& d.buffer.text_view() == if redo {
                        crate::history::apply_edits(b0.text_view(), tx.edits)
                    } else {
                        crate::history::revert_edits(b0.text_view(), tx.edits)
                    }
                    &&& d.buffer.cursor_char_idx == if redo { tx.after } else { tx.before }
                    &&& d.buffer.selection_anchor is None
                    &&& d == (Document {
                        buffer: d.buffer,
                        is_dirty: true,
                        version: if d0.uri is Some { (d0.version + tx.edits.len()) as i32 } else { d0.version },
                        ..d0
                    })
                    &&& changes_run(d, tx.edits.len(), e.changes@)
                    &&& n.status_msg matches Some(m) && m@ == (if redo { "Rehacer"@ } else { "Deshacer"@ })
                },
                None => {
                    &&& d.buffer.text_view() == b0.text_view()
                    &&& d == (Document { buffer: d.buffer, ..d0 })
                    &&& e.changes@.len() == 0
                    &&& n.status_msg matches Some(m)
                        && m@ == (if redo { "Ya en el estado mas reciente"@ } else { "Ya en el estado mas antiguo"@ })
                },
            }
        },
        None => n == o && e.changes@.len() == 0,
    }
}

/// The active document can take an undo (or redo): its version can grow by
/// one for each edit of the group stepped over.
pub open spec fn history_steppable(a: App, redo: bool) -> bool {
    match a.active_pos() {
        Some(i) => match step_group(a.documents@[i].1.buffer, redo) {
            Some(tx) => can_announce(a.documents@[i].1, tx.edits.len()),
            None => true,
        },
        None => true,
    }
}

/// `n` is `o` after the Delete key: in the tree it asks to delete the
/// selected entry; in a window it deletes the selection.
pub open spec fn deletes(o: App, n: App) -> bool {
    if o.focus is Tree {
        asks_delete(o, n)
    } else {
        match o.active_pos() {
            Some(i) => {
                let d0 = o.documents@[i].1;
                let b0 = d0.buffer;
                match selection(b0.cursor_char_idx, b0.selection_anchor) {
                    Some((a, z)) => {
                        let d = n.documents@[i].1;
                        &&& docs_but(o.documents@, n.documents@, i)
                        &&& d.buffer.wf()
                        &&& d.buffer.is_selection_deleted(&b0, a, z)
                        &&& d == (Document { buffer: d.buffer, is_dirty: true, ..d0 })
                        &&& n == (App { documents: n.documents, ..o })
                    },
                    None => n == o,
                }
            },
            None => n == o,
        }
    }
}

impl App {
    /// Applies motion `m` to the active buffer.
    pub fn move_active(&mut self, m: Motion, sel: bool)
        requires
            old(self).wf(),
        ensures
            buffer_moved(*old(self), *final(self), motion(m, sel)),
            final(self).wf(),
    {
        match self.active_doc_index() {
            Some(i) => {
                let ghost o = *self;
                let (id, mut doc) = self.documents.remove(i);
                match m {
                    Motion::Left => doc.buffer.move_cursor_left(sel),
                    Motion::Right => doc.buffer.move_cursor_right(sel),
                    Motion::LineStart => doc.buffer.move_to_start_of_line(sel),
                    Motion::LineEnd => doc.buffer.move_to_end_of_line(sel),
                    Motion::PageUp(k) => doc.buffer.move_page_up(sel, k),
                    Motion::PageDown(k) => doc.buffer.move_page_down(sel, k),
                    Motion::ScrollUp(k, h) => doc.buffer.scroll_viewport_up(k, h, sel),
                    Motion::ScrollDown(k, h) => doc.buffer.scroll_viewport_down(k, h, sel),
                }
                self.documents.insert(i, (id, doc));
                proof {
                    lemma_reinsert(o.documents@, self.documents@, i as int, doc);
                    App::lemma_doc_swap_wf(o, *self, i as int);
                }
            },
            None => {},
        }
    }

    /// Copy (see `copies`).
    pub fn copy_selection(&mut self) -> (e: Effects)
        requires
            old(self).wf(),
            editable(*old(self), 0),
        ensures
            copies(*old(self), *final(self), e),
            final(self).wf(),
    {
        let mut e = Effects::none();
        match self.active_doc_index() {
            Some(i) => {
                match self.documents[i].1.buffer.get_selected_text() {
                    Some(t) => {
                        e.copy = Some(t.clone());
                        self.clipboard = Some(t);
                    },
                    None => {},
                }
            },
            None => {},
        }
        e
    }

    /// Cut (see `cuts`).
    pub fn cut_selection(&mut self) -> (e: Effects)
        requires
            old(self).wf(),
            editable(*old(self), 1),
        ensures
            cuts(*old(self), *final(self), e),
            final(self).wf(),
    {
        let mut e = Effects::none();
        match self.active_doc_index() {
            Some(i) => {
                if self.documents[i].1.buffer.get_selection_range().is_some() {
                    let ghost o = *self;
                    let (id, mut doc) = self.documents.remove(i);
                    let cut = doc.buffer.delete_selection();
                    if cut.is_some() {
                        e.changes = announce(&mut doc);
                    }
                    self.documents.insert(i, (id, doc));
                    proof {
                        lemma_reinsert(o.documents@, self.documents@, i as int, doc);
                        App::lemma_doc_swap_wf(o, *self, i as int);
                    }
                    match cut {
                        Some(t) => {
                            e.copy = Some(t.clone());
                            self.clipboard = Some(t);
                        },
                        None => {},
                    }
                }
            },
            None => {},
        }
        e
    }

    /// Undo, or with `redo` Redo (see `steps_history`).
    pub fn step_history(&mut self, redo: bool) -> (e: Effects)
        requires
            old(self).wf(),
            history_steppable(*old(self), redo),
        ensures
            steps_history(*old(self), *final(self), redo, e),
            final(self).wf(),
    {
        let mut e = Effects::none();
        match self.active_doc_index() {
            Some(i) => {
                let ghost o = *self;
                let (id, mut doc) = self.documents.remove(i);
                let ghost d0 = doc;
                let deltas = if redo { doc.buffer.redo() } else { doc.buffer.undo() };
                let stepped = deltas.is_some();
                match deltas {
                    Some(ds) => {
                        doc.is_dirty = true;
                        let ghost k = ds@.len();
                        let ghost bu = doc.buffer;
                        let mut j: usize = 0;
                        let mut out: Vec<DocChange> = Vec::new();
                        while j < ds.len()
                            invariant
                                j <= ds@.len(),
                                k == ds@.len(),
                                doc.buffer == bu,
                                doc.is_dirty,
                                doc.uri == d0.uri,
                                doc.filepath == d0.filepath,
                                can_announce(d0, k),
                                doc.version == (if d0.uri is Some { (d0.version + j) as i32 } else { d0.version }),
                                match doc.uri {
                                    Some(u) => out@.len() == j && forall|q: int| 0 <= q < j ==> {
                                        &&& (#[trigger] out@[q]).uri@ == u@
                                        &&& out@[q].version == d0.version + q + 1
                                        &&& out@[q].text@ == bu.text_view()
                                    },
                                    None => out@.len() == 0,
                                },
                            decreases ds.len() - j,
                        {
                            let mut one = announce(&mut doc);
                            out.append(&mut one);
                            j = j + 1;
                        }
                        e.changes = out;
                    },
                    None => {},
                }
                self.documents.insert(i, (id, doc));
                proof {
                    lemma_reinsert(o.documents@, self.documents@, i as int, doc);
                    App::lemma_doc_swap_wf(o, *self, i as int);
                }
                self.status_msg = Some(if stepped {
                    if redo { String::from_str("Rehacer") } else { String::from_str("Deshacer") }
                } else if redo {
                    String::from_str("Ya en el estado mas reciente")
                } else {
                    String::from_str("Ya en el estado mas antiguo")
                });
            },
            None => {},
        }
        e
    }

    /// The Delete key (see `deletes`).
    pub fn delete_key(&mut self)
        requires
            old(self).wf(),
            editable(*old(self), 0),
        ensures
            deletes(*old(self), *final(self)),
            final(self).wf(),
    {
        if self.focus == Focus::Tree {
            self.trigger_delete();
            return;
        }
        match self.active_doc_index() {
            Some(i) => {
                if self.documents[i].1.buffer.get_selection_range().is_some() {
                    let ghost o = *self;
                    let (id, mut doc) = self.documents.remove(i);
                    if doc.buffer.delete_selection().is_some() {
                        doc.is_dirty = true;
                    }
                    self.documents.insert(i, (id, doc));
                    proof {
                        lemma_reinsert(o.documents@, self.documents@, i as int, doc);
                        App::lemma_doc_swap_wf(o, *self, i as int);
                    }
                }
            },
            None => {},
        }
    }

    /// Quit: asks first when a document has unsaved changes.
    pub fn request_quit(&mut self)
        ensures
            if any_dirty(old(self).documents@) {
                crate::app::prompt_opened(*old(self), *final(self), crate::app::PromptIntent::ConfirmQuit)
            } else {
                *final(self) == (App { quit: true, ..*old(self) })
            },
            old(self).wf() ==> final(self).wf(),
    {
        let mut j: usize = 0;
        let mut dirty = false;
        while j < self.documents.len()
            invariant
                j <= self.documents@.len(),
                dirty == exists|q: int| 0 <= q < j && (#[trigger] self.documents@[q]).1.is_dirty,
            decreases self.documents.len() - j,
        {
            if self.documents[j].1.is_dirty {
                dirty = true;
            }
            j = j + 1;
        }
        if dirty {
            let _ = self.open_prompt(crate::app::PromptIntent::ConfirmQuit);
        } else {
            self.quit = true;
        }
    }
}

/// Only a reload of the tree, when `reload`.
pub open spec fn only_reload(e: Effects, reload: bool) -> bool {
    &&& e.changes@.len() == 0
    &&& e.inlay_hints is None && e.completion is None && e.copy is None && !e.paste && !e.save && !e.search && e.open is None
    &&& e.reload_tree == reload
}

/// Only the flags `paste`, `save` and `search` as given.
pub open spec fn only_flags(e: Effects, paste: bool, save: bool, search: bool) -> bool {
    &&& e.changes@.len() == 0
    &&& e.inlay_hints is None && e.completion is None && e.copy is None && !e.reload_tree && e.open is None
    &&& e.paste == paste && e.save == save && e.search == search
}

/// The active document's text leaves room for the index arithmetic of
/// accepting a completion and of jumping to a search result.
pub open spec fn text_fits(a: App) -> bool {
    match a.active_pos() {
        Some(i) => {
            let n = a.documents@[i].1.buffer.text_view().len();
            &&& 4 * n <= usize::MAX
            &&& n + crate::app::query_len(a.last_search_query) <= usize::MAX
        },
        None => true,
    }
}

/// What each action needs of the workspace: consistency always, and then
/// only what that action uses: room for a new window id to split, an active
/// document that can take an edit to change text, an undo or a redo step
/// that fits, texts short enough to jump to a search result, and, for a
/// focus move, drawn areas of existing windows only, at distances that fit
/// in an `i32`.
pub open spec fn action_ok(a: App, action: Action) -> bool {
    &&& a.wf()
    &&& match action {
        Action::FocusUp => a.areas_ok() && a.focus_move_fits(0, -1i16),
        Action::FocusDown => a.areas_ok() && a.focus_move_fits(0, 1),
        Action::FocusLeft => a.areas_ok() && a.focus_move_fits(-1i16, 0),
        Action::FocusRight => a.areas_ok() && a.focus_move_fits(1, 0),
        Action::SplitVertical | Action::SplitHorizontal => a.next_window_id < usize::MAX,
        Action::NextSearchResult => text_fits(a),
        Action::Undo => history_steppable(a, false),
        Action::Redo => history_steppable(a, true),
        Action::Copy => editable(a, 0),
        Action::Cut | Action::Paste | Action::Backspace | Action::Indent | Action::Delete => editable(a, 1),
        Action::Confirm => editable(a, 1) && text_fits(a),
        _ => true,
    }
}

/// `n` is `o` after `action` in a view `vh` lines high, with effects `e`.
pub open spec fn acts(o: App, n: App, action: Action, vh: usize, e: Effects) -> bool {
    match action {
        Action::ToggleHelp => n == (App { show_help: !o.show_help, ..o }) && e.quiet(),
        Action::ToggleTree => crate::app::tree_toggled(o, n) && only_reload(e, !o.show_tree),
        Action::FocusUp => crate::app::focus_moved(o, n, 0, -1i16) && e.quiet(),
        Action::FocusDown => crate::app::focus_moved(o, n, 0, 1) && e.quiet(),
        Action::FocusLeft => crate::app::focus_moved(o, n, -1i16, 0) && e.quiet(),
        Action::FocusRight => crate::app::focus_moved(o, n, 1, 0) && e.quiet(),
        Action::SplitVertical => crate::app::splits(o, n, crate::layout::Direction::Vertical) && e.quiet(),
        Action::SplitHorizontal => crate::app::splits(o, n, crate::layout::Direction::Horizontal) && e.quiet(),
        Action::CloseWindow => crate::app::closes_active(o, n) && e.quiet(),
        Action::NextSearchResult => {
            &&& e.quiet()
            &&& o.text_search_results@.len() == 0 ==> n == o
            &&& o.text_search_results@.len() > 0 ==> crate::app::jumps_to_result(
                (App {
                    current_search_idx: ((o.current_search_idx + 1) % (o.text_search_results@.len() as int)) as usize,
                    ..o
                }),
                n,
            )
        },
        Action::Copy => copies(o, n, e),
        Action::Cut => cuts(o, n, e),
        Action::Paste => n == o && only_flags(e, true, false, false),
        Action::Undo => steps_history(o, n, false, e),
        Action::Redo => steps_history(o, n, true, e),
        Action::Quit => e.quiet() && if any_dirty(o.documents@) {
            crate::app::prompt_opened(o, n, crate::app::PromptIntent::ConfirmQuit)
        } else {
            n == (App { quit: true, ..o })
        },
        Action::Save => crate::app::save_triggered(o, n, e.save) && only_flags(e, false, e.save, false),
        Action::ScrollViewportUp(sel) => buffer_moved(o, n, motion(Motion::ScrollUp((vh / 2) as usize, vh), sel)) && e.quiet(),
        Action::ScrollViewportDown(sel) => buffer_moved(o, n, motion(Motion::ScrollDown((vh / 2) as usize, vh), sel)) && e.quiet(),
        Action::ScrollUp1(sel) => buffer_moved(o, n, motion(Motion::ScrollUp(1, vh), sel)) && e.quiet(),
        Action::ScrollDown1(sel) => buffer_moved(o, n, motion(Motion::ScrollDown(1, vh), sel)) && e.quiet(),
        Action::SearchText => crate::app::prompt_opened(o, n, crate::app::PromptIntent::SearchText) && only_flags(e, false, false, true),
        Action::SearchFile => crate::app::prompt_opened(o, n, crate::app::PromptIntent::SearchFile) && only_flags(e, false, false, true),
        Action::Cancel => escapes(o, n) && e.quiet(),
        Action::Confirm => enters(o, n, e),
        Action::Backspace => backspaces(o, n, e),
        Action::Indent => tabs(o, n) && e.quiet(),
        Action::Delete => deletes(o, n) && e.quiet(),
        Action::MoveStartOfLine(sel) => buffer_moved(o, n, motion(Motion::LineStart, sel)) && e.quiet(),
        Action::MoveEndOfLine(sel) => buffer_moved(o, n, motion(Motion::LineEnd, sel)) && e.quiet(),
        Action::PageUp(sel) => buffer_moved(o, n, motion(Motion::PageUp(20), sel)) && e.quiet(),
        Action::PageDown(sel) => buffer_moved(o, n, motion(Motion::PageDown(20), sel)) && e.quiet(),
        Action::MoveUp(sel) => goes_up(o, n, sel) && e.quiet(),
        Action::MoveDown(sel) => goes_down(o, n, sel) && e.quiet(),
        Action::MoveLeft(sel) => buffer_moved(o, n, motion(Motion::Left, sel)) && e.quiet(),
        Action::MoveRight(sel) => buffer_moved(o, n, motion(Motion::Right, sel)) && e.quiet(),
    }
}

impl App {
    /// Shows or hides the help.
    pub fn toggle_help(&mut self)
        ensures
            *final(self) == (App { show_help: !old(self).show_help, ..*old(self) }),
            old(self).wf() ==> final(self).wf(),
    {
        self.show_help = !self.show_help;
    }

    /// Carries out `action` in a view `view_height` lines high (see `acts`).
    #[verifier::rlimit(40)]
    pub fn execute_action(&mut self, action: Action, view_height: usize) -> (e: Effects)
        requires
            action_ok(*old(self), action),
        ensures
            acts(*old(self), *final(self), action, view_height, e),
            final(self).wf(),
    {
        match action {
            Action::ToggleHelp => {
                self.toggle_help();
                Effects::none()
            },
            Action::ToggleTree => {
                let mut e = Effects::none();
                e.reload_tree = self.toggle_tree();
                e
            },
            Action::FocusUp => {
                self.move_focus_dir(0, -1);
                Effects::none()
            },
            Action::FocusDown => {
                self.move_focus_dir(0, 1);
                Effects::none()
            },
            Action::FocusLeft => {
                self.move_focus_dir(-1, 0);
                Effects::none()
            },
            Action::FocusRight => {
                self.move_focus_dir(1, 0);
                Effects::none()
            },
            Action::SplitVertical => {
                self.split_window(crate::layout::Direction::Vertical);
                Effects::none()
            },
            Action::SplitHorizontal => {
                self.split_window(crate::layout::Direction::Horizontal);
                Effects::none()
            },
            Action::CloseWindow => {
                self.close_active_window();
                Effects::none()
            },
            Action::NextSearchResult => {
                self.nex_search_result();
                Effects::none()
            },
            Action::Copy => self.copy_selection(),
            Action::Cut => self.cut_selection(),
            Action::Paste => {
                let mut e = Effects::none();
                e.paste = true;
                e
            },
            Action::Undo => self.step_history(false),
            Action::Redo => self.step_history(true),
            Action::Quit => {
                self.request_quit();
                Effects::none()
            },
            Action::Save => {
                let mut e = Effects::none();
                e.save = self.trigger_save();
                e
            },
            Action::ScrollViewportUp(sel) => {
                self.move_active(Motion::ScrollUp(view_height / 2, view_height), sel);
                Effects::none()
            },
            Action::ScrollViewportDown(sel) => {
                self.move_active(Motion::ScrollDown(view_height / 2, view_height), sel);
                Effects::none()
            },
            Action::ScrollUp1(sel) => {
                self.move_active(Motion::ScrollUp(1, view_height), sel);
                Effects::none()
            },
            Action::ScrollDown1(sel) => {
                self.move_active(Motion::ScrollDown(1, view_height), sel);
                Effects::none()
            },
            Action::SearchText => {
                let mut e = Effects::none();
                e.search = self.open_prompt(crate::app::PromptIntent::SearchText);
                e
            },
            Action::SearchFile => {
                let mut e = Effects::none();
                e.search = self.open_prompt(crate::app::PromptIntent::SearchFile);
                e
            },
            Action::Cancel => {
                self.handle_escape();
                Effects::none()
            },
            Action::Confirm => self.handle_enter(),
            Action::Backspace => self.handle_backspace(),
            Action::Indent => {
                self.handle_tab();
                Effects::none()
            },
            Action::Delete => {
                self.delete_key();
                Effects::none()
            },
            Action::MoveStartOfLine(sel) => {
                self.move_active(Motion::LineStart, sel);
                Effects::none()
            },
            Action::MoveEndOfLine(sel) => {
                self.move_active(Motion::LineEnd, sel);
                Effects::none()
            },
            Action::PageUp(sel) => {
                self.move_active(Motion::PageUp(20), sel);
                Effects::none()
            },
            Action::PageDown(sel) => {
                self.move_active(Motion::PageDown(20), sel);
                Effects::none()
            },
            Action::MoveUp(sel) => {
                self.handle_up(sel);
                Effects::none()
            },
            Action::MoveDown(sel) => {
                self.handle_down(sel);
                Effects::none()
            },
            Action::MoveLeft(sel) => {
                self.move_active(Motion::Left, sel);
                Effects::none()
            },
            Action::MoveRight(sel) => {
                self.move_active(Motion::Right, sel);
                Effects::none()
            },
        }
    }
}

/// A mouse event, as far as the editor tells them apart.
#[derive(Clone, Copy, Debug, PartialEq, Eq, Structural)]
pub enum MouseKind {
    LeftDown,
    LeftDrag,
    ScrollUp,
    ScrollDown,
    Other,
}

/// Width of the gutter (line numbers and git marks) of a text with `lines` lines.
pub open spec fn gutter_width(lines: nat) -> nat {
    crate::strs::decimal(lines).len() + 3
}

/// The area `e` covers the cell `(x, y)`.
pub open spec fn covers(e: (usize, crate::layout::Rect), x: u16, y: u16) -> bool {
    let r = e.1;
    r.x <= x && (x as int) < crate::app::min_nat(r.x + r.width, u16::MAX as int)
        && r.y <= y && (y as int) < crate::app::min_nat(r.y + r.height, u16::MAX as int)
}

/// The area covering `(x, y)`.
pub open spec fn area_at(x: u16, y: u16) -> spec_fn((usize, crate::layout::Rect)) -> bool {
    |e: (usize, crate::layout::Rect)| covers(e, x, y)
}

/// The cursor of `b0` placed by a click (or, with `selecting`, a drag) at
/// `(x, y)` over the window area `r`, whose text starts one line below its top.
pub open spec fn click_rel(x: u16, y: u16, r: crate::layout::Rect, selecting: bool) -> spec_fn(EditorBuffer, EditorBuffer) -> bool {
    |b0: EditorBuffer, b: EditorBuffer|
        b.clicked(&b0, x, y, r.x, (r.y + 1) as u16, gutter_width(crate::text::num_lines(b0.text_view())) as u16, selecting)
}

/// The tree row after three steps up (or, with `down`, down).
pub open spec fn tree_steps(o: App, n: App, down: bool) -> bool {
    &&& n == (App { explorer: n.explorer, ..o })
    &&& n.explorer.entries == o.explorer.entries
    &&& n.explorer.current_dir == o.explorer.current_dir
    &&& n.explorer.state.offset == o.explorer.state.offset
    &&& n.explorer.state.selected == Some(three_steps(o.explorer.state.selected, o.explorer.entries@.len(), down))
}

/// Selection after three steps up (or down) in a list of `len` rows.
pub open spec fn three_steps(sel: Option<usize>, len: nat, down: bool) -> usize {
    let last = crate::explorer::sat_sub1(len);
    let first = match sel {
        Some(i) => if down { if i >= last { last as usize } else { (i + 1) as usize } } else { if i > 0 { (i - 1) as usize } else { 0 } },
        None => 0,
    };
    if down {
        let a = if first >= last { last as usize } else { (first + 1) as usize };
        if a >= last { last as usize } else { (a + 1) as usize }
    } else {
        let a = if first > 0 { (first - 1) as usize } else { 0usize };
        if a > 0 { (a - 1) as usize } else { 0usize }
    }
}

/// `n` is `o` after a mouse event at `(x, y)` (the tree `tree_width` cells
/// wide, the view `vh` lines high, `double` for the second click of a
/// double click), with effects `e`.
pub open spec fn mouses(o: App, n: App, kind: MouseKind, x: u16, y: u16, tree_width: u16, vh: usize, double: bool, e: Effects) -> bool {
    match kind {
        MouseKind::LeftDown => if o.show_tree && x < tree_width {
            if y >= 1 {
                let row = (o.explorer.state.offset + (y - 1)) as usize;
                let m = App {
                    explorer: crate::explorer::FileExplorer {
                        state: ListSelection { selected: Some(row), ..o.explorer.state },
                        ..o.explorer
                    },
                    ..o
                };
                if double { enters(m, n, e) } else { n == m && e.quiet() }
            } else {
                n == o && e.quiet()
            }
        } else if o.state == AppState::Workspace {
            &&& e.quiet()
            &&& match crate::app::first_where(o.window_areas@, area_at(x, y)) {
                Some(k) => {
                    let (id, r) = o.window_areas@[k];
                    let m = App { focus: Focus::Window(id), active_window: id, ..o };
                    buffer_moved(m, n, click_rel(x, y, r, false))
                },
                None => n == o,
            }
        } else {
            n == o && e.quiet()
        },
        MouseKind::LeftDrag => {
            &&& e.quiet()
            &&& match o.focus {
                Focus::Window(active) => match crate::app::first_where(o.window_areas@, crate::app::area_of(active)) {
                    Some(k) => buffer_moved(o, n, click_rel(x, y, o.window_areas@[k].1, true)),
                    None => n == o,
                },
                Focus::Tree => n == o,
            }
        },
        MouseKind::ScrollUp => e.quiet() && if o.focus is Tree {
            tree_steps(o, n, false)
        } else {
            buffer_moved(o, n, motion(Motion::ScrollUp(3, vh), false))
        },
        MouseKind::ScrollDown => e.quiet() && if o.focus is Tree {
            tree_steps(o, n, true)
        } else {
            buffer_moved(o, n, motion(Motion::ScrollDown(3, vh), false))
        },
        MouseKind::Other => n == o && e.quiet(),
    }
}

/// A mouse event can be handled: the workspace is consistent, the drawn
/// areas are of existing windows and leave a line for the tab bar, the tree
/// row clicked is a `usize`, and a double click can take an Enter.
pub open spec fn mouse_ok(a: App, y: u16) -> bool {
    &&& a.wf()
    &&& a.areas_ok()
    &&& forall|k: int| 0 <= k < a.window_areas@.len() ==> (#[trigger] a.window_areas@[k]).1.y < u16::MAX
    &&& a.explorer.state.offset + y <= usize::MAX
    &&& doc_ok(a)
}

impl App {
    fn find_area_at(&self, x: u16, y: u16) -> (r: Option<usize>)
        ensures
            match r {
                Some(i) => crate::app::first_where(self.window_areas@, area_at(x, y)) == Some(i as int),
                None => crate::app::first_where(self.window_areas@, area_at(x, y)) is None,
            },
    {
        let mut i: usize = 0;
        while i < self.window_areas.len()
            invariant
                i <= self.window_areas@.len(),
                forall|j: int| 0 <= j < i ==> !area_at(x, y)(#[trigger] self.window_areas@[j]),
            decreases self.window_areas.len() - i,
        {
            let r = self.window_areas[i].1;
            let right = r.x.saturating_add(r.width);
            let bottom = r.y.saturating_add(r.height);
            if x >= r.x && x < right && y >= r.y && y < bottom {
                proof { crate::app::lemma_first_where_some(self.window_areas@, area_at(x, y), i as int); }
                return Some(i);
            }
            i = i + 1;
        }
        proof { crate::app::lemma_first_where_none(self.window_areas@, area_at(x, y)); }
        None
    }

    /// Places the cursor of the active document by a click or drag on `r`.
    fn click_active(&mut self, x: u16, y: u16, r: crate::layout::Rect, selecting: bool)
        requires
            old(self).wf(),
            r.y < u16::MAX,
        ensures
            buffer_moved(*old(self), *final(self), click_rel(x, y, r, selecting)),
            final(self).wf(),
    {
        match self.active_doc_index() {
            Some(i) => {
                let ghost o = *self;
                let (id, mut doc) = self.documents.remove(i);
                let lines = crate::text::rope_len_lines(&doc.buffer.text);
                let digits = crate::strs::decimal_chars(lines).len();
                proof { lemma_decimal_short(lines as nat); }
                let gutter = digits as u16 + 3;
                doc.buffer.set_cursor_from_screen(x, y, r.x, r.y + 1, gutter, selecting);
                self.documents.insert(i, (id, doc));
                proof {
                    lemma_reinsert(o.documents@, self.documents@, i as int, doc);
                    App::lemma_doc_swap_wf(o, *self, i as int);
                }
            },
            None => {},
        }
    }

    /// A mouse event (see `mouses`).
    pub fn handle_mouse_event(&mut self, kind: MouseKind, x: u16, y: u16, tree_width: u16, view_height: usize, double: bool) -> (e: Effects)
        requires
            mouse_ok(*old(self), y),
        ensures
            mouses(*old(self), *final(self), kind, x, y, tree_width, view_height, double, e),
            final(self).wf(),
    {
        match kind {
            MouseKind::LeftDown => {
                if self.show_tree && x < tree_width {
                    if y >= 1 {
                        let row = self.explorer.state.offset() + (y - 1) as usize;
                        self.explorer.state.select(Some(row));
                        if double {
                            return self.handle_enter();
                        }
                    }
                    Effects::none()
                } else if self.state == AppState::Workspace {
                    match self.find_area_at(x, y) {
                        Some(k) => {
                            let (id, r) = self.window_areas[k];
                            self.focus = Focus::Window(id);
                            self.active_window = id;
                            proof {
                                assert(old(self).win_ids().contains(id));
                            }
                            self.click_active(x, y, r, false);
                        },
                        None => {},
                    }
                    Effects::none()
                } else {
                    Effects::none()
                }
            },
            MouseKind::LeftDrag => {
                match self.focus {
                    Focus::Window(active) => match self.find_area(active) {
                        Some(k) => {
                            let r = self.window_areas[k].1;
                            self.click_active(x, y, r, true);
                        },
                        None => {},
                    },
                    Focus::Tree => {},
                }
                Effects::none()
            },
            MouseKind::ScrollUp => {
                if self.focus == Focus::Tree {
                    self.explorer.previous();
                    self.explorer.previous();
                    self.explorer.previous();
                } else {
                    self.move_active(Motion::ScrollUp(3, view_height), false);
                }
                Effects::none()
            },
            MouseKind::ScrollDown => {
                if self.focus == Focus::Tree {
                    self.explorer.next();
                    self.explorer.next();
                    self.explorer.next();
                } else {
                    self.move_active(Motion::ScrollDown(3, view_height), false);
                }
                Effects::none()
            },
            MouseKind::Other => Effects::none(),
        }
    }
}

/// `10^k`.
pub open spec fn pow10(k: nat) -> nat
    decreases k,
{
    if k == 0 { 1 } else { 10 * pow10((k - 1) as nat) }
}

proof fn lemma_decimal_len(n: nat, k: nat)
    requires
        k >= 1,
        n < pow10(k),
    ensures
        crate::strs::decimal(n).len() <= k,
    decreases k,
{
    if n >= 10 {
        if k == 1 {
            assert(pow10(1) == 10 * pow10(0));
        } else {
            let p = pow10((k - 1) as nat);
            assert(n / 10 < p) by (nonlinear_arith)
                requires
                    n < 10 * p,
                    n >= 10,
            ;
            lemma_decimal_len(n / 10, (k - 1) as nat);
        }
    }
}

/// A decimal number of a `usize` has at most twenty digits.
pub proof fn lemma_decimal_short(n: nat)
    requires
        n <= usize::MAX,
    ensures
        crate::strs::decimal(n).len() <= 20,
{
    reveal_with_fuel(pow10, 21);
    assert(pow10(20) == 100000000000000000000nat);
    lemma_decimal_len(n, 20);
}

/// Neither Control nor Alt is held.
pub open spec fn plain(modifiers: u8) -> bool {
    (modifiers / 2) % 4 == 0
}

/// A key press outside the prompt can be handled.
pub open spec fn key_ok(a: App, combo: crate::app::KeyCombo) -> bool {
    match crate::app::binding_of(a.keybindings@, combo) {
        Some(action) => action_ok(a, action),
        None => a.wf() && doc_ok(a) && a.next_buffer_id < usize::MAX && a.next_window_id < usize::MAX,
    }
}

/// The active document can take an edit, an undo and a redo, and leaves
/// room for the index arithmetic of the handlers.
pub open spec fn doc_ok(a: App) -> bool {
    editable(a, 1) && history_steppable(a, false) && history_steppable(a, true) && text_fits(a)
}

/// `n` is `o` after a key press outside the prompt, with effects `e`: a
/// bound key does its action; an unbound char typed without Control or Alt
/// is typed.
pub open spec fn presses(o: App, n: App, combo: crate::app::KeyCombo, vh: usize, e: Effects) -> bool {
    match crate::app::binding_of(o.keybindings@, combo) {
        Some(action) => acts(o, n, action, vh, e),
        None => match combo.code {
            crate::app::Key::Char(c) => if plain(combo.modifiers) { types(o, n, c, e) } else { n == o && e.quiet() },
            _ => n == o && e.quiet(),
        },
    }
}

/// Number of edits the next undo (or redo) of `b` steps over.
fn group_len(b: &EditorBuffer, redo: bool) -> (r: usize)
    ensures
        r == match step_group(*b, redo) {
            Some(tx) => tx.edits.len(),
            None => 0,
        },
{
    if redo {
        let n = b.redo_stack.len();
        if n > 0 { b.redo_stack[n - 1].mutations.len() } else { 0 }
    } else {
        let open = match &b.current_tx {
            Some(tx) => tx.mutations.len(),
            None => 0,
        };
        if open > 0 {
            open
        } else {
            let n = b.undo_stack.len();
            if n > 0 { b.undo_stack[n - 1].mutations.len() } else { 0 }
        }
    }
}

/// `doc` can take `k` more announced edits.
fn announce_fits(doc: &Document, k: usize) -> (r: bool)
    ensures
        r == can_announce(*doc, k as nat),
{
    match &doc.uri {
        Some(_) => (k as i128) <= (i32::MAX as i128) - (doc.version as i128),
        None => true,
    }
}

impl App {
    /// Whether `action` can be carried out now (`action_ok`, the workspace
    /// being consistent).
    pub fn check_action(&self, action: Action) -> (ok: bool)
        requires
            self.wf(),
        ensures
            ok == action_ok(*self, action),
    {
        match action {
            Action::FocusUp => self.check_areas() && self.check_focus_move(0, -1),
            Action::FocusDown => self.check_areas() && self.check_focus_move(0, 1),
            Action::FocusLeft => self.check_areas() && self.check_focus_move(-1, 0),
            Action::FocusRight => self.check_areas() && self.check_focus_move(1, 0),
            Action::SplitVertical | Action::SplitHorizontal => self.next_window_id < usize::MAX,
            Action::NextSearchResult => self.check_text_fits(),
            Action::Undo => self.check_steppable(false),
            Action::Redo => self.check_steppable(true),
            Action::Copy => self.check_editable(0),
            Action::Cut | Action::Paste | Action::Backspace | Action::Indent | Action::Delete => self.check_editable(1),
            Action::Confirm => self.check_editable(1) && self.check_text_fits(),
            _ => true,
        }
    }

    /// Whether the active document can take `k` more announced versions and
    /// its selection anchor lies inside its text (`editable`).
    pub fn check_editable(&self, k: usize) -> (ok: bool)
        requires
            self.wf(),
        ensures
            ok == editable(*self, k as nat),
    {
        match self.active_doc_index() {
            Some(i) => {
                let doc = &self.documents[i].1;
                let len = crate::text::rope_len_chars(&doc.buffer.text);
                let anchor_in = match doc.buffer.selection_anchor {
                    Some(a) => a <= len,
                    None => true,
                };
                anchor_in && announce_fits(doc, k)
            },
            None => true,
        }
    }

    /// Whether the group that undo (or redo) would step over can be
    /// announced (`history_steppable`).
    pub fn check_steppable(&self, redo: bool) -> (ok: bool)
        requires
            self.wf(),
        ensures
            ok == history_steppable(*self, redo),
    {
        match self.active_doc_index() {
            Some(i) => {
                let doc = &self.documents[i].1;
                announce_fits(doc, group_len(&doc.buffer, redo))
            },
            None => true,
        }
    }

    /// Whether the active text is short enough for the index arithmetic of
    /// jumping to a search result and of accepting a completion (`text_fits`).
    pub fn check_text_fits(&self) -> (ok: bool)
        requires
            self.wf(),
        ensures
            ok == text_fits(*self),
    {
        match self.active_doc_index() {
            Some(i) => {
                let doc = &self.documents[i].1;
                let len = crate::text::rope_len_chars(&doc.buffer.text);
                let q = match &self.last_search_query {
                    Some(s) => crate::strs::str_to_chars(s.as_str()).len(),
                    None => 0,
                };
                len <= usize::MAX / 4 && q <= usize::MAX - len
            },
            None => true,
        }
    }

    /// Whether the active document can take an edit, an undo and a redo, and
    /// has room for the index arithmetic of the handlers.
    pub fn check_doc(&self) -> (ok: bool)
        requires
            self.wf(),
        ensures
            ok == doc_ok(*self),
    {
        match self.active_doc_index() {
            Some(i) => {
                let doc = &self.documents[i].1;
                let len = crate::text::rope_len_chars(&doc.buffer.text);
                let anchor_in = match doc.buffer.selection_anchor {
                    Some(a) => a <= len,
                    None => true,
                };
                let q = match &self.last_search_query {
                    Some(s) => crate::strs::str_to_chars(s.as_str()).len(),
                    None => 0,
                };
                anchor_in && announce_fits(doc, 1) && announce_fits(doc, group_len(&doc.buffer, false))
                    && announce_fits(doc, group_len(&doc.buffer, true)) && len <= usize::MAX / 4 && q <= usize::MAX - len
            },
            None => true,
        }
    }

    /// Whether a key press can be handled now (`key_ok`).
    pub fn check_key(&self, combo: crate::app::KeyCombo) -> (ok: bool)
        requires
            self.wf(),
        ensures
            ok == key_ok(*self, combo),
    {
        match crate::app::lookup_binding(&self.keybindings, combo) {
            Some(action) => self.check_action(action),
            None => self.check_doc() && self.next_buffer_id < usize::MAX && self.next_window_id < usize::MAX,
        }
    }

    /// Whether a mouse event at row `y` can be handled now (`mouse_ok`).
    pub fn check_mouse(&self, y: u16) -> (ok: bool)
        requires
            self.wf(),
        ensures
            ok == mouse_ok(*self, y),
    {
        if !self.check_areas() || !self.check_doc() {
            return false;
        }
        if self.explorer.state.offset() > usize::MAX - (y as usize) {
            return false;
        }
        let mut k: usize = 0;
        while k < self.window_areas.len()
            invariant
                k <= self.window_areas@.len(),
                forall|j: int| 0 <= j < k ==> (#[trigger] self.window_areas@[j]).1.y < u16::MAX,
            decreases self.window_areas.len() - k,
        {
            if self.window_areas[k].1.y == u16::MAX {
                return false;
            }
            k = k + 1;
        }
        true
    }

    /// Whether every drawn area belongs to a window (`areas_ok`).
    pub fn check_areas(&self) -> (ok: bool)
        ensures
            ok == self.areas_ok(),
    {
        let mut k: usize = 0;
        while k < self.window_areas.len()
            invariant
                k <= self.window_areas@.len(),
                forall|j: int| 0 <= j < k ==> self.win_ids().contains((#[trigger] self.window_areas@[j]).0),
            decreases self.window_areas.len() - k,
        {
            let id = self.window_areas[k].0;
            match crate::app::find_window(&self.windows, id) {
                Some(w) => {
                    proof {
                        assert(self.win_ids()[w as int] == id);
                    }
                },
                None => {
                    proof {
                        if self.win_ids().contains(id) {
                            let q = choose|q: int| 0 <= q < self.win_ids().len() && self.win_ids()[q] == id;
                            crate::app::lemma_first_where_found(self.windows@, crate::app::win_has(id), q);
                        }
                    }
                    return false;
                },
            }
            k = k + 1;
        }
        true
    }

    /// A key press outside the prompt (see `presses`).
    pub fn handle_normal_key(&mut self, combo: crate::app::KeyCombo, view_height: usize) -> (e: Effects)
        requires
            key_ok(*old(self), combo),
        ensures
            presses(*old(self), *final(self), combo, view_height, e),
            final(self).wf(),
    {
        match crate::app::lookup_binding(&self.keybindings, combo) {
            Some(action) => self.execute_action(action, view_height),
            None => match combo.code {
                crate::app::Key::Char(c) => if (combo.modifiers / 2) % 4 == 0 {
                    self.handle_char(c)
                } else {
                    Effects::none()
                },
                _ => Effects::none(),
            },
        }
    }
}

} // verus!

