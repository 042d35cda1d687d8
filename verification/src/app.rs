//! The workspace: open documents, the windows that show them and their split
//! layout, focus, prompts, key bindings, and how each user action changes
//! them.  What an action needs from the outside world (the file system, the
//! clipboard, the language server) it hands back as a value for the caller
//! to carry out.
use vstd::prelude::*;
use crate::editor::EditorBuffer;
use crate::layout::{SplitNode, Direction, Rect, leaves, replaced, removed, leaves_of, lemma_removed_contains, law_replace_leaf_splices};
use crate::explorer::{FileExplorer, ListSelection, WorkspaceTextMatch};
use crate::git::GitContext;
use crate::strs::{trim_str, trimmed, str_to_chars, chars_to_string};
use crate::paths::{same_path, paths_equal};

verus! {

/// A pane that shows one document.
#[derive(Clone, Copy, Debug, PartialEq, Eq, Structural)]
pub struct Window {
    pub id: usize,
    pub buffer_id: usize,
}

/// Where keystrokes go: the file tree, or one window.
#[derive(Clone, Copy, Debug, PartialEq, Eq, Structural)]
pub enum Focus {
    Tree,
    Window(usize),
}

/// The welcome screen, or the workspace with its windows.
#[derive(Clone, Copy, Debug, PartialEq, Eq, Structural)]
pub enum AppState {
    Intro,
    Workspace,
}

/// What a key binding does; the flag of a movement says whether it extends
/// the selection.
#[derive(Clone, Copy, Debug, PartialEq, Eq, Structural)]
pub enum Action {
    ToggleHelp,
    ToggleTree,
    FocusUp,
    FocusDown,
    FocusLeft,
    FocusRight,
    SplitVertical,
    SplitHorizontal,
    CloseWindow,
    NextSearchResult,
    Copy,
    Cut,
    Paste,
    Undo,
    Redo,
    Quit,
    Save,
    ScrollViewportUp(bool),
    ScrollViewportDown(bool),
    ScrollUp1(bool),
    ScrollDown1(bool),
    SearchText,
    SearchFile,
    Cancel,
    Confirm,
    Backspace,
    Indent,
    Delete,
    MoveStartOfLine(bool),
    MoveEndOfLine(bool),
    PageUp(bool),
    PageDown(bool),
    MoveUp(bool),
    MoveDown(bool),
    MoveLeft(bool),
    MoveRight(bool),
}

/// A key of the keyboard, as far as bindings tell keys apart.
#[derive(Clone, Copy, Debug, PartialEq, Eq, Structural)]
pub enum Key {
    Char(char),
    F(u8),
    Esc,
    Enter,
    Backspace,
    Tab,
    Delete,
    Home,
    End,
    PageUp,
    PageDown,
    Up,
    Down,
    Left,
    Right,
    Other,
}

/// Modifier bits of a key press.
pub const NO_MODIFIERS: u8 = 0;
pub const SHIFT: u8 = 1;
pub const CONTROL: u8 = 2;
pub const ALT: u8 = 4;

/// A key with the exact set of modifiers held.
#[derive(Clone, Copy, Debug, PartialEq, Eq, Structural)]
pub struct KeyCombo {
    pub code: Key,
    pub modifiers: u8,
}

/// What a prompt asks for; the paths are those the answer applies to.
#[derive(Clone, Debug)]
pub enum PromptIntent {
    SaveAs(String),
    Rename(String),
    Delete(String),
    SearchText,
    SearchFile,
    ConfirmQuit,
}

/// An open prompt: what it asks, the answer typed so far, and for the
/// searches the results and the selected one.
pub struct PromptState {
    pub intent: PromptIntent,
    pub input: String,
    pub selection_state: ListSelection,
    pub file_results: Vec<String>,
    pub text_results: Vec<WorkspaceTextMatch>,
}

impl PromptState {
    pub fn new(intent: PromptIntent) -> (p: Self)
        ensures
            p.intent == intent,
            p.input@.len() == 0,
            p.selection_state == ListSelection::new_spec(),
            p.file_results@.len() == 0,
            p.text_results@.len() == 0,
    {
        let mut selection_state = ListSelection::new();
        selection_state.select(None);
        PromptState { intent, input: String::new(), selection_state, file_results: Vec::new(), text_results: Vec::new() }
    }
}

/// A document open in the editor.
pub struct Document {
    pub buffer: EditorBuffer,
    pub filepath: Option<String>,
    pub uri: Option<String>,
    pub version: i32,
    pub is_dirty: bool,
}

/// An entry of the completion menu.
#[derive(Clone, Debug)]
pub struct CompletionOption {
    pub label: String,
    pub kind: Option<i32>,
    pub detail: Option<String>,
    pub insert_text: String,
}

/// `i` is the first index of `s` whose item has `p`.
pub open spec fn is_first<T>(s: Seq<T>, p: spec_fn(T) -> bool, i: int) -> bool {
    &&& 0 <= i < s.len()
    &&& p(s[i])
    &&& forall|j: int| 0 <= j < i ==> !p(#[trigger] s[j])
}

/// The first index of `s` whose item has `p`, if any.
pub open spec fn first_where<T>(s: Seq<T>, p: spec_fn(T) -> bool) -> Option<int> {
    if exists|i: int| is_first(s, p, i) {
        Some(choose|i: int| is_first(s, p, i))
    } else {
        None
    }
}

pub proof fn lemma_first_where_some<T>(s: Seq<T>, p: spec_fn(T) -> bool, i: int)
    requires
        is_first(s, p, i),
    ensures
        first_where(s, p) == Some(i),
{
    let k = choose|k: int| is_first(s, p, k);
    if k < i {
        assert(!p(s[k]));
    } else if i < k {
        assert(!p(s[i]));
    }
}

pub proof fn lemma_first_where_found<T>(s: Seq<T>, p: spec_fn(T) -> bool, k: int)
    requires
        0 <= k < s.len(),
        p(s[k]),
    ensures
        first_where(s, p) matches Some(i) && i <= k && is_first(s, p, i),
    decreases k,
{
    if exists|j: int| 0 <= j < k && p(#[trigger] s[j]) {
        let j = choose|j: int| 0 <= j < k && p(#[trigger] s[j]);
        lemma_first_where_found(s, p, j);
    } else {
        assert(is_first(s, p, k));
        lemma_first_where_some(s, p, k);
    }
}

/// Sequences whose items agree on `p` have the same first index with `p`.
pub proof fn lemma_first_where_same<T, U>(s: Seq<T>, p: spec_fn(T) -> bool, r: Seq<U>, q: spec_fn(U) -> bool)
    requires
        s.len() == r.len(),
        forall|j: int| 0 <= j < s.len() ==> p(s[j]) == q(r[j]),
    ensures
        first_where(s, p) == first_where(r, q),
{
    if first_where(s, p) is Some {
        let i = first_where(s, p)->0;
        assert(is_first(s, p, i));
        assert(is_first(r, q, i));
        lemma_first_where_some(r, q, i);
    } else if first_where(r, q) is Some {
        let i = first_where(r, q)->0;
        assert(is_first(r, q, i));
        assert(is_first(s, p, i));
        lemma_first_where_some(s, p, i);
    }
}

pub proof fn lemma_first_where_none<T>(s: Seq<T>, p: spec_fn(T) -> bool)
    requires
        forall|j: int| 0 <= j < s.len() ==> !p(#[trigger] s[j]),
    ensures
        first_where(s, p) is None,
{
}

/// The window with id `id`.
pub open spec fn win_has(id: usize) -> spec_fn(Window) -> bool {
    |w: Window| w.id == id
}

/// The document with id `id`.
pub open spec fn doc_has(id: usize) -> spec_fn((usize, Document)) -> bool {
    |d: (usize, Document)| d.0 == id
}

/// Position of the window `id` in `ws`.
pub fn find_window(ws: &Vec<Window>, id: usize) -> (r: Option<usize>)
    ensures
        match r {
            Some(i) => first_where(ws@, win_has(id)) == Some(i as int),
            None => first_where(ws@, win_has(id)) is None,
        },
{
    let mut i: usize = 0;
    while i < ws.len()
        invariant
            i <= ws@.len(),
            forall|j: int| 0 <= j < i ==> !win_has(id)(#[trigger] ws@[j]),
        decreases ws.len() - i,
    {
        if ws[i].id == id {
            proof { lemma_first_where_some(ws@, win_has(id), i as int); }
            return Some(i);
        }
        i = i + 1;
    }
    proof { lemma_first_where_none(ws@, win_has(id)); }
    None
}

/// Position of the document `id` in `ds`.
pub fn find_document(ds: &Vec<(usize, Document)>, id: usize) -> (r: Option<usize>)
    ensures
        match r {
            Some(i) => first_where(ds@, doc_has(id)) == Some(i as int),
            None => first_where(ds@, doc_has(id)) is None,
        },
{
    let mut i: usize = 0;
    while i < ds.len()
        invariant
            i <= ds@.len(),
            forall|j: int| 0 <= j < i ==> !doc_has(id)(#[trigger] ds@[j]),
        decreases ds.len() - i,
    {
        if ds[i].0 == id {
            proof { lemma_first_where_some(ds@, doc_has(id), i as int); }
            return Some(i);
        }
        i = i + 1;
    }
    proof { lemma_first_where_none(ds@, doc_has(id)); }
    None
}

/// A binding of `c`.
pub open spec fn binds(c: KeyCombo) -> spec_fn((KeyCombo, Action)) -> bool {
    |e: (KeyCombo, Action)| e.0 == c
}

/// The binding of `c` in `table`: the first entry for it.
pub open spec fn binding_of(table: Seq<(KeyCombo, Action)>, c: KeyCombo) -> Option<Action> {
    match first_where(table, binds(c)) {
        Some(i) => Some(table[i].1),
        None => None,
    }
}

/// The action bound to `combo`, if any.
pub fn lookup_binding(table: &Vec<(KeyCombo, Action)>, combo: KeyCombo) -> (r: Option<Action>)
    ensures
        r == binding_of(table@, combo),
{
    let ghost p = binds(combo);
    let mut i: usize = 0;
    while i < table.len()
        invariant
            i <= table@.len(),
            p == binds(combo),
            forall|j: int| 0 <= j < i ==> !p(#[trigger] table@[j]),
        decreases table.len() - i,
    {
        if table[i].0 == combo {
            proof { lemma_first_where_some(table@, p, i as int); }
            return Some(table[i].1);
        }
        i = i + 1;
    }
    proof { lemma_first_where_none(table@, p); }
    None
}

pub open spec fn combo(code: Key, modifiers: u8) -> KeyCombo {
    KeyCombo { code, modifiers }
}

/// The bindings the editor starts with.
pub open spec fn default_binding_table() -> Seq<(KeyCombo, Action)> {
    seq![
        (combo(Key::F(1), NO_MODIFIERS), Action::ToggleHelp),
        (combo(Key::F(2), NO_MODIFIERS), Action::ToggleTree),
        (combo(Key::F(3), NO_MODIFIERS), Action::NextSearchResult),
        (combo(Key::Char('c'), CONTROL), Action::Copy),
        (combo(Key::Char('x'), CONTROL), Action::Cut),
        (combo(Key::Char('v'), CONTROL), Action::Paste),
        (combo(Key::Char('z'), CONTROL), Action::Undo),
        (combo(Key::Char('y'), CONTROL), Action::Redo),
        (combo(Key::Char('q'), CONTROL), Action::Quit),
        (combo(Key::Char('s'), CONTROL), Action::Save),
        (combo(Key::Char('t'), CONTROL), Action::SearchText),
        (combo(Key::Char('f'), CONTROL), Action::SearchFile),
        (combo(Key::Char('u'), CONTROL), Action::ScrollViewportUp(false)),
        (combo(Key::Char('d'), CONTROL), Action::ScrollViewportDown(false)),
        (combo(Key::Esc, NO_MODIFIERS), Action::Cancel),
        (combo(Key::Enter, NO_MODIFIERS), Action::Confirm),
        (combo(Key::Backspace, NO_MODIFIERS), Action::Backspace),
        (combo(Key::Tab, NO_MODIFIERS), Action::Indent),
        (combo(Key::Delete, NO_MODIFIERS), Action::Delete),
        (combo(Key::Char('i'), ALT), Action::FocusUp),
        (combo(Key::Char('k'), ALT), Action::FocusDown),
        (combo(Key::Char('j'), ALT), Action::FocusLeft),
        (combo(Key::Char('l'), ALT), Action::FocusRight),
        (combo(Key::Char('v'), ALT), Action::SplitVertical),
        (combo(Key::Char('h'), ALT), Action::SplitHorizontal),
        (combo(Key::Char('w'), ALT), Action::CloseWindow),
        (combo(Key::Home, NO_MODIFIERS), Action::MoveStartOfLine(false)),
        (combo(Key::Home, SHIFT), Action::MoveStartOfLine(true)),
        (combo(Key::End, NO_MODIFIERS), Action::MoveEndOfLine(false)),
        (combo(Key::End, SHIFT), Action::MoveEndOfLine(true)),
        (combo(Key::PageUp, NO_MODIFIERS), Action::PageUp(false)),
        (combo(Key::PageUp, SHIFT), Action::PageUp(true)),
        (combo(Key::PageDown, NO_MODIFIERS), Action::PageDown(false)),
        (combo(Key::PageDown, SHIFT), Action::PageDown(true)),
        (combo(Key::Up, NO_MODIFIERS), Action::MoveUp(false)),
        (combo(Key::Up, SHIFT), Action::MoveUp(true)),
        (combo(Key::Down, NO_MODIFIERS), Action::MoveDown(false)),
        (combo(Key::Down, SHIFT), Action::MoveDown(true)),
        (combo(Key::Left, NO_MODIFIERS), Action::MoveLeft(false)),
        (combo(Key::Left, SHIFT), Action::MoveLeft(true)),
        (combo(Key::Right, NO_MODIFIERS), Action::MoveRight(false)),
        (combo(Key::Right, SHIFT), Action::MoveRight(true)),
    ]
}

/// The ids of the windows, in order.
pub open spec fn ids_of(ws: Seq<Window>) -> Seq<usize> {
    ws.map_values(|w: Window| w.id)
}

/// The ids of the documents, in order.
pub open spec fn doc_ids_of(ds: Seq<(usize, Document)>) -> Seq<usize> {
    ds.map_values(|d: (usize, Document)| d.0)
}

/// The document open on file `path` (its path the same as `path`,
/// component by component).
pub open spec fn doc_on(path: Seq<char>) -> spec_fn((usize, Document)) -> bool {
    |d: (usize, Document)| d.1.filepath matches Some(p) && same_path(p@, path)
}

/// The editor: its documents, windows and layout, and what the interface shows.
pub struct App {
    pub state: AppState,
    pub focus: Focus,
    pub show_tree: bool,
    pub explorer: FileExplorer,
    /// The open documents, by id (each id once).  A list rather than a
    /// hash map: a search over the documents, or over the windows and
    /// their areas below, goes in a fixed order, and the window that takes
    /// the focus when one closes is the first one left.
    pub documents: Vec<(usize, Document)>,
    /// The open windows (each id once).
    pub windows: Vec<Window>,
    pub layout: SplitNode,
    pub active_window: usize,
    pub next_buffer_id: usize,
    pub next_window_id: usize,
    /// The screen area of each window, as last drawn.
    pub window_areas: Vec<(usize, Rect)>,
    pub quit: bool,
    pub status_msg: Option<String>,
    pub needs_redraw: bool,
    pub show_help: bool,
    pub clipboard: Option<String>,
    pub completions: Vec<CompletionOption>,
    pub completion_state: ListSelection,
    pub pending_completion_id: Option<u64>,
    pub pending_inlay_hints_id: Option<u64>,
    pub working_dir: String,
    pub prompt: Option<PromptState>,
    pub git_ctx: GitContext,
    /// The action bound to each key combination (its first entry).  A
    /// list of pairs: a `HashMap` keyed by a struct rests on a derived
    /// `Hash` and `Eq` that Verus does not read.
    pub keybindings: Vec<(KeyCombo, Action)>,
    pub last_search_query: Option<String>,
    pub text_search_results: Vec<usize>,
    pub current_search_idx: usize,
}

impl App {
    pub open spec fn win_ids(&self) -> Seq<usize> {
        ids_of(self.windows@)
    }

    pub open spec fn doc_ids(&self) -> Seq<usize> {
        doc_ids_of(self.documents@)
    }

    /// Position of the window with id `id`.
    pub open spec fn win_pos(&self, id: usize) -> Option<int> {
        first_where(self.windows@, win_has(id))
    }

    /// Position of the document with id `id`.
    pub open spec fn doc_pos(&self, id: usize) -> Option<int> {
        first_where(self.documents@, doc_has(id))
    }

    /// Position of the document shown in the focused window.
    pub open spec fn active_pos(&self) -> Option<int> {
        match self.focus {
            Focus::Window(idx) => match self.win_pos(idx) {
                Some(w) => self.doc_pos(self.windows@[w].buffer_id),
                None => None,
            },
            Focus::Tree => None,
        }
    }

    /// The window tree shows exactly the windows: while there are windows,
    /// a window id is a leaf of the layout if and only if it is a window.
    pub open spec fn layout_ok(&self) -> bool {
        self.windows@.len() > 0 ==> forall|x: usize| #[trigger] leaves(self.layout).contains(x) <==> self.win_ids().contains(x)
    }

    /// The invariant of the workspace: ids are unique and below the next id
    /// to hand out, each window shows an open document, the layout shows
    /// the windows, the active and the focused window exist, every buffer
    /// is consistent, and the current search result is one of the results.
    pub open spec fn wf(&self) -> bool {
        &&& self.win_ids().no_duplicates()
        &&& self.doc_ids().no_duplicates()
        &&& forall|i: int| 0 <= i < self.windows@.len() ==> (#[trigger] self.windows@[i]).id < self.next_window_id
        &&& forall|i: int| 0 <= i < self.documents@.len() ==> (#[trigger] self.documents@[i]).0 < self.next_buffer_id
        &&& forall|i: int| 0 <= i < self.windows@.len() ==> self.doc_ids().contains((#[trigger] self.windows@[i]).buffer_id)
        &&& forall|i: int| 0 <= i < self.documents@.len() ==> (#[trigger] self.documents@[i]).1.buffer.wf()
        &&& self.layout_ok()
        &&& self.windows@.len() > 0 ==> self.win_ids().contains(self.active_window)
        &&& self.focus matches Focus::Window(id) ==> self.win_ids().contains(id)
        &&& self.text_search_results@.len() > 0 ==> self.current_search_idx < self.text_search_results@.len()
    }

    /// Every drawn area belongs to a window.
    pub open spec fn areas_ok(&self) -> bool {
        forall|i: int| 0 <= i < self.window_areas@.len() ==> self.win_ids().contains((#[trigger] self.window_areas@[i]).0)
    }

    /// The editor at start: the welcome screen, the tree focused, nothing open.
    pub fn new(working_dir: String, explorer: FileExplorer, git_ctx: GitContext) -> (a: Self)
        ensures
            a.wf(),
            a.state == AppState::Intro,
            a.focus == Focus::Tree,
            !a.show_tree,
            a.explorer == explorer,
            a.documents@.len() == 0,
            a.windows@.len() == 0,
            a.layout == SplitNode::Leaf(0),
            a.active_window == 0,
            a.next_buffer_id == 1,
            a.next_window_id == 1,
            a.window_areas@.len() == 0,
            !a.quit,
            a.status_msg is None,
            a.needs_redraw,
            !a.show_help,
            a.clipboard is None,
            a.completions@.len() == 0,
            a.completion_state == ListSelection::new_spec(),
            a.pending_completion_id is None,
            a.pending_inlay_hints_id is None,
            a.working_dir == working_dir,
            a.prompt is None,
            a.git_ctx == git_ctx,
            a.keybindings@ == default_binding_table(),
            a.last_search_query is None,
            a.text_search_results@.len() == 0,
            a.current_search_idx == 0,
    {
        let a = App {
            state: AppState::Intro,
            focus: Focus::Tree,
            show_tree: false,
            explorer,
            documents: Vec::new(),
            windows: Vec::new(),
            layout: SplitNode::Leaf(0),
            active_window: 0,
            next_buffer_id: 1,
            next_window_id: 1,
            window_areas: Vec::new(),
            quit: false,
            status_msg: None,
            needs_redraw: true,
            show_help: false,
            clipboard: None,
            completions: Vec::new(),
            completion_state: ListSelection::new(),
            pending_completion_id: None,
            pending_inlay_hints_id: None,
            working_dir,
            prompt: None,
            git_ctx,
            keybindings: Self::default_keybindings(),
            last_search_query: None,
            text_search_results: Vec::new(),
            current_search_idx: 0,
        };
        assert(a.win_ids() =~= Seq::<usize>::empty());
        assert(a.doc_ids() =~= Seq::<usize>::empty());
        a
    }

    /// The key bindings the editor starts with.
    pub fn default_keybindings() -> (kb: Vec<(KeyCombo, Action)>)
        ensures
            kb@ == default_binding_table(),
    {
        let mut kb: Vec<(KeyCombo, Action)> = Vec::new();
        kb.push((KeyCombo { code: Key::F(1), modifiers: NO_MODIFIERS }, Action::ToggleHelp));
        kb.push((KeyCombo { code: Key::F(2), modifiers: NO_MODIFIERS }, Action::ToggleTree));
        kb.push((KeyCombo { code: Key::F(3), modifiers: NO_MODIFIERS }, Action::NextSearchResult));
        kb.push((KeyCombo { code: Key::Char('c'), modifiers: CONTROL }, Action::Copy));
        kb.push((KeyCombo { code: Key::Char('x'), modifiers: CONTROL }, Action::Cut));
        kb.push((KeyCombo { code: Key::Char('v'), modifiers: CONTROL }, Action::Paste));
        kb.push((KeyCombo { code: Key::Char('z'), modifiers: CONTROL }, Action::Undo));
        kb.push((KeyCombo { code: Key::Char('y'), modifiers: CONTROL }, Action::Redo));
        kb.push((KeyCombo { code: Key::Char('q'), modifiers: CONTROL }, Action::Quit));
        kb.push((KeyCombo { code: Key::Char('s'), modifiers: CONTROL }, Action::Save));
        kb.push((KeyCombo { code: Key::Char('t'), modifiers: CONTROL }, Action::SearchText));
        kb.push((KeyCombo { code: Key::Char('f'), modifiers: CONTROL }, Action::SearchFile));
        kb.push((KeyCombo { code: Key::Char('u'), modifiers: CONTROL }, Action::ScrollViewportUp(false)));
        kb.push((KeyCombo { code: Key::Char('d'), modifiers: CONTROL }, Action::ScrollViewportDown(false)));
        kb.push((KeyCombo { code: Key::Esc, modifiers: NO_MODIFIERS }, Action::Cancel));
        kb.push((KeyCombo { code: Key::Enter, modifiers: NO_MODIFIERS }, Action::Confirm));
        kb.push((KeyCombo { code: Key::Backspace, modifiers: NO_MODIFIERS }, Action::Backspace));
        kb.push((KeyCombo { code: Key::Tab, modifiers: NO_MODIFIERS }, Action::Indent));
        kb.push((KeyCombo { code: Key::Delete, modifiers: NO_MODIFIERS }, Action::Delete));
        kb.push((KeyCombo { code: Key::Char('i'), modifiers: ALT }, Action::FocusUp));
        kb.push((KeyCombo { code: Key::Char('k'), modifiers: ALT }, Action::FocusDown));
        kb.push((KeyCombo { code: Key::Char('j'), modifiers: ALT }, Action::FocusLeft));
        kb.push((KeyCombo { code: Key::Char('l'), modifiers: ALT }, Action::FocusRight));
        kb.push((KeyCombo { code: Key::Char('v'), modifiers: ALT }, Action::SplitVertical));
        kb.push((KeyCombo { code: Key::Char('h'), modifiers: ALT }, Action::SplitHorizontal));
        kb.push((KeyCombo { code: Key::Char('w'), modifiers: ALT }, Action::CloseWindow));
        // Each movement key moves, and with Shift extends the selection.
        kb.push((KeyCombo { code: Key::Home, modifiers: NO_MODIFIERS }, Action::MoveStartOfLine(false)));
        kb.push((KeyCombo { code: Key::Home, modifiers: SHIFT }, Action::MoveStartOfLine(true)));
        kb.push((KeyCombo { code: Key::End, modifiers: NO_MODIFIERS }, Action::MoveEndOfLine(false)));
        kb.push((KeyCombo { code: Key::End, modifiers: SHIFT }, Action::MoveEndOfLine(true)));
        kb.push((KeyCombo { code: Key::PageUp, modifiers: NO_MODIFIERS }, Action::PageUp(false)));
        kb.push((KeyCombo { code: Key::PageUp, modifiers: SHIFT }, Action::PageUp(true)));
        kb.push((KeyCombo { code: Key::PageDown, modifiers: NO_MODIFIERS }, Action::PageDown(false)));
        kb.push((KeyCombo { code: Key::PageDown, modifiers: SHIFT }, Action::PageDown(true)));
        kb.push((KeyCombo { code: Key::Up, modifiers: NO_MODIFIERS }, Action::MoveUp(false)));
        kb.push((KeyCombo { code: Key::Up, modifiers: SHIFT }, Action::MoveUp(true)));
        kb.push((KeyCombo { code: Key::Down, modifiers: NO_MODIFIERS }, Action::MoveDown(false)));
        kb.push((KeyCombo { code: Key::Down, modifiers: SHIFT }, Action::MoveDown(true)));
        kb.push((KeyCombo { code: Key::Left, modifiers: NO_MODIFIERS }, Action::MoveLeft(false)));
        kb.push((KeyCombo { code: Key::Left, modifiers: SHIFT }, Action::MoveLeft(true)));
        kb.push((KeyCombo { code: Key::Right, modifiers: NO_MODIFIERS }, Action::MoveRight(false)));
        kb.push((KeyCombo { code: Key::Right, modifiers: SHIFT }, Action::MoveRight(true)));
        assert(kb@ =~= default_binding_table());
        kb
    }
}

pub proof fn lemma_leaves_nonempty(n: SplitNode)
    ensures
        leaves(n).len() > 0,
    decreases n,
{
    match n {
        SplitNode::Leaf(_) => {},
        SplitNode::Split(_, a, b) => {
            lemma_leaves_nonempty(*a);
        },
    }
}

proof fn lemma_ids_push(ws: Seq<Window>, w: Window)
    ensures
        ids_of(ws.push(w)) == ids_of(ws).push(w.id),
{
    assert(ids_of(ws.push(w)) =~= ids_of(ws).push(w.id));
}

proof fn lemma_ids_remove(ws: Seq<Window>, i: int)
    requires
        0 <= i < ws.len(),
    ensures
        ids_of(ws.remove(i)) == ids_of(ws).remove(i),
{
    assert(ids_of(ws.remove(i)) =~= ids_of(ws).remove(i));
}

proof fn lemma_ids_keep(ws: Seq<Window>, i: int, w: Window)
    requires
        0 <= i < ws.len(),
        w.id == ws[i].id,
    ensures
        ids_of(ws.update(i, w)) == ids_of(ws),
{
    assert(ids_of(ws.update(i, w)) =~= ids_of(ws));
}

proof fn lemma_doc_ids_push(ds: Seq<(usize, Document)>, d: (usize, Document))
    ensures
        doc_ids_of(ds.push(d)) == doc_ids_of(ds).push(d.0),
{
    assert(doc_ids_of(ds.push(d)) =~= doc_ids_of(ds).push(d.0));
}

/// Removing the only occurrence of `s[i]` keeps exactly the other items.
proof fn lemma_remove_unique<T>(s: Seq<T>, i: int, x: T)
    requires
        0 <= i < s.len(),
        s.no_duplicates(),
    ensures
        s.remove(i).contains(x) <==> (s.contains(x) && x != s[i]),
        s.remove(i).no_duplicates(),
{
    let r = s.remove(i);
    if r.contains(x) {
        let k = choose|k: int| 0 <= k < r.len() && r[k] == x;
        if k < i {
            assert(s[k] == x);
        } else {
            assert(s[k + 1] == x);
        }
    }
    if s.contains(x) && x != s[i] {
        let k = choose|k: int| 0 <= k < s.len() && s[k] == x;
        if k < i {
            assert(r[k] == x);
        } else {
            assert(k != i);
            assert(r[k - 1] == x);
        }
    }
    assert forall|a: int, b: int| 0 <= a < r.len() && 0 <= b < r.len() && a != b implies r[a] != r[b] by {
        let sa = if a < i { a } else { a + 1 };
        let sb = if b < i { b } else { b + 1 };
        assert(r[a] == s[sa]);
        assert(r[b] == s[sb]);
    }
}

/// Splicing `t` in place of `s[i]`, where `t` holds `s[i]`, keeps every item
/// of `s` and adds those of `t`.
proof fn lemma_splice_contains<T>(s: Seq<T>, i: int, t: Seq<T>, x: T)
    requires
        0 <= i < s.len(),
        t.contains(s[i]),
    ensures
        (s.take(i) + t + s.skip(i + 1)).contains(x) <==> (s.contains(x) || t.contains(x)),
{
    let r = s.take(i) + t + s.skip(i + 1);
    if r.contains(x) {
        let k = choose|k: int| 0 <= k < r.len() && r[k] == x;
        if k < i {
            assert(s[k] == x);
        } else if k < i + t.len() {
            assert(t[k - i] == x);
        } else {
            assert(s[k - t.len() + 1] == x);
        }
    }
    if s.contains(x) {
        let k = choose|k: int| 0 <= k < s.len() && s[k] == x;
        if k < i {
            assert(r[k] == x);
        } else if k == i {
            let m = choose|m: int| 0 <= m < t.len() && t[m] == s[i];
            assert(r[i + m] == x);
        } else {
            assert(r[k + t.len() - 1] == x);
        }
    }
    if t.contains(x) {
        let m = choose|m: int| 0 <= m < t.len() && t[m] == x;
        assert(r[i + m] == x);
    }
}

/// The window layout after `old` opened document `id`: in a new window that
/// fills the screen when there was none, else in the active window.
pub open spec fn shows_in_window(o: App, n: App, id: usize) -> bool {
    if o.windows@.len() == 0 {
        let w = o.next_window_id;
        &&& n.windows@ == seq![Window { id: w, buffer_id: id }]
        &&& n.layout == SplitNode::Leaf(w)
        &&& n.focus == Focus::Window(w)
        &&& n.active_window == w
        &&& n.state == AppState::Workspace
        &&& n.next_window_id == w + 1
    } else {
        &&& n.windows@ == match o.win_pos(o.active_window) {
            Some(p) => o.windows@.update(p, Window { id: o.windows@[p].id, buffer_id: id }),
            None => o.windows@,
        }
        &&& n.layout == o.layout
        &&& n.focus == Focus::Window(o.active_window)
        &&& n.active_window == o.active_window
        &&& n.state == o.state
        &&& n.next_window_id == o.next_window_id
    }
}

/// The directory a file opened from `path` makes the working directory.
pub open spec fn dir_of(path: Seq<char>) -> Seq<char> {
    match crate::paths::path_parent(path) {
        Some(p) => p,
        None => seq!['.'],
    }
}

/// `n` is `o` with the file tree shown (and focused) or hidden (see
/// `toggle_tree`).
pub open spec fn tree_toggled(o: App, n: App) -> bool {
    n == if !o.show_tree {
        (App { show_tree: true, focus: Focus::Tree, ..o })
    } else if o.windows@.len() == 0 {
        (App { show_tree: false, state: AppState::Intro, ..o })
    } else {
        (App { show_tree: false, focus: Focus::Window(o.active_window), ..o })
    }
}

/// `n` is `o` with its focused window split along `direction`: a new window
/// on the same document takes the second half of its place, and the focus.
pub open spec fn splits(o: App, n: App, direction: Direction) -> bool {
    match o.focus {
        Focus::Window(active_id) => match o.win_pos(active_id) {
            Some(w) => {
                let new_id = o.next_window_id;
                &&& n.windows@ == o.windows@.push(Window { id: new_id, buffer_id: o.windows@[w].buffer_id })
                &&& n.layout == replaced(
                    o.layout,
                    active_id,
                    SplitNode::Split(direction, Box::new(SplitNode::Leaf(active_id)), Box::new(SplitNode::Leaf(new_id))),
                )
                &&& n == (App {
                    windows: n.windows,
                    layout: n.layout,
                    next_window_id: (new_id + 1) as usize,
                    focus: Focus::Window(new_id),
                    active_window: new_id,
                    needs_redraw: true,
                    ..o
                })
            },
            None => n == o,
        },
        Focus::Tree => n == o,
    }
}

/// `n` is `o` with the focus moved one step `(dx, dy)` (see `move_focus_dir`).
pub open spec fn focus_moved(o: App, n: App, dx: i16, dy: i16) -> bool {
    match o.focus {
        Focus::Window(active_id) => match first_where(o.window_areas@, area_of(active_id)) {
            Some(ai) => {
                let c = center(o.window_areas@[ai].1);
                let best = nearest(o.window_areas@, active_id, dx, dy, c, o.window_areas@.len() as int).0;
                n == if best != active_id {
                    (App { focus: Focus::Window(best), active_window: best, ..o })
                } else if dx == -1 && o.show_tree {
                    (App { focus: Focus::Tree, ..o })
                } else {
                    o
                }
            },
            None => n == o,
        },
        Focus::Tree => n == if dx == 1 && o.windows@.len() > 0 {
            (App { focus: Focus::Window(o.active_window), ..o })
        } else {
            o
        },
    }
}

/// `n` is `o` with a prompt open for `intent`; a rename starts from the
/// current name.
pub open spec fn prompt_opened(o: App, n: App, intent: PromptIntent) -> bool {
    &&& n.prompt matches Some(p) && p.intent == intent && p.selection_state == ListSelection::new_spec()
        && p.file_results@.len() == 0 && p.text_results@.len() == 0
        && p.input@ == match intent {
            PromptIntent::Rename(path) => match crate::paths::path_file_name(path@) {
                Some(nm) => nm,
                None => Seq::empty(),
            },
            _ => Seq::empty(),
        }
    &&& n == (App { prompt: n.prompt, ..o })
}

/// `n` is `o` after Ctrl+S: with `save_now` when the active document has a
/// path, else with a prompt asking for a name.
pub open spec fn save_triggered(o: App, n: App, save_now: bool) -> bool {
    match o.active_pos() {
        Some(i) => if o.documents@[i].1.filepath is Some {
            save_now && n == o
        } else {
            &&& !save_now
            &&& n.prompt matches Some(p) && p.intent matches PromptIntent::SaveAs(d) && d@ == o.working_dir@
                && p.input@.len() == 0
            &&& n == (App { prompt: n.prompt, ..o })
        },
        None => !save_now && n == o,
    }
}

impl App {
    /// Position, among the documents, of the one in the focused window.
    pub fn active_doc_index(&self) -> (r: Option<usize>)
        ensures
            match r {
                Some(i) => self.active_pos() == Some(i as int),
                None => self.active_pos() is None,
            },
    {
        match self.focus {
            Focus::Window(idx) => match find_window(&self.windows, idx) {
                Some(w) => find_document(&self.documents, self.windows[w].buffer_id),
                None => None,
            },
            Focus::Tree => None,
        }
    }

    /// The document in the focused window, to change in place; what is
    /// written through the reference becomes that document.
    pub fn active_document_mut(&mut self) -> (r: Option<&mut Document>)
        ensures
            match old(self).active_pos() {
                Some(i) => r matches Some(d) && *d == old(self).documents@[i].1
                    && final(self).documents@ == old(self).documents@.update(i, (old(self).documents@[i].0, *final(d)))
                    && *final(self) == (App { documents: final(self).documents, ..*old(self) }),
                None => r is None && *final(self) == *old(self),
            },
    {
        match self.active_doc_index() {
            Some(i) => {
                Some(&mut self.documents[i].1)
            },
            None => None,
        }
    }

    /// The document in the focused window.
    pub fn get_active_document(&self) -> (r: Option<&Document>)
        ensures
            match self.active_pos() {
                Some(i) => r == Some(&self.documents@[i].1),
                None => r is None,
            },
    {
        match self.active_doc_index() {
            Some(i) => Some(&self.documents[i].1),
            None => None,
        }
    }

    /// Shows or hides the file tree.  Showing it focuses the tree, which the
    /// caller then reloads (the result is true); hiding it gives focus back
    /// to the active window, or goes back to the welcome screen when no
    /// window is open.
    pub fn toggle_tree(&mut self) -> (reload: bool)
        ensures
            reload == !old(self).show_tree,
            tree_toggled(*old(self), *final(self)),
            old(self).wf() ==> final(self).wf(),
    {
        self.show_tree = !self.show_tree;
        if self.show_tree {
            self.focus = Focus::Tree;
            true
        } else {
            if self.windows.len() == 0 {
                self.state = AppState::Intro;
            } else {
                self.focus = Focus::Window(self.active_window);
            }
            false
        }
    }

    /// Splits the focused window: a new window on the same document takes
    /// the second half of its place in the layout, and the focus.
    pub fn split_window(&mut self, direction: Direction)
        requires
            old(self).next_window_id < usize::MAX,
        ensures
            splits(*old(self), *final(self), direction),
            old(self).wf() ==> final(self).wf(),
    {
        match self.focus {
            Focus::Window(active_id) => match find_window(&self.windows, active_id) {
                Some(w) => {
                    let buf = self.windows[w].buffer_id;
                    let new_id = self.next_window_id;
                    self.next_window_id = self.next_window_id + 1;
                    let ghost ws0 = self.windows@;
                    let ghost l0 = self.layout;
                    self.windows.push(Window { id: new_id, buffer_id: buf });
                    let piece = SplitNode::Split(direction, Box::new(SplitNode::Leaf(active_id)), Box::new(SplitNode::Leaf(new_id)));
                    let ghost pv = piece;
                    let _ = self.layout.replace_leaf(active_id, piece);
                    self.focus = Focus::Window(new_id);
                    self.active_window = new_id;
                    self.needs_redraw = true;
                    proof {
                        if old(self).wf() {
                            lemma_ids_push(ws0, Window { id: new_id, buffer_id: buf });
                            let ids0 = ids_of(ws0);
                            assert(!ids0.contains(new_id)) by {
                                if ids0.contains(new_id) {
                                    let k = choose|k: int| 0 <= k < ids0.len() && ids0[k] == new_id;
                                    assert(ws0[k].id < old(self).next_window_id);
                                }
                            }
                            assert(ids0.contains(active_id));
                            assert(leaves(l0).contains(active_id));
                            law_replace_leaf_splices(l0, active_id, pv);
                            let i = choose|i: int|
                                0 <= i < leaves(l0).len() && leaves(l0)[i] == active_id && (forall|j: int| 0 <= j < i ==> leaves(l0)[j] != active_id)
                                    && leaves(replaced(l0, active_id, pv)) == leaves(l0).take(i) + leaves(pv) + leaves(l0).skip(i + 1);
                            assert(leaves(SplitNode::Leaf(active_id)) == seq![active_id]);
                            assert(leaves(SplitNode::Leaf(new_id)) == seq![new_id]);
                            assert(leaves(pv) =~= seq![active_id, new_id]);
                            assert(leaves(pv)[0] == active_id);
                            assert forall|x: usize| #[trigger] leaves(self.layout).contains(x) <==> self.win_ids().contains(x) by {
                                lemma_splice_contains(leaves(l0), i, leaves(pv), x);
                                assert(leaves(pv).contains(x) <==> (x == active_id || x == new_id));
                                assert(ids0.push(new_id).contains(x) <==> (ids0.contains(x) || x == new_id)) by {
                                    if ids0.push(new_id).contains(x) {
                                        let k = choose|k: int| 0 <= k < ids0.len() + 1 && ids0.push(new_id)[k] == x;
                                        if k < ids0.len() {
                                            assert(ids0[k] == x);
                                        }
                                    }
                                    if ids0.contains(x) {
                                        let k = choose|k: int| 0 <= k < ids0.len() && ids0[k] == x;
                                        assert(ids0.push(new_id)[k] == x);
                                    }
                                    assert(ids0.push(new_id)[ids0.len() as int] == new_id);
                                }
                            }
                            assert(self.win_ids().no_duplicates()) by {
                                assert forall|a: int, b: int| 0 <= a < self.win_ids().len() && 0 <= b < self.win_ids().len() && a != b
                                    implies self.win_ids()[a] != self.win_ids()[b] by {
                                    if a < ids0.len() && b < ids0.len() {
                                        assert(self.win_ids()[a] == ids0[a]);
                                        assert(self.win_ids()[b] == ids0[b]);
                                    } else if a < ids0.len() {
                                        assert(self.win_ids()[a] == ids0[a]);
                                        assert(ids0.contains(ids0[a]));
                                    } else if b < ids0.len() {
                                        assert(self.win_ids()[b] == ids0[b]);
                                        assert(ids0.contains(ids0[b]));
                                    }
                                }
                            }
                            assert(self.win_ids()[ids0.len() as int] == new_id);
                            assert forall|k: int| 0 <= k < self.windows@.len() implies self.doc_ids().contains((#[trigger] self.windows@[k]).buffer_id) by {
                                if k < ws0.len() {
                                    assert(self.windows@[k] == ws0[k]);
                                } else {
                                    assert(self.windows@[k].buffer_id == ws0[w as int].buffer_id);
                                }
                            }
                            assert forall|k: int| 0 <= k < self.windows@.len() implies (#[trigger] self.windows@[k]).id < self.next_window_id by {
                                if k < ws0.len() {
                                    assert(self.windows@[k] == ws0[k]);
                                }
                            }
                        }
                    }
                },
                None => {},
            },
            Focus::Tree => {},
        }
    }
}

/// `n` is `o` after closing its focused window: that window leaves the
/// windows and the layout (a split that loses a side gives its place to the
/// other side) and the first remaining window gets the focus; closing the
/// last window goes back to the welcome screen.  Documents stay open.
pub open spec fn closes_active(o: App, n: App) -> bool {
    match o.focus {
        Focus::Window(idx) => {
            let ws = match o.win_pos(idx) {
                Some(w) => o.windows@.remove(w),
                None => o.windows@,
            };
            &&& n.windows@ == ws
            &&& match removed(o.layout, idx) {
                Some(l) => n == (App {
                    windows: n.windows,
                    layout: l,
                    focus: if ws.len() > 0 { Focus::Window(ws[0].id) } else { o.focus },
                    active_window: if ws.len() > 0 { ws[0].id } else { o.active_window },
                    needs_redraw: true,
                    ..o
                }),
                None => n == (App {
                    windows: n.windows,
                    layout: SplitNode::Leaf(0),
                    focus: Focus::Tree,
                    state: AppState::Intro,
                    needs_redraw: true,
                    ..o
                }),
            }
        },
        Focus::Tree => n == o,
    }
}

impl App {
    /// Closes the focused window (see `closes_active`).
    pub fn close_active_window(&mut self)
        ensures
            closes_active(*old(self), *final(self)),
            old(self).wf() ==> final(self).wf(),
    {
        match self.focus {
            Focus::Window(idx) => {
                let ghost ws0 = self.windows@;
                let ghost l0 = self.layout;
                match find_window(&self.windows, idx) {
                    Some(w) => {
                        let _ = self.windows.remove(w);
                        proof { lemma_ids_remove(ws0, w as int); }
                    },
                    None => {},
                }
                let mut old_layout = SplitNode::Leaf(0);
                std::mem::swap(&mut old_layout, &mut self.layout);
                match old_layout.remove_leaf(idx) {
                    Some(new_layout) => {
                        self.layout = new_layout;
                        if self.windows.len() > 0 {
                            let first = self.windows[0].id;
                            self.focus = Focus::Window(first);
                            self.active_window = first;
                        }
                    },
                    None => {
                        self.layout = SplitNode::Leaf(0);
                        self.focus = Focus::Tree;
                        self.state = AppState::Intro;
                    },
                }
                self.needs_redraw = true;
                proof {
                    if old(self).wf() {
                        let ids0 = ids_of(ws0);
                        assert forall|x: usize| leaves_of(removed(l0, idx)).contains(x) <==> (leaves(l0).contains(x) && x != idx) by {
                            lemma_removed_contains(l0, idx, x);
                        }
                        assert(ids0.contains(idx));
                        let w = first_where(ws0, win_has(idx))->0;
                        assert(old(self).win_pos(idx) is Some) by {
                            let k = choose|k: int| 0 <= k < ids0.len() && ids0[k] == idx;
                            lemma_first_where_found(ws0, win_has(idx), k);
                        }
                        assert(ids0[w] == idx);
                        assert forall|x: usize| self.win_ids().contains(x) <==> (ids0.contains(x) && x != idx) by {
                            lemma_remove_unique(ids0, w, x);
                        }
                        lemma_remove_unique(ids0, w, idx);
                        match removed(l0, idx) {
                            Some(l) => {
                                lemma_leaves_nonempty(l);
                                let x = leaves(l)[0];
                                assert(leaves(l).contains(x));
                                assert(leaves_of(removed(l0, idx)).contains(x));
                                assert(leaves(l0).contains(x));
                                assert(ids0.contains(x));
                                assert(self.win_ids().contains(x));
                                assert forall|y: usize| #[trigger] leaves(self.layout).contains(y) <==> self.win_ids().contains(y) by {
                                    assert(leaves(l0).contains(y) <==> ids0.contains(y));
                                }
                                assert(self.windows@.len() > 0);
                                assert(self.win_ids()[0] == self.windows@[0].id);
                            },
                            None => {
                                assert(self.windows@.len() == 0) by {
                                    if self.windows@.len() > 0 {
                                        let y = self.windows@[0].id;
                                        assert(self.win_ids()[0] == y);
                                        assert(self.win_ids().contains(y));
                                        assert(ids0.len() > 0);
                                        assert(leaves(l0).contains(y));
                                        assert(leaves_of(removed(l0, idx)).contains(y));
                                    }
                                }
                            },
                        }
                        assert forall|k: int| 0 <= k < self.windows@.len() implies self.doc_ids().contains((#[trigger] self.windows@[k]).buffer_id) by {
                            if k < w {
                                assert(self.windows@[k] == ws0[k]);
                            } else {
                                assert(self.windows@[k] == ws0[k + 1]);
                            }
                        }
                        assert forall|k: int| 0 <= k < self.windows@.len() implies (#[trigger] self.windows@[k]).id < self.next_window_id by {
                            if k < w {
                                assert(self.windows@[k] == ws0[k]);
                            } else {
                                assert(self.windows@[k] == ws0[k + 1]);
                            }
                        }
                    }
                }
            },
            Focus::Tree => {},
        }
    }
}

/// A buffer just made from `text`: the cursor at the start, nothing selected
/// or scrolled, no history.
pub open spec fn fresh_buffer(b: EditorBuffer, text: Seq<char>) -> bool {
    &&& b.wf()
    &&& b.text_view() == text
    &&& b.cursor_char_idx == 0
    &&& b.selection_anchor is None
    &&& b.scroll_x == 0
    &&& b.scroll_y == 0
    &&& b.undo_view().len() == 0
    &&& b.redo_view().len() == 0
    &&& b.current_tx is None
}

/// A document just opened on `path` (none for a new file) with `text`.
pub open spec fn fresh_document(d: Document, path: Option<Seq<char>>, text: Seq<char>) -> bool {
    &&& fresh_buffer(d.buffer, text)
    &&& match path {
        Some(p) => d.filepath matches Some(f) && f@ == p,
        None => d.filepath is None,
    }
    &&& d.uri is None
    &&& d.version == 1
    &&& !d.is_dirty
}

proof fn lemma_fresh_id(ids: Seq<usize>, next: usize)
    requires
        forall|k: int| 0 <= k < ids.len() ==> ids[k] < next,
        ids.no_duplicates(),
    ensures
        !ids.contains(next),
        ids.push(next).no_duplicates(),
        forall|x: usize| ids.push(next).contains(x) <==> (ids.contains(x) || x == next),
{
    assert forall|x: usize| ids.push(next).contains(x) <==> (ids.contains(x) || x == next) by {
        if ids.push(next).contains(x) {
            let k = choose|k: int| 0 <= k < ids.len() + 1 && ids.push(next)[k] == x;
            if k < ids.len() {
                assert(ids[k] == x);
            }
        }
        if ids.contains(x) {
            let k = choose|k: int| 0 <= k < ids.len() && ids[k] == x;
            assert(ids.push(next)[k] == x);
        }
        assert(ids.push(next)[ids.len() as int] == next);
    }
    assert forall|a: int, b: int| 0 <= a < ids.len() + 1 && 0 <= b < ids.len() + 1 && a != b
        implies ids.push(next)[a] != ids.push(next)[b] by {
        if a < ids.len() && b < ids.len() {
        } else if a < ids.len() {
            assert(ids[a] < next);
        } else if b < ids.len() {
            assert(ids[b] < next);
        }
    }
}

/// `n` is `o` after opening an empty, unnamed document in a new window: the
/// first window fills the screen, a later one splits the active window side
/// by side.
pub open spec fn opens_blank(o: App, n: App) -> bool {
    ({
        let b = o.next_buffer_id;
        let w = o.next_window_id;
        let first = o.windows@.len() == 0;
        &&& n.documents@.len() == o.documents@.len() + 1
        &&& n.documents@.drop_last() == o.documents@
        &&& n.documents@.last().0 == b
        &&& fresh_document(n.documents@.last().1, None, Seq::empty())
        &&& n.windows@ == o.windows@.push(Window { id: w, buffer_id: b })
        &&& n.layout == if first {
            SplitNode::Leaf(w)
        } else {
            replaced(
                o.layout,
                o.active_window,
                SplitNode::Split(Direction::Horizontal, Box::new(SplitNode::Leaf(o.active_window)), Box::new(SplitNode::Leaf(w))),
            )
        }
        &&& n.status_msg matches Some(m) && m@ == "Archivo en memoria. CTRL + S para guardar"@
        &&& n == (App {
            documents: n.documents,
            windows: n.windows,
            layout: n.layout,
            status_msg: n.status_msg,
            state: if first { AppState::Workspace } else { o.state },
            next_buffer_id: (b + 1) as usize,
            next_window_id: (w + 1) as usize,
            focus: Focus::Window(w),
            active_window: w,
            show_tree: false,
            ..o
        })
    })
}

impl App {
    /// Opens an empty, unnamed document in a new window: the first window
    /// fills the screen, a later one splits the active window side by side.
    pub fn new_blank_file(&mut self)
        requires
            old(self).next_buffer_id < usize::MAX,
            old(self).next_window_id < usize::MAX,
        ensures
            opens_blank(*old(self), *final(self)),
            old(self).wf() ==> final(self).wf(),
    {
        let buf_id = self.next_buffer_id;
        self.next_buffer_id = self.next_buffer_id + 1;
        let doc = Document { buffer: EditorBuffer::new(), filepath: None, uri: None, version: 1, is_dirty: false };
        let ghost ds0 = self.documents@;
        let ghost ws0 = self.windows@;
        let ghost l0 = self.layout;
        self.documents.push((buf_id, doc));
        let win_id = self.next_window_id;
        self.next_window_id = self.next_window_id + 1;
        self.windows.push(Window { id: win_id, buffer_id: buf_id });
        let piece = SplitNode::Split(Direction::Horizontal, Box::new(SplitNode::Leaf(self.active_window)), Box::new(SplitNode::Leaf(win_id)));
        let ghost pv = piece;
        if self.windows.len() == 1 {
            self.layout = SplitNode::Leaf(win_id);
            self.state = AppState::Workspace;
        } else {
            let _ = self.layout.replace_leaf(self.active_window, piece);
        }
        self.focus = Focus::Window(win_id);
        self.active_window = win_id;
        self.show_tree = false;
        self.status_msg = Some(String::from_str("Archivo en memoria. CTRL + S para guardar"));
        assert(self.documents@.drop_last() =~= ds0);
        proof {
            if old(self).wf() {
                let ids0 = ids_of(ws0);
                let dids0 = doc_ids_of(ds0);
                lemma_ids_push(ws0, Window { id: win_id, buffer_id: buf_id });
                lemma_doc_ids_push(ds0, (buf_id, doc));
                assert forall|k: int| 0 <= k < ids0.len() implies ids0[k] < win_id by {
                    assert(ws0[k].id < win_id);
                }
                assert forall|k: int| 0 <= k < dids0.len() implies dids0[k] < buf_id by {
                    assert(ds0[k].0 < buf_id);
                }
                lemma_fresh_id(ids0, win_id);
                lemma_fresh_id(dids0, buf_id);
                assert(self.win_ids().contains(win_id));
                if ws0.len() == 0 {
                    assert(leaves(self.layout) == seq![win_id]);
                    assert(ids0 =~= Seq::<usize>::empty());
                    assert forall|x: usize| #[trigger] leaves(self.layout).contains(x) <==> self.win_ids().contains(x) by {
                        if leaves(self.layout).contains(x) {
                            let k = choose|k: int| 0 <= k < leaves(self.layout).len() && leaves(self.layout)[k] == x;
                            assert(k == 0);
                        }
                        assert(leaves(self.layout)[0] == win_id);
                    }
                } else {
                    let active = old(self).active_window;
                    assert(leaves(l0).contains(active));
                    law_replace_leaf_splices(l0, active, pv);
                    let i = choose|i: int|
                        0 <= i < leaves(l0).len() && leaves(l0)[i] == active && (forall|j: int| 0 <= j < i ==> leaves(l0)[j] != active)
                            && leaves(replaced(l0, active, pv)) == leaves(l0).take(i) + leaves(pv) + leaves(l0).skip(i + 1);
                    assert(leaves(SplitNode::Leaf(active)) == seq![active]);
                    assert(leaves(SplitNode::Leaf(win_id)) == seq![win_id]);
                    assert(leaves(pv) =~= seq![active, win_id]);
                    assert(leaves(pv)[0] == active);
                    assert forall|x: usize| #[trigger] leaves(self.layout).contains(x) <==> self.win_ids().contains(x) by {
                        lemma_splice_contains(leaves(l0), i, leaves(pv), x);
                        assert(leaves(pv).contains(x) <==> (x == active || x == win_id)) by {
                            if leaves(pv).contains(x) {
                                let k = choose|k: int| 0 <= k < 2 && leaves(pv)[k] == x;
                            }
                            assert(leaves(pv)[1] == win_id);
                        }
                        assert(leaves(l0).contains(x) <==> ids0.contains(x));
                    }
                }
                assert forall|k: int| 0 <= k < self.windows@.len() implies self.doc_ids().contains((#[trigger] self.windows@[k]).buffer_id) by {
                    if k < ws0.len() {
                        assert(self.windows@[k] == ws0[k]);
                        assert(dids0.contains(ws0[k].buffer_id));
                    } else {
                        assert(self.doc_ids()[dids0.len() as int] == buf_id);
                    }
                }
                assert forall|k: int| 0 <= k < self.windows@.len() implies (#[trigger] self.windows@[k]).id < self.next_window_id by {
                    if k < ws0.len() {
                        assert(self.windows@[k] == ws0[k]);
                    }
                }
                assert forall|k: int| 0 <= k < self.documents@.len() implies (#[trigger] self.documents@[k]).0 < self.next_buffer_id by {
                    if k < ds0.len() {
                        assert(self.documents@[k] == ds0[k]);
                    }
                }
                assert forall|k: int| 0 <= k < self.documents@.len() implies (#[trigger] self.documents@[k]).1.buffer.wf() by {
                    if k < ds0.len() {
                        assert(self.documents@[k] == ds0[k]);
                    }
                }
            }
        }
    }
}

/// Position of the first document open on `path`.
pub fn find_document_on(ds: &Vec<(usize, Document)>, path: &String) -> (r: Option<usize>)
    ensures
        match r {
            Some(i) => first_where(ds@, doc_on(path@)) == Some(i as int),
            None => first_where(ds@, doc_on(path@)) is None,
        },
{
    let mut i: usize = 0;
    while i < ds.len()
        invariant
            i <= ds@.len(),
            forall|j: int| 0 <= j < i ==> !doc_on(path@)(#[trigger] ds@[j]),
        decreases ds.len() - i,
    {
        let same = match &ds[i].1.filepath {
            Some(p) => paths_equal(p.as_str(), path.as_str()),
            None => false,
        };
        if same {
            proof { lemma_first_where_some(ds@, doc_on(path@), i as int); }
            return Some(i);
        }
        i = i + 1;
    }
    proof { lemma_first_where_none(ds@, doc_on(path@)); }
    None
}

impl App {
    /// Shows document `id` as `shows_in_window` says.
    fn show_in_window(&mut self, id: usize)
        requires
            old(self).next_window_id < usize::MAX,
        ensures
            shows_in_window(*old(self), *final(self), id),
            *final(self) == (App {
                windows: final(self).windows,
                layout: final(self).layout,
                focus: final(self).focus,
                active_window: final(self).active_window,
                state: final(self).state,
                next_window_id: final(self).next_window_id,
                ..*old(self)
            }),
            old(self).wf() && old(self).doc_ids().contains(id) ==> final(self).wf(),
    {
        let ghost ws0 = self.windows@;
        if self.windows.len() == 0 {
            let win_id = self.next_window_id;
            self.next_window_id = self.next_window_id + 1;
            self.windows.push(Window { id: win_id, buffer_id: id });
            self.layout = SplitNode::Leaf(win_id);
            self.focus = Focus::Window(win_id);
            self.active_window = win_id;
            self.state = AppState::Workspace;
            assert(self.windows@ =~= seq![Window { id: win_id, buffer_id: id }]);
            proof {
                if old(self).wf() && old(self).doc_ids().contains(id) {
                    assert(self.win_ids() =~= seq![win_id]);
                    assert forall|x: usize| #[trigger] leaves(self.layout).contains(x) <==> self.win_ids().contains(x) by {
                        if leaves(self.layout).contains(x) {
                            let k = choose|k: int| 0 <= k < 1 && leaves(self.layout)[k] == x;
                        }
                        if self.win_ids().contains(x) {
                            let k = choose|k: int| 0 <= k < 1 && self.win_ids()[k] == x;
                        }
                        assert(leaves(self.layout)[0] == win_id);
                        assert(self.win_ids()[0] == win_id);
                    }
                }
            }
        } else {
            match find_window(&self.windows, self.active_window) {
                Some(p) => {
                    let wid = self.windows[p].id;
                    self.windows.set(p, Window { id: wid, buffer_id: id });
                    proof { lemma_ids_keep(ws0, p as int, Window { id: wid, buffer_id: id }); }
                    proof {
                        if old(self).wf() && old(self).doc_ids().contains(id) {
                            assert forall|k: int| 0 <= k < self.windows@.len() implies self.doc_ids().contains((#[trigger] self.windows@[k]).buffer_id) by {
                                if k != p {
                                    assert(self.windows@[k] == ws0[k]);
                                }
                            }
                            assert forall|k: int| 0 <= k < self.windows@.len() implies (#[trigger] self.windows@[k]).id < self.next_window_id by {
                                assert(self.windows@[k].id == ws0[k].id);
                            }
                        }
                    }
                },
                None => {},
            }
            self.focus = Focus::Window(self.active_window);
        }
    }

    /// Opens the file at `path` in the active window, or in a new window
    /// when none is open.  A document already open on `path` is shown again
    /// and `contents` goes unused; otherwise a new document holds `contents`
    /// (empty when the file could not be read).  The working directory
    /// becomes the file's directory.  True when a new document was opened,
    /// which the caller then announces to a language server.
    pub fn load_file(&mut self, path: String, contents: Option<String>) -> (opened: bool)
        requires
            old(self).next_buffer_id < usize::MAX,
            old(self).next_window_id < usize::MAX,
        ensures
            file_loaded(
                *old(self),
                *final(self),
                path@,
                match contents {
                    Some(c) => Some(c@),
                    None => None,
                },
                opened,
            ),
            old(self).wf() ==> final(self).wf(),
    {
        let dir = match crate::paths::parent_of(path.as_str()) {
            Some(p) => p,
            None => String::from_str("."),
        };
        proof { reveal_strlit("."); }
        assert(dir@ == dir_of(path@));
        match find_document_on(&self.documents, &path) {
            Some(d) => {
                let id = self.documents[d].0;
                proof {
                    if old(self).wf() {
                        assert(self.doc_ids()[d as int] == id);
                    }
                }
                self.show_in_window(id);
                self.working_dir = dir;
                false
            },
            None => {
                let buf = match &contents {
                    Some(c) => EditorBuffer::from_text(c.as_str()),
                    None => EditorBuffer::new(),
                };
                let buf_id = self.next_buffer_id;
                self.next_buffer_id = self.next_buffer_id + 1;
                let ghost ds0 = self.documents@;
                self.documents.push((buf_id, Document { buffer: buf, filepath: Some(path), uri: None, version: 1, is_dirty: false }));
                assert(self.documents@.drop_last() =~= ds0);
                let ghost mid = *self;
                proof {
                    if old(self).wf() {
                        let dids0 = doc_ids_of(ds0);
                        lemma_doc_ids_push(ds0, self.documents@.last());
                        assert forall|k: int| 0 <= k < dids0.len() implies dids0[k] < buf_id by {
                            assert(ds0[k].0 < buf_id);
                        }
                        lemma_fresh_id(dids0, buf_id);
                        assert(self.doc_ids().contains(buf_id));
                        assert forall|k: int| 0 <= k < self.windows@.len() implies self.doc_ids().contains((#[trigger] self.windows@[k]).buffer_id) by {
                            assert(dids0.contains(self.windows@[k].buffer_id));
                        }
                        assert forall|k: int| 0 <= k < self.documents@.len() implies (#[trigger] self.documents@[k]).0 < self.next_buffer_id by {
                            if k < ds0.len() {
                                assert(self.documents@[k] == ds0[k]);
                            }
                        }
                        assert forall|k: int| 0 <= k < self.documents@.len() implies (#[trigger] self.documents@[k]).1.buffer.wf() by {
                            if k < ds0.len() {
                                assert(self.documents@[k] == ds0[k]);
                            }
                        }
                        assert(self.wf());
                    }
                }
                self.show_in_window(buf_id);
                self.working_dir = dir;
                true
            },
        }
    }
}

/// `n` is `o` after `load_file(path, contents)` returned `opened`: a
/// document already on `path` shown again, or else a new one, with the next
/// buffer id, holding `contents` (empty when there are none); the working
/// directory is the file's directory.
pub open spec fn file_loaded(o: App, n: App, path: Seq<char>, contents: Option<Seq<char>>, opened: bool) -> bool {
    &&& n.working_dir@ == dir_of(path)
    &&& match first_where(o.documents@, doc_on(path)) {
        Some(d) => {
            &&& !opened
            &&& shows_in_window(o, n, o.documents@[d].0)
            &&& n == (App {
                windows: n.windows,
                layout: n.layout,
                focus: n.focus,
                active_window: n.active_window,
                state: n.state,
                next_window_id: n.next_window_id,
                working_dir: n.working_dir,
                ..o
            })
        },
        None => {
            let b = o.next_buffer_id;
            &&& opened
            &&& n.documents@.len() == o.documents@.len() + 1
            &&& n.documents@.drop_last() == o.documents@
            &&& n.documents@.last().0 == b
            &&& fresh_document(
                n.documents@.last().1,
                Some(path),
                match contents {
                    Some(c) => c,
                    None => Seq::empty(),
                },
            )
            &&& shows_in_window(o, n, b)
            &&& n == (App {
                documents: n.documents,
                windows: n.windows,
                layout: n.layout,
                focus: n.focus,
                active_window: n.active_window,
                state: n.state,
                next_window_id: n.next_window_id,
                next_buffer_id: (b + 1) as usize,
                working_dir: n.working_dir,
                ..o
            })
        },
    }
}

/// No two documents are open on the same file.
pub open spec fn paths_distinct(ds: Seq<(usize, Document)>) -> bool {
    forall|i: int, j: int|
        0 <= i < ds.len() && 0 <= j < ds.len() && i != j && (#[trigger] ds[i]).1.filepath is Some
            && (#[trigger] ds[j]).1.filepath is Some ==> !same_path(ds[i].1.filepath->0@, ds[j].1.filepath->0@)
}

/// After `shows_in_window` (with the focused window among the windows, or
/// no window at all) the focused window is a window that shows `id`.
proof fn lemma_shown_in_focus(o: App, n: App, id: usize)
    requires
        shows_in_window(o, n, id),
        o.windows@.len() == 0 || o.win_pos(o.active_window) is Some,
    ensures
        n.focus == Focus::Window(n.active_window),
        n.win_pos(n.active_window) matches Some(p) && n.windows@[p].buffer_id == id,
        o.windows@.len() > 0 ==> n.active_window == o.active_window,
{
    let a = n.active_window;
    if o.windows@.len() == 0 {
        assert(is_first(n.windows@, win_has(a), 0));
        lemma_first_where_some(n.windows@, win_has(a), 0);
    } else {
        let p = o.win_pos(o.active_window)->0;
        assert(is_first(o.windows@, win_has(a), p));
        assert forall|j: int| 0 <= j < o.windows@.len() implies win_has(a)(o.windows@[j]) == win_has(a)(#[trigger] n.windows@[j]) by {
            if j == p {
                assert(n.windows@[j].id == o.windows@[p].id);
            } else {
                assert(n.windows@[j] == o.windows@[j]);
            }
        }
        lemma_first_where_same(o.windows@, win_has(a), n.windows@, win_has(a));
    }
}

/// Loading a file never opens it twice: when no two documents were on the
/// same file before `load_file`, none are after it; a file already open is
/// shown again with no document added and no buffer id used.  Either way
/// the working directory becomes the file's directory and, when the focused
/// window was among the windows (or there were none), the focused window
/// shows the file's document: the one already open, or else the new one.
pub proof fn law_load_keeps_paths_distinct(o: App, n: App, path: Seq<char>, contents: Option<Seq<char>>, opened: bool)
    requires
        paths_distinct(o.documents@),
        file_loaded(o, n, path, contents, opened),
    ensures
        paths_distinct(n.documents@),
        first_where(o.documents@, doc_on(path)) is Some ==> n.documents@ == o.documents@ && n.next_buffer_id == o.next_buffer_id && !opened,
        first_where(o.documents@, doc_on(path)) is None ==> opened && n.documents@ == o.documents@.push(n.documents@.last()),
        n.working_dir@ == dir_of(path),
        (o.windows@.len() == 0 || o.win_pos(o.active_window) is Some) ==> {
            let shown = match first_where(o.documents@, doc_on(path)) {
                Some(d) => o.documents@[d].0,
                None => o.next_buffer_id,
            };
            &&& n.focus == Focus::Window(n.active_window)
            &&& n.win_pos(n.active_window) matches Some(p) && n.windows@[p].buffer_id == shown
            &&& o.windows@.len() > 0 ==> n.active_window == o.active_window
        },
{
    if o.windows@.len() == 0 || o.win_pos(o.active_window) is Some {
        match first_where(o.documents@, doc_on(path)) {
            Some(d) => lemma_shown_in_focus(o, n, o.documents@[d].0),
            None => lemma_shown_in_focus(o, n, o.next_buffer_id),
        }
    }
    let ds = o.documents@;
    if first_where(ds, doc_on(path)) is None {
        let m = n.documents@;
        assert(m =~= ds.push(m.last()));
        assert forall|k: int| 0 <= k < ds.len() && (#[trigger] ds[k]).1.filepath is Some implies !same_path(ds[k].1.filepath->0@, path) by {
            if same_path(ds[k].1.filepath->0@, path) {
                assert(doc_on(path)(ds[k]));
                lemma_first_where_found(ds, doc_on(path), k);
            }
        }
        assert forall|i: int, j: int|
            0 <= i < m.len() && 0 <= j < m.len() && i != j && (#[trigger] m[i]).1.filepath is Some
                && (#[trigger] m[j]).1.filepath is Some implies !same_path(m[i].1.filepath->0@, m[j].1.filepath->0@) by {
            if i < ds.len() && j < ds.len() {
                assert(m[i] == ds[i] && m[j] == ds[j]);
            } else if i < ds.len() {
                assert(m[i] == ds[i]);
            } else {
                assert(m[j] == ds[j]);
            }
        }
    }
}

/// The centre of `r`, rounded towards its top left corner.
pub open spec fn center(r: Rect) -> (int, int) {
    (r.x + r.width / 2, r.y + r.height / 2)
}

/// `t` lies from `c` in the direction `(dx, dy)`, one of the four unit steps.
pub open spec fn lies_toward(dx: i16, dy: i16, c: (int, int), t: (int, int)) -> bool {
    if dx == 1 && dy == 0 {
        t.0 > c.0
    } else if dx == -1 && dy == 0 {
        t.0 < c.0
    } else if dx == 0 && dy == 1 {
        t.1 > c.1
    } else if dx == 0 && dy == -1 {
        t.1 < c.1
    } else {
        false
    }
}

pub open spec fn sq_dist(c: (int, int), t: (int, int)) -> int {
    (t.0 - c.0) * (t.0 - c.0) + (t.1 - c.1) * (t.1 - c.1)
}

/// Area `e` is a candidate for a focus move from window `active` at `c`.
pub open spec fn candidate(e: (usize, Rect), active: usize, dx: i16, dy: i16, c: (int, int)) -> bool {
    e.0 != active && lies_toward(dx, dy, c, center(e.1))
}

/// The window nearest to `c` in direction `(dx, dy)` among the first `n`
/// areas, with its squared distance; the earlier of two as near wins, and
/// `active` (at distance `i32::MAX`) when there is none.
pub open spec fn nearest(areas: Seq<(usize, Rect)>, active: usize, dx: i16, dy: i16, c: (int, int), n: int) -> (usize, int)
    decreases n,
{
    if n <= 0 {
        (active, i32::MAX as int)
    } else {
        let prev = nearest(areas, active, dx, dy, c, n - 1);
        let e = areas[n - 1];
        let d = sq_dist(c, center(e.1));
        if candidate(e, active, dx, dy, c) && d < prev.1 {
            (e.0, d)
        } else {
            prev
        }
    }
}

proof fn lemma_nearest_is_area(areas: Seq<(usize, Rect)>, active: usize, dx: i16, dy: i16, c: (int, int), n: int)
    requires
        0 <= n <= areas.len(),
    ensures
        nearest(areas, active, dx, dy, c, n).0 == active
            || exists|i: int| 0 <= i < n && (#[trigger] areas[i]).0 == nearest(areas, active, dx, dy, c, n).0,
    decreases n,
{
    if n > 0 {
        lemma_nearest_is_area(areas, active, dx, dy, c, n - 1);
        let prev = nearest(areas, active, dx, dy, c, n - 1);
        if prev.0 != active && nearest(areas, active, dx, dy, c, n).0 == prev.0 {
            let i = choose|i: int| 0 <= i < n - 1 && (#[trigger] areas[i]).0 == prev.0;
            assert(areas[i].0 == nearest(areas, active, dx, dy, c, n).0);
        }
        if nearest(areas, active, dx, dy, c, n).0 != prev.0 {
            assert(areas[n - 1].0 == nearest(areas, active, dx, dy, c, n).0);
        }
    }
}

/// `nearest` over the first `n` areas is a nearest candidate: either there
/// is no candidate closer than `i32::MAX` and it stays at `active`, or it is
/// the window of a candidate area at a distance below `i32::MAX` that no
/// candidate among them undercuts.
proof fn lemma_nearest_is_nearest(areas: Seq<(usize, Rect)>, active: usize, dx: i16, dy: i16, c: (int, int), n: int)
    requires
        0 <= n <= areas.len(),
    ensures
        ({
            let (b, d) = nearest(areas, active, dx, dy, c, n);
            &&& forall|j: int| 0 <= j < n && candidate(#[trigger] areas[j], active, dx, dy, c) ==> sq_dist(c, center(areas[j].1)) >= d
            &&& (b == active && d == i32::MAX as int) || (exists|i: int| 0 <= i < n && (#[trigger] areas[i]).0 == b
                && candidate(areas[i], active, dx, dy, c) && sq_dist(c, center(areas[i].1)) == d && d < i32::MAX)
        }),
    decreases n,
{
    if n > 0 {
        lemma_nearest_is_nearest(areas, active, dx, dy, c, n - 1);
        let prev = nearest(areas, active, dx, dy, c, n - 1);
        let e = areas[n - 1];
        let d = sq_dist(c, center(e.1));
        if candidate(e, active, dx, dy, c) && d < prev.1 {
            assert(areas[n - 1].0 == e.0);
        } else if prev.0 != active || prev.1 != i32::MAX as int {
            let i = choose|i: int| 0 <= i < n - 1 && (#[trigger] areas[i]).0 == prev.0
                && candidate(areas[i], active, dx, dy, c) && sq_dist(c, center(areas[i].1)) == prev.1 && prev.1 < i32::MAX;
            assert(areas[i].0 == prev.0);
        }
    }
}

/// The cell at the middle of `r` (halves rounded down), in plain terms.
pub open spec fn midpoint(r: Rect) -> (int, int) {
    (r.x as int + (r.width as int) / 2, r.y as int + (r.height as int) / 2)
}

/// `t` is strictly right of, left of, below or above `c`, as `(dx, dy)` is
/// `(1, 0)`, `(-1, 0)`, `(0, 1)` or `(0, -1)`.
pub open spec fn beyond(dx: i16, dy: i16, c: (int, int), t: (int, int)) -> bool {
    ||| dx == 1 && dy == 0 && t.0 > c.0
    ||| dx == -1 && dy == 0 && t.0 < c.0
    ||| dx == 0 && dy == 1 && t.1 > c.1
    ||| dx == 0 && dy == -1 && t.1 < c.1
}

/// Squared distance between two points.
pub open spec fn dist2(c: (int, int), t: (int, int)) -> int {
    (t.0 - c.0) * (t.0 - c.0) + (t.1 - c.1) * (t.1 - c.1)
}

/// A focus move goes to the nearest window in its direction.  When the
/// focus moves from window `a` to another window `b` (`n` is `o` after
/// `move_focus_dir(dx, dy)`), the area of `b` lies from the centre of `a`'s
/// area in the direction `(dx, dy)` and no other area in that direction has
/// its centre strictly nearer (by squared distance); and whenever some
/// window lies in that direction (nearer than `i32::MAX`), the focus does
/// move to another window.
pub proof fn law_focus_moves_to_nearest(o: App, n: App, dx: i16, dy: i16)
    requires
        focus_moved(o, n, dx, dy),
    ensures
        o.focus matches Focus::Window(a) ==> first_where(o.window_areas@, area_of(a)) matches Some(ai) ==> {
            let areas = o.window_areas@;
            let c = midpoint(areas[ai].1);
            &&& (n.focus is Window && n.focus->Window_0 != a) ==> exists|i: int| 0 <= i < areas.len() && (#[trigger] areas[i]).0 == n.focus->Window_0
                && beyond(dx, dy, c, midpoint(areas[i].1))
                && forall|j: int| 0 <= j < areas.len() && areas[j].0 != a && beyond(dx, dy, c, midpoint((#[trigger] areas[j]).1))
                    ==> dist2(c, midpoint(areas[j].1)) >= dist2(c, midpoint(areas[i].1))
            &&& (exists|j: int| 0 <= j < areas.len() && (#[trigger] areas[j]).0 != a && beyond(dx, dy, c, midpoint(areas[j].1))
                && dist2(c, midpoint(areas[j].1)) < i32::MAX) ==> (n.focus is Window && n.focus->Window_0 != a
                && n.active_window == n.focus->Window_0)
        },
{
    assert forall|r: Rect| #[trigger] midpoint(r) == center(r) by {}
    assert forall|c: (int, int), t: (int, int)| #[trigger] beyond(dx, dy, c, t) == lies_toward(dx, dy, c, t) by {}
    assert forall|c: (int, int), t: (int, int)| #[trigger] dist2(c, t) == sq_dist(c, t) by {}
    if o.focus is Window {
        let a = o.focus->Window_0;
        if first_where(o.window_areas@, area_of(a)) is Some {
            let ai = first_where(o.window_areas@, area_of(a))->0;
            let areas = o.window_areas@;
            let c = center(areas[ai].1);
            lemma_nearest_is_nearest(areas, a, dx, dy, c, areas.len() as int);
            let (best, d) = nearest(areas, a, dx, dy, c, areas.len() as int);
            if exists|j: int| 0 <= j < areas.len() && (#[trigger] areas[j]).0 != a && lies_toward(dx, dy, c, center(areas[j].1))
                && sq_dist(c, center(areas[j].1)) < i32::MAX {
                let j = choose|j: int| 0 <= j < areas.len() && (#[trigger] areas[j]).0 != a && lies_toward(dx, dy, c, center(areas[j].1))
                    && sq_dist(c, center(areas[j].1)) < i32::MAX;
                assert(candidate(areas[j], a, dx, dy, c));
            }
            if best != a {
                let i = choose|i: int| 0 <= i < areas.len() && (#[trigger] areas[i]).0 == best
                    && candidate(areas[i], a, dx, dy, c) && sq_dist(c, center(areas[i].1)) == d && d < i32::MAX;
                assert forall|j: int| 0 <= j < areas.len() && areas[j].0 != a && lies_toward(dx, dy, c, center((#[trigger] areas[j]).1))
                    implies sq_dist(c, center(areas[j].1)) >= sq_dist(c, center(areas[i].1)) by {
                    assert(candidate(areas[j], a, dx, dy, c));
                }
            }
        }
    }
}

/// A focus move with no window to go to: when no other window's area lies
/// from the focused one in the direction `(dx, dy)` (nearer than
/// `i32::MAX`), a move to the left goes to the shown file tree and any
/// other move changes nothing; from the tree, a move to the right goes to
/// the active window when there is one.
pub proof fn law_focus_move_without_window(o: App, n: App, dx: i16, dy: i16)
    requires
        focus_moved(o, n, dx, dy),
    ensures
        o.focus matches Focus::Window(a) ==> first_where(o.window_areas@, area_of(a)) matches Some(ai) ==> {
            let c = midpoint(o.window_areas@[ai].1);
            let areas = o.window_areas@;
            !(exists|j: int| 0 <= j < areas.len() && (#[trigger] areas[j]).0 != a && beyond(dx, dy, c, midpoint(areas[j].1))
                && dist2(c, midpoint(areas[j].1)) < i32::MAX) ==> n == if dx == -1 && o.show_tree {
                (App { focus: Focus::Tree, ..o })
            } else {
                o
            }
        },
        o.focus is Tree ==> n == if dx == 1 && o.windows@.len() > 0 {
            (App { focus: Focus::Window(o.active_window), ..o })
        } else {
            o
        },
{
    assert forall|r: Rect| #[trigger] midpoint(r) == center(r) by {}
    assert forall|c: (int, int), t: (int, int)| #[trigger] beyond(dx, dy, c, t) == lies_toward(dx, dy, c, t) by {}
    assert forall|c: (int, int), t: (int, int)| #[trigger] dist2(c, t) == sq_dist(c, t) by {}
    if o.focus is Window {
        let a = o.focus->Window_0;
        if first_where(o.window_areas@, area_of(a)) is Some {
            let ai = first_where(o.window_areas@, area_of(a))->0;
            let areas = o.window_areas@;
            let c = center(areas[ai].1);
            lemma_nearest_is_nearest(areas, a, dx, dy, c, areas.len() as int);
            let best = nearest(areas, a, dx, dy, c, areas.len() as int).0;
            if best != a {
                let i = choose|i: int| 0 <= i < areas.len() && (#[trigger] areas[i]).0 == best
                    && candidate(areas[i], a, dx, dy, c) && sq_dist(c, center(areas[i].1)) == nearest(areas, a, dx, dy, c, areas.len() as int).1
                    && nearest(areas, a, dx, dy, c, areas.len() as int).1 < i32::MAX;
                assert(areas[i].0 != a && lies_toward(dx, dy, c, center(areas[i].1)));
            }
        }
    }
}

/// The area drawn for window `id`.
pub open spec fn area_of(id: usize) -> spec_fn((usize, Rect)) -> bool {
    |e: (usize, Rect)| e.0 == id
}

impl App {
    /// The squared distances a focus move from the focused window compares
    /// fit in an `i32`.
    pub open spec fn focus_move_fits(&self, dx: i16, dy: i16) -> bool {
        match self.focus {
            Focus::Window(active_id) => match first_where(self.window_areas@, area_of(active_id)) {
                Some(ai) => {
                    let c = center(self.window_areas@[ai].1);
                    forall|i: int| 0 <= i < self.window_areas@.len() && candidate(#[trigger] self.window_areas@[i], active_id, dx, dy, c)
                        ==> sq_dist(c, center(self.window_areas@[i].1)) <= i32::MAX
                },
                None => true,
            },
            Focus::Tree => true,
        }
    }

    pub(crate) fn find_area(&self, id: usize) -> (r: Option<usize>)
        ensures
            match r {
                Some(i) => first_where(self.window_areas@, area_of(id)) == Some(i as int),
                None => first_where(self.window_areas@, area_of(id)) is None,
            },
    {
        let mut i: usize = 0;
        while i < self.window_areas.len()
            invariant
                i <= self.window_areas@.len(),
                forall|j: int| 0 <= j < i ==> !area_of(id)(#[trigger] self.window_areas@[j]),
            decreases self.window_areas.len() - i,
        {
            if self.window_areas[i].0 == id {
                proof { lemma_first_where_some(self.window_areas@, area_of(id), i as int); }
                return Some(i);
            }
            i = i + 1;
        }
        proof { lemma_first_where_none(self.window_areas@, area_of(id)); }
        None
    }

    /// Whether `move_focus_dir(dx, dy)` can compare its distances in an `i32`.
    pub fn check_focus_move(&self, dx: i16, dy: i16) -> (r: bool)
        ensures
            r == self.focus_move_fits(dx, dy),
    {
        match self.focus {
            Focus::Window(active_id) => match self.find_area(active_id) {
                Some(ai) => {
                    let r0 = self.window_areas[ai].1;
                    let cx: i64 = r0.x as i64 + (r0.width as i64 / 2);
                    let cy: i64 = r0.y as i64 + (r0.height as i64 / 2);
                    let ghost c = (cx as int, cy as int);
                    let mut i: usize = 0;
                    while i < self.window_areas.len()
                        invariant
                            i <= self.window_areas@.len(),
                            c == center(self.window_areas@[ai as int].1),
                            0 <= cx <= 100000,
                            0 <= cy <= 100000,
                            c == (cx as int, cy as int),
                            ai < self.window_areas@.len(),
                            self.focus == Focus::Window(active_id),
                            first_where(self.window_areas@, area_of(active_id)) == Some(ai as int),
                            forall|j: int| 0 <= j < i && candidate(#[trigger] self.window_areas@[j], active_id, dx, dy, c)
                                ==> sq_dist(c, center(self.window_areas@[j].1)) <= i32::MAX,
                        decreases self.window_areas.len() - i,
                    {
                        let (id, r) = self.window_areas[i];
                        let tx: i64 = r.x as i64 + (r.width as i64 / 2);
                        let ty: i64 = r.y as i64 + (r.height as i64 / 2);
                        let toward = if dx == 1 && dy == 0 {
                            tx > cx
                        } else if dx == -1 && dy == 0 {
                            tx < cx
                        } else if dx == 0 && dy == 1 {
                            ty > cy
                        } else if dx == 0 && dy == -1 {
                            ty < cy
                        } else {
                            false
                        };
                        if id != active_id && toward {
                            let ex = tx - cx;
                            let ey = ty - cy;
                            assert(ex * ex <= 100000 * 100000) by (nonlinear_arith)
                                requires -100000 <= ex <= 100000;
                            assert(ey * ey <= 100000 * 100000) by (nonlinear_arith)
                                requires -100000 <= ey <= 100000;
                            assert(0 <= ex * ex) by (nonlinear_arith);
                            assert(0 <= ey * ey) by (nonlinear_arith);
                            let d = ex * ex + ey * ey;
                            if d > i32::MAX as i64 {
                                proof {
                                    let e = self.window_areas@[i as int];
                                    assert(center(e.1) == (tx as int, ty as int));
                                    assert(candidate(e, active_id, dx, dy, c));
                                    assert(sq_dist(c, center(e.1)) == d);
                                }
                                return false;
                            }
                        }
                        i = i + 1;
                    }
                    true
                },
                None => true,
            },
            Focus::Tree => true,
        }
    }

    /// Moves the focus to the nearest window in direction `(dx, dy)` (one of
    /// the four unit steps), measured between the centres of the areas last
    /// drawn.  With no window that way, a step left from the focused window
    /// reaches the file tree when it is shown; a step right from the tree
    /// reaches the active window.
    pub fn move_focus_dir(&mut self, dx: i16, dy: i16)
        requires
            old(self).focus_move_fits(dx, dy),
        ensures
            focus_moved(*old(self), *final(self), dx, dy),
            old(self).wf() && old(self).areas_ok() ==> final(self).wf(),
    {
        match self.focus {
            Focus::Window(active_id) => match self.find_area(active_id) {
                Some(ai) => {
                    let r0 = self.window_areas[ai].1;
                    let cx: i32 = r0.x as i32 + (r0.width as i32 / 2);
                    let cy: i32 = r0.y as i32 + (r0.height as i32 / 2);
                    let ghost c = (cx as int, cy as int);
                    let ghost areas = self.window_areas@;
                    let mut best_id = active_id;
                    let mut best_dist: i32 = i32::MAX;
                    let mut i: usize = 0;
                    while i < self.window_areas.len()
                        invariant
                            i <= areas.len(),
                            areas == self.window_areas@,
                            c == (cx as int, cy as int),
                            0 <= cx <= 100000,
                            0 <= cy <= 100000,
                            forall|j: int| 0 <= j < areas.len() && candidate(#[trigger] areas[j], active_id, dx, dy, c)
                                ==> sq_dist(c, center(areas[j].1)) <= i32::MAX,
                            (best_id, best_dist as int) == nearest(areas, active_id, dx, dy, c, i as int),
                        decreases areas.len() - i,
                    {
                        let (id, r) = self.window_areas[i];
                        let tx: i32 = r.x as i32 + (r.width as i32 / 2);
                        let ty: i32 = r.y as i32 + (r.height as i32 / 2);
                        assert(center(areas[i as int].1) == (tx as int, ty as int));
                        let valid = if dx == 1 && dy == 0 {
                            tx > cx
                        } else if dx == -1 && dy == 0 {
                            tx < cx
                        } else if dx == 0 && dy == 1 {
                            ty > cy
                        } else if dx == 0 && dy == -1 {
                            ty < cy
                        } else {
                            false
                        };
                        if id != active_id && valid {
                            assert(candidate(areas[i as int], active_id, dx, dy, c));
                            let ex: i32 = tx - cx;
                            let ey: i32 = ty - cy;
                            assert(0 <= ex * ex) by (nonlinear_arith);
                            assert(0 <= ey * ey) by (nonlinear_arith);
                            let dist: i32 = ex * ex + ey * ey;
                            if dist < best_dist {
                                best_dist = dist;
                                best_id = id;
                            }
                        }
                        i = i + 1;
                    }
                    if best_id != active_id {
                        self.focus = Focus::Window(best_id);
                        self.active_window = best_id;
                        proof {
                            if old(self).wf() && old(self).areas_ok() {
                                lemma_nearest_is_area(areas, active_id, dx, dy, c, areas.len() as int);
                                let k = choose|k: int| 0 <= k < areas.len() && (#[trigger] areas[k]).0 == best_id;
                                assert(old(self).win_ids().contains(areas[k].0));
                            }
                        }
                    } else if dx == -1 && self.show_tree {
                        self.focus = Focus::Tree;
                    }
                },
                None => {},
            },
            Focus::Tree => {
                if dx == 1 && self.windows.len() > 0 {
                    self.focus = Focus::Window(self.active_window);
                }
            },
        }
    }
}

/// The answer `s` is a yes: a `y` or `Y` between blanks.
pub open spec fn is_yes(s: Seq<char>) -> bool {
    trimmed(s) == seq!['y'] || trimmed(s) == seq!['Y']
}

pub fn answer_is_yes(s: &str) -> (r: bool)
    ensures
        r == is_yes(s@),
{
    let t = str_to_chars(trim_str(s).as_str());
    proof { assert(t@ == trimmed(s@)); }
    if t.len() == 1 {
        let c = t[0];
        assert(t@ == seq![c]);
        c == 'y' || c == 'Y'
    } else {
        proof {
            if is_yes(s@) {
                assert(seq!['y'].len() == 1);
                assert(seq!['Y'].len() == 1);
            }
        }
        false
    }
}

/// What the caller has to carry out after a prompt is answered.
pub enum PromptAction {
    Nothing,
    /// Write the active document to its (new) path.
    Save,
    Rename { from: String, to: String },
    Delete { path: String },
    /// Open the file found by a file search.
    Open { path: String },
    /// Open the file of a text search match, then jump to it.
    OpenMatch { found: WorkspaceTextMatch, query: String },
}

/// A search the open prompt asks the caller to run over the workspace.
pub enum SearchRequest {
    Files { root: String, query: String },
    Text { root: String, query: String },
}

/// `n` is the document `o` with its file path set to `path`.
pub open spec fn with_path(o: Document, n: Document, path: Seq<char>) -> bool {
    &&& n.buffer == o.buffer
    &&& n.filepath matches Some(f) && f@ == path
    &&& n.uri == o.uri
    &&& n.version == o.version
    &&& n.is_dirty == o.is_dirty
}

/// `n` holds the documents of `o`, but for the one at `i`, whose id stays.
pub open spec fn docs_but(o: Seq<(usize, Document)>, n: Seq<(usize, Document)>, i: int) -> bool {
    &&& n.len() == o.len()
    &&& 0 <= i < o.len()
    &&& n[i].0 == o[i].0
    &&& forall|j: int| 0 <= j < o.len() && j != i ==> n[j] == o[j]
}

/// `n` is `o` after its open prompt was answered, and `a` and `g` are
/// what the caller is to carry out and whether to refresh git afterwards.
pub open spec fn prompt_answered(o: App, n: App, a: PromptAction, g: bool) -> bool {
    match o.prompt {
        None => n == o && a is Nothing && !g,
        Some(p) => {
            let t = trimmed(p.input@);
            &&& n.prompt is None
            &&& match p.intent {
                PromptIntent::SaveAs(dir) => if t.len() == 0 {
                    &&& a is Nothing && !g
                    &&& n.status_msg matches Some(m) && m@ == "No se puede guardar: Nombre vacio"@
                    &&& n == (App { prompt: None, status_msg: n.status_msg, ..o })
                } else {
                    &&& a is Save && g
                    &&& match o.active_pos() {
                        Some(i) => docs_but(o.documents@, n.documents@, i)
                            && with_path(o.documents@[i].1, n.documents@[i].1, crate::paths::path_join(dir@, t)),
                        None => n.documents == o.documents,
                    }
                    &&& n == (App { prompt: None, documents: n.documents, ..o })
                },
                PromptIntent::Rename(from) => {
                    &&& n == (App { prompt: None, ..o })
                    &&& if t.len() == 0 {
                        a is Nothing && !g
                    } else {
                        &&& g
                        &&& a matches PromptAction::Rename { from: f, to } && f@ == from@
                            && to@ == crate::paths::path_with_file_name(from@, t)
                    }
                },
                PromptIntent::Delete(path) => {
                    &&& n == (App { prompt: None, ..o })
                    &&& g
                    &&& if is_yes(p.input@) { a matches PromptAction::Delete { path: q } && q@ == path@ } else { a is Nothing }
                },
                PromptIntent::SearchText => {
                    &&& n == (App { prompt: None, ..o })
                    &&& g
                    &&& match p.selection_state.selected {
                        Some(idx) if idx < p.text_results@.len() => a matches PromptAction::OpenMatch { found, query }
                            && found == p.text_results@[idx as int] && query@ == p.input@,
                        _ => a is Nothing,
                    }
                },
                PromptIntent::SearchFile => {
                    &&& n == (App { prompt: None, ..o })
                    &&& g
                    &&& match p.selection_state.selected {
                        Some(idx) if idx < p.file_results@.len() => a matches PromptAction::Open { path }
                            && path == p.file_results@[idx as int],
                        _ => a is Nothing,
                    }
                },
                PromptIntent::ConfirmQuit => {
                    &&& n == (App { prompt: None, quit: o.quit || is_yes(p.input@), ..o })
                    &&& a is Nothing && g
                },
            }
        },
    }
}

impl App {
    /// Replacing the document at `i` by one with the same id and a
    /// consistent buffer keeps the workspace consistent.
    pub proof fn lemma_doc_swap_wf(o: App, n: App, i: int)
        requires
            o.wf(),
            docs_but(o.documents@, n.documents@, i),
            n.documents@[i].1.buffer.wf(),
            n == (App { documents: n.documents, ..o }),
        ensures
            n.wf(),
    {
        assert(n.doc_ids() =~= o.doc_ids()) by {
            assert forall|k: int| 0 <= k < n.documents@.len() implies n.doc_ids()[k] == o.doc_ids()[k] by {
                if k != i {
                    assert(n.documents@[k] == o.documents@[k]);
                }
            }
        }
        assert forall|k: int| 0 <= k < n.documents@.len() implies (#[trigger] n.documents@[k]).0 < n.next_buffer_id by {
            if k != i {
                assert(n.documents@[k] == o.documents@[k]);
            } else {
                assert(o.documents@[k].0 < o.next_buffer_id);
            }
        }
        assert forall|k: int| 0 <= k < n.documents@.len() implies (#[trigger] n.documents@[k]).1.buffer.wf() by {
            if k != i {
                assert(n.documents@[k] == o.documents@[k]);
            }
        }
    }

    /// Changing one document but not its id keeps which document is active.
    pub proof fn lemma_docs_but_active(o: App, n: App, i: int)
        requires
            docs_but(o.documents@, n.documents@, i),
            n.focus == o.focus,
            n.windows == o.windows,
        ensures
            n.active_pos() == o.active_pos(),
    {
        assert forall|id: usize| first_where(n.documents@, doc_has(id)) == first_where(o.documents@, doc_has(id)) by {
            assert forall|j: int| 0 <= j < n.documents@.len() implies doc_has(id)(n.documents@[j]) == doc_has(id)(o.documents@[j]) by {
                if j != i {
                    assert(n.documents@[j] == o.documents@[j]);
                }
            }
            lemma_first_where_same(n.documents@, doc_has(id), o.documents@, doc_has(id));
        }
    }

    /// Sets the file path of the document at `i`.
    fn set_doc_path(&mut self, i: usize, path: String)
        requires
            i < old(self).documents@.len(),
        ensures
            docs_but(old(self).documents@, final(self).documents@, i as int),
            with_path(old(self).documents@[i as int].1, final(self).documents@[i as int].1, path@),
            *final(self) == (App { documents: final(self).documents, ..*old(self) }),
            old(self).wf() ==> final(self).wf(),
    {
        let (id, mut doc) = self.documents.remove(i);
        doc.filepath = Some(path);
        self.documents.insert(i, (id, doc));
        proof {
            assert forall|j: int| 0 <= j < old(self).documents@.len() && j != i implies self.documents@[j] == old(self).documents@[j] by {
                if j < i {
                } else {
                }
            }
            if old(self).wf() {
                Self::lemma_doc_swap_wf(*old(self), *self, i as int);
            }
        }
    }

    /// Opens a prompt for `intent`; a rename starts from the current name.
    /// True when the prompt is a search, which the caller then runs.
    pub fn open_prompt(&mut self, intent: PromptIntent) -> (search: bool)
        ensures
            search == (intent is SearchText || intent is SearchFile),
            prompt_opened(*old(self), *final(self), intent),
    {
        let mut prompt = PromptState::new(intent);
        let name = match &prompt.intent {
            PromptIntent::Rename(path) => crate::paths::file_name_of(path.as_str()),
            _ => None,
        };
        match name {
            Some(n) => prompt.input = n,
            None => {},
        }
        let search = match &prompt.intent {
            PromptIntent::SearchText => true,
            PromptIntent::SearchFile => true,
            _ => false,
        };
        let ghost pv = prompt;
        self.prompt = Some(prompt);
        proof {
            assert(pv.selection_state == ListSelection::new_spec());
            assert(pv.file_results@.len() == 0);
            assert(pv.input@ == match pv.intent {
                PromptIntent::Rename(path) => match crate::paths::path_file_name(path@) {
                    Some(nm) => nm,
                    None => Seq::empty(),
                },
                _ => Seq::<char>::empty(),
            });
        }
        search
    }

    /// The search the open prompt asks for, over the working directory.
    pub fn update_prompt_search(&self) -> (r: Option<SearchRequest>)
        ensures
            match self.prompt {
                Some(p) => match p.intent {
                    PromptIntent::SearchFile => r matches Some(SearchRequest::Files { root, query })
                        && root@ == self.working_dir@ && query@ == p.input@,
                    PromptIntent::SearchText => r matches Some(SearchRequest::Text { root, query })
                        && root@ == self.working_dir@ && query@ == p.input@,
                    _ => r is None,
                },
                None => r is None,
            },
    {
        match &self.prompt {
            Some(p) => match &p.intent {
                PromptIntent::SearchFile => Some(SearchRequest::Files {
                    root: self.working_dir.clone(),
                    query: p.input.clone(),
                }),
                PromptIntent::SearchText => Some(SearchRequest::Text {
                    root: self.working_dir.clone(),
                    query: p.input.clone(),
                }),
                _ => None,
            },
            None => None,
        }
    }

    /// Hands the open prompt the files a search found; the first is selected.
    pub fn set_file_results(&mut self, results: Vec<String>)
        ensures
            match old(self).prompt {
                Some(p) => final(self).prompt matches Some(q)
                    && q.file_results@ == results@
                    && q.selection_state.selected == (if results@.len() > 0 { Some(0usize) } else { None })
                    && q.selection_state.offset == (if results@.len() > 0 { p.selection_state.offset } else { 0 })
                    && q.intent == p.intent && q.input == p.input && q.text_results == p.text_results,
                None => final(self).prompt is None,
            },
            *final(self) == (App { prompt: final(self).prompt, ..*old(self) }),
    {
        match self.prompt.take() {
            Some(mut p) => {
                let any = results.len() > 0;
                p.file_results = results;
                p.selection_state.select(if any { Some(0) } else { None });
                self.prompt = Some(p);
            },
            None => {},
        }
    }

    /// Hands the open prompt the lines a search found; the first is selected.
    pub fn set_text_results(&mut self, results: Vec<WorkspaceTextMatch>)
        ensures
            match old(self).prompt {
                Some(p) => final(self).prompt matches Some(q)
                    && q.text_results@ == results@
                    && q.selection_state.selected == (if results@.len() > 0 { Some(0usize) } else { None })
                    && q.selection_state.offset == (if results@.len() > 0 { p.selection_state.offset } else { 0 })
                    && q.intent == p.intent && q.input == p.input && q.file_results == p.file_results,
                None => final(self).prompt is None,
            },
            *final(self) == (App { prompt: final(self).prompt, ..*old(self) }),
    {
        match self.prompt.take() {
            Some(mut p) => {
                let any = results.len() > 0;
                p.text_results = results;
                p.selection_state.select(if any { Some(0) } else { None });
                self.prompt = Some(p);
            },
            None => {},
        }
    }

    /// Answers the open prompt and closes it.  A save or a rename with an
    /// empty name does nothing (an empty save name says so); otherwise the
    /// result tells the caller what to carry out, and whether to refresh
    /// the git state afterwards.
    pub fn execute_prompt(&mut self) -> (r: (PromptAction, bool))
        ensures
            prompt_answered(*old(self), *final(self), r.0, r.1),
            old(self).wf() ==> final(self).wf(),
    {
        match self.prompt.take() {
            None => (PromptAction::Nothing, false),
            Some(p) => {
                let PromptState { intent, input, selection_state, mut file_results, mut text_results } = p;
                match intent {
                    PromptIntent::SaveAs(dir) => {
                        let name = trim_str(input.as_str());
                        if name.as_str().is_empty() {
                            self.status_msg = Some(String::from_str("No se puede guardar: Nombre vacio"));
                            return (PromptAction::Nothing, false);
                        }
                        let new_path = crate::paths::join_path(dir.as_str(), name.as_str());
                        match self.active_doc_index() {
                            Some(i) => self.set_doc_path(i, new_path),
                            None => {},
                        }
                        (PromptAction::Save, true)
                    },
                    PromptIntent::Rename(from) => {
                        let name = trim_str(input.as_str());
                        if name.as_str().is_empty() {
                            return (PromptAction::Nothing, false);
                        }
                        let to = crate::paths::with_file_name(from.as_str(), name.as_str());
                        (PromptAction::Rename { from, to }, true)
                    },
                    PromptIntent::Delete(path) => {
                        if answer_is_yes(input.as_str()) {
                            (PromptAction::Delete { path }, true)
                        } else {
                            (PromptAction::Nothing, true)
                        }
                    },
                    PromptIntent::SearchText => {
                        match selection_state.selected() {
                            Some(idx) => if idx < text_results.len() {
                                let found = text_results.remove(idx);
                                (PromptAction::OpenMatch { found, query: input }, true)
                            } else {
                                (PromptAction::Nothing, true)
                            },
                            None => (PromptAction::Nothing, true),
                        }
                    },
                    PromptIntent::SearchFile => {
                        match selection_state.selected() {
                            Some(idx) => if idx < file_results.len() {
                                let path = file_results.remove(idx);
                                (PromptAction::Open { path }, true)
                            } else {
                                (PromptAction::Nothing, true)
                            },
                            None => (PromptAction::Nothing, true),
                        }
                    },
                    PromptIntent::ConfirmQuit => {
                        if answer_is_yes(input.as_str()) {
                            self.quit = true;
                        }
                        (PromptAction::Nothing, true)
                    },
                }
            },
        }
    }
}

/// What a key did to an open prompt.
pub enum PromptOutcome {
    Nothing,
    /// The answer changed: the caller reruns the prompt's search.
    Search,
    /// The prompt was answered (see `execute_prompt`).
    Answered(PromptAction, bool),
}

/// Where the selection of a result list of `len` rows goes on Up: up one
/// row, from the first to the last; from none to the first.
pub open spec fn cycle_up(sel: Option<usize>, len: nat) -> usize {
    match sel {
        Some(i) => if i == 0 { (len - 1) as usize } else { (i - 1) as usize },
        None => 0,
    }
}

/// Where it goes on Down: down one row, from the last (or beyond) to the
/// first; from none to the first.
pub open spec fn cycle_down(sel: Option<usize>, len: nat) -> usize {
    match sel {
        Some(i) => if i >= len - 1 { 0 } else { (i + 1) as usize },
        None => 0,
    }
}

/// The rows of the results list that prompt `p` shows.
pub open spec fn result_rows(p: PromptState) -> nat {
    match p.intent {
        PromptIntent::SearchFile => p.file_results@.len(),
        PromptIntent::SearchText => p.text_results@.len(),
        _ => 0,
    }
}

/// `n` is `o` with a prompt open to rename the selected tree entry (not the
/// `..` row), starting from its current name.
pub open spec fn asks_rename(o: App, n: App) -> bool {
    match o.explorer.state.selected {
        Some(k) if k < o.explorer.entries@.len() && o.explorer.entries@[k as int].name@ != seq!['.', '.'] => {
            let e = o.explorer.entries@[k as int];
            &&& n.prompt matches Some(p) && p.intent == PromptIntent::Rename(e.path)
                && p.input@ == match crate::paths::path_file_name(e.path@) {
                    Some(nm) => nm,
                    None => Seq::empty(),
                }
            &&& n == (App { prompt: n.prompt, ..o })
        },
        _ => n == o,
    }
}

/// `n` is `o` with a prompt open to confirm deleting the selected tree entry
/// (not the `..` row).
pub open spec fn asks_delete(o: App, n: App) -> bool {
    match o.explorer.state.selected {
        Some(k) if k < o.explorer.entries@.len() && o.explorer.entries@[k as int].name@ != seq!['.', '.'] => {
            let e = o.explorer.entries@[k as int];
            &&& n.prompt matches Some(p) && p.intent == PromptIntent::Delete(e.path) && p.input@.len() == 0
            &&& n == (App { prompt: n.prompt, ..o })
        },
        _ => n == o,
    }
}

impl App {
    /// A key typed into the open prompt: Esc closes it, Enter answers it,
    /// Up and Down move through the results (wrapping around), a character
    /// is added to the answer and Backspace takes the last one away.
    pub fn handle_prompt_key(&mut self, code: Key) -> (r: PromptOutcome)
        ensures
            match code {
                Key::Esc => *final(self) == (App { prompt: None, ..*old(self) }) && r is Nothing,
                Key::Enter => r is Answered,
                Key::Up | Key::Down => {
                    &&& r is Nothing
                    &&& *final(self) == (App { prompt: final(self).prompt, ..*old(self) })
                    &&& match old(self).prompt {
                        Some(p) => final(self).prompt matches Some(q) && q.intent == p.intent && q.input == p.input
                            && q.file_results == p.file_results && q.text_results == p.text_results
                            && q.selection_state == if result_rows(p) > 0 {
                                (ListSelection {
                                    selected: Some(if code is Up { cycle_up(p.selection_state.selected, result_rows(p)) } else { cycle_down(p.selection_state.selected, result_rows(p)) }),
                                    ..p.selection_state
                                })
                            } else {
                                p.selection_state
                            },
                        None => final(self).prompt is None,
                    }
                },
                Key::Char(c) => {
                    &&& r is Search
                    &&& *final(self) == (App { prompt: final(self).prompt, ..*old(self) })
                    &&& match old(self).prompt {
                        Some(p) => final(self).prompt matches Some(q) && q.input@ == p.input@.push(c) && q.intent == p.intent
                            && q.selection_state == p.selection_state && q.file_results == p.file_results && q.text_results == p.text_results,
                        None => final(self).prompt is None,
                    }
                },
                Key::Backspace => {
                    &&& r is Search
                    &&& *final(self) == (App { prompt: final(self).prompt, ..*old(self) })
                    &&& match old(self).prompt {
                        Some(p) => final(self).prompt matches Some(q)
                            && q.input@ == (if p.input@.len() > 0 { p.input@.drop_last() } else { p.input@ }) && q.intent == p.intent
                            && q.selection_state == p.selection_state && q.file_results == p.file_results && q.text_results == p.text_results,
                        None => final(self).prompt is None,
                    }
                },
                _ => *final(self) == *old(self) && r is Nothing,
            },
            code is Enter ==> (r matches PromptOutcome::Answered(a, g) && prompt_answered(*old(self), *final(self), a, g)),
            old(self).wf() ==> final(self).wf(),
    {
        match code {
            Key::Esc => {
                self.prompt = None;
                PromptOutcome::Nothing
            },
            Key::Enter => {
                let (a, g) = self.execute_prompt();
                PromptOutcome::Answered(a, g)
            },
            Key::Up | Key::Down => {
                match self.prompt.take() {
                    Some(mut p) => {
                        let rows = match p.intent {
                            PromptIntent::SearchFile => p.file_results.len(),
                            PromptIntent::SearchText => p.text_results.len(),
                            _ => 0,
                        };
                        if rows > 0 {
                            let i = match p.selection_state.selected() {
                                Some(i) => if matches!(code, Key::Up) {
                                    if i == 0 { rows - 1 } else { i - 1 }
                                } else {
                                    if i >= rows - 1 { 0 } else { i + 1 }
                                },
                                None => 0,
                            };
                            p.selection_state.select(Some(i));
                        }
                        self.prompt = Some(p);
                    },
                    None => {},
                }
                PromptOutcome::Nothing
            },
            Key::Char(c) => {
                match self.prompt.take() {
                    Some(mut p) => {
                        let mut cs = str_to_chars(p.input.as_str());
                        cs.push(c);
                        p.input = chars_to_string(&cs);
                        self.prompt = Some(p);
                    },
                    None => {},
                }
                PromptOutcome::Search
            },
            Key::Backspace => {
                match self.prompt.take() {
                    Some(mut p) => {
                        let mut cs = str_to_chars(p.input.as_str());
                        if cs.len() > 0 {
                            let _ = cs.pop();
                        }
                        p.input = chars_to_string(&cs);
                        self.prompt = Some(p);
                    },
                    None => {},
                }
                PromptOutcome::Search
            },
            _ => PromptOutcome::Nothing,
        }
    }

    /// Ctrl+S: true when the active document has a path and is to be
    /// written now; a new document asks for a name first.
    pub fn trigger_save(&mut self) -> (save_now: bool)
        ensures
            save_triggered(*old(self), *final(self), save_now),
    {
        match self.active_doc_index() {
            Some(i) => {
                if self.documents[i].1.filepath.is_some() {
                    true
                } else {
                    let dir = self.working_dir.clone();
                    let _ = self.open_prompt(PromptIntent::SaveAs(dir));
                    false
                }
            },
            None => false,
        }
    }

    /// Where the active document is to be written, and its text.
    pub fn save_target(&self) -> (r: Option<(String, String)>)
        ensures
            match self.active_pos() {
                Some(i) => match self.documents@[i].1.filepath {
                    Some(p) => r matches Some((q, t)) && q@ == p@ && t@ == self.documents@[i].1.buffer.text_view(),
                    None => r is None,
                },
                None => r is None,
            },
    {
        match self.active_doc_index() {
            Some(i) => match &self.documents[i].1.filepath {
                Some(p) => Some((p.clone(), self.documents[i].1.buffer.get_full_text())),
                None => None,
            },
            None => None,
        }
    }

    /// Records how writing the active document went (`written` is the
    /// outcome of writing `save_target()`).  True when it was saved: it is
    /// then clean, and the caller reloads the tree and refreshes git.
    pub fn save_file(&mut self, written: Result<(), String>) -> (saved: bool)
        ensures
            match old(self).active_pos() {
                Some(i) => match old(self).documents@[i].1.filepath {
                    Some(_) => match written {
                        Ok(_) => {
                            &&& saved
                            &&& docs_but(old(self).documents@, final(self).documents@, i)
                            &&& final(self).documents@[i].1 == (Document { is_dirty: false, ..old(self).documents@[i].1 })
                            &&& final(self).status_msg matches Some(m) && m@ == "Guardado Exitosamente"@
                            &&& *final(self) == (App { documents: final(self).documents, status_msg: final(self).status_msg, ..*old(self) })
                        },
                        Err(e) => {
                            &&& !saved
                            &&& final(self).status_msg matches Some(m) && m@ == "Error: "@ + e@
                            &&& *final(self) == (App { status_msg: final(self).status_msg, ..*old(self) })
                        },
                    },
                    None => {
                        &&& !saved
                        &&& final(self).status_msg matches Some(m) && m@ == "No hay archivo abierto para guardar"@
                        &&& *final(self) == (App { status_msg: final(self).status_msg, ..*old(self) })
                    },
                },
                None => !saved && *final(self) == *old(self),
            },
            old(self).wf() ==> final(self).wf(),
    {
        match self.active_doc_index() {
            Some(i) => {
                if self.documents[i].1.filepath.is_none() {
                    self.status_msg = Some(String::from_str("No hay archivo abierto para guardar"));
                    return false;
                }
                match written {
                    Ok(_) => {
                        let (id, mut doc) = self.documents.remove(i);
                        doc.is_dirty = false;
                        self.documents.insert(i, (id, doc));
                        proof {
                            assert forall|j: int| 0 <= j < old(self).documents@.len() && j != i implies self.documents@[j] == old(self).documents@[j] by {
                            }
                            if old(self).wf() {
                                Self::lemma_doc_swap_wf(*old(self), *self, i as int);
                            }
                        }
                        self.status_msg = Some(String::from_str("Guardado Exitosamente"));
                        true
                    },
                    Err(e) => {
                        let mut m = String::from_str("Error: ");
                        m.append(e.as_str());
                        self.status_msg = Some(m);
                        false
                    },
                }
            },
            None => false,
        }
    }

    /// Asks to rename the selected tree entry (not the `..` row).
    pub fn trigger_rename(&mut self)
        ensures
            asks_rename(*old(self), *final(self)),
    {
        let path = match self.explorer.get_selected() {
            Some(entry) => {
                let dots = String::from_str("..");
                proof { reveal_strlit(".."); }
                assert(dots@ == seq!['.', '.']);
                let ghost k = self.explorer.state.selected->0;
                assert(*entry == self.explorer.entries@[k as int]);
                if entry.name == dots {
                    return;
                }
                entry.path.clone()
            },
            None => return,
        };
        let _ = self.open_prompt(PromptIntent::Rename(path));
    }

    /// Asks to confirm deleting the selected tree entry (not the `..` row).
    pub fn trigger_delete(&mut self)
        ensures
            asks_delete(*old(self), *final(self)),
    {
        let path = match self.explorer.get_selected() {
            Some(entry) => {
                let dots = String::from_str("..");
                proof { reveal_strlit(".."); }
                assert(dots@ == seq!['.', '.']);
                let ghost k = self.explorer.state.selected->0;
                assert(*entry == self.explorer.entries@[k as int]);
                if entry.name == dots {
                    return;
                }
                entry.path.clone()
            },
            None => return,
        };
        let _ = self.open_prompt(PromptIntent::Delete(path));
    }
}

/// The first index holding `x`.
pub open spec fn is_value(x: usize) -> spec_fn(usize) -> bool {
    |y: usize| y == x
}

fn position_of(v: &Vec<usize>, x: usize) -> (r: Option<usize>)
    ensures
        match r {
            Some(i) => first_where(v@, is_value(x)) == Some(i as int),
            None => first_where(v@, is_value(x)) is None,
        },
{
    let mut i: usize = 0;
    while i < v.len()
        invariant
            i <= v@.len(),
            forall|j: int| 0 <= j < i ==> !is_value(x)(#[trigger] v@[j]),
        decreases v.len() - i,
    {
        if v[i] == x {
            proof { lemma_first_where_some(v@, is_value(x), i as int); }
            return Some(i);
        }
        i = i + 1;
    }
    proof { lemma_first_where_none(v@, is_value(x)); }
    None
}

/// The status line after jumping to result `i` (from 0) of `n`.
pub open spec fn match_status(i: nat, n: nat) -> Seq<char> {
    "Coincidencia "@ + crate::strs::decimal(i + 1) + seq!['/'] + crate::strs::decimal(n)
}

pub open spec fn min_nat(a: int, b: int) -> int {
    if a <= b { a } else { b }
}

impl App {
    /// Records the outcome of renaming `from` to `to`.  On success the
    /// active document, if it was that file, follows it, and the caller
    /// reloads the tree (the result is true).
    pub fn finish_rename(&mut self, from: &str, to: String, ok: bool) -> (reload: bool)
        ensures
            reload == ok,
            ok ==> {
                &&& final(self).status_msg matches Some(m) && m@ == "Renombrado exitosamente"@
                &&& match old(self).active_pos() {
                    Some(i) if old(self).documents@[i].1.filepath matches Some(f) && same_path(f@, from@) => {
                        &&& docs_but(old(self).documents@, final(self).documents@, i)
                        &&& with_path(old(self).documents@[i].1, final(self).documents@[i].1, to@)
                    },
                    _ => final(self).documents == old(self).documents,
                }
                &&& *final(self) == (App { documents: final(self).documents, status_msg: final(self).status_msg, ..*old(self) })
            },
            !ok ==> {
                &&& final(self).status_msg matches Some(m) && m@ == "Error al renombrar"@
                &&& *final(self) == (App { status_msg: final(self).status_msg, ..*old(self) })
            },
            old(self).wf() ==> final(self).wf(),
    {
        if ok {
            self.status_msg = Some(String::from_str("Renombrado exitosamente"));
            match self.active_doc_index() {
                Some(i) => {
                    let same = match &self.documents[i].1.filepath {
                        Some(f) => paths_equal(f.as_str(), from),
                        None => false,
                    };
                    if same {
                        self.set_doc_path(i, to);
                    }
                },
                None => {},
            }
            true
        } else {
            self.status_msg = Some(String::from_str("Error al renombrar"));
            false
        }
    }

    /// Records the outcome of deleting `path`.  On success the window of
    /// the active document closes if it was that file, and the caller
    /// reloads the tree (the result is true).
    pub fn finish_delete(&mut self, path: &str, ok: bool) -> (reload: bool)
        ensures
            reload == ok,
            ok ==> {
                let o = App { status_msg: final(self).status_msg, ..*old(self) };
                &&& final(self).status_msg matches Some(m) && m@ == "Eliminado exitosamente"@
                &&& match old(self).active_pos() {
                    Some(i) if old(self).documents@[i].1.filepath matches Some(f) && same_path(f@, path@) => closes_active(o, *final(self)),
                    _ => *final(self) == o,
                }
            },
            !ok ==> {
                &&& final(self).status_msg matches Some(m) && m@ == "Error al eliminar"@
                &&& *final(self) == (App { status_msg: final(self).status_msg, ..*old(self) })
            },
            old(self).wf() ==> final(self).wf(),
    {
        if ok {
            self.status_msg = Some(String::from_str("Eliminado exitosamente"));
            let close = match self.active_doc_index() {
                Some(i) => match &self.documents[i].1.filepath {
                    Some(f) => paths_equal(f.as_str(), path),
                    None => false,
                },
                None => false,
            };
            if close {
                self.close_active_window();
            }
            true
        } else {
            self.status_msg = Some(String::from_str("Error al eliminar"));
            false
        }
    }
}

impl App {
    /// `m` can be jumped to in the active document: its line exists and the
    /// positions reached stay inside a `usize`.
    pub open spec fn match_fits(&self, m: WorkspaceTextMatch, query: Seq<char>) -> bool {
        match self.active_pos() {
            Some(i) => {
                let t = self.documents@[i].1.buffer.text_view();
                &&& m.line_idx <= crate::text::num_lines(t)
                &&& crate::text::line_start(t, m.line_idx as nat) + m.char_offset <= usize::MAX
                &&& t.len() + query.len() <= usize::MAX
            },
            None => true,
        }
    }

    /// After a text search's file is open: puts the cursor on the match
    /// (at most at the end of the text) with the query's length selected
    /// after it, and makes the query's occurrences in the document the
    /// results that Next steps through, starting from the one at the cursor.
    pub fn jump_to_text_match(&mut self, m: &WorkspaceTextMatch, query: String)
        requires
            old(self).match_fits(*m, query@),
        ensures
            final(self).last_search_query == Some(query),
            !final(self).show_tree,
            match old(self).active_pos() {
                Some(i) => {
                    let b0 = old(self).documents@[i].1.buffer;
                    let b = final(self).documents@[i].1.buffer;
                    let t = b0.text_view();
                    let cur = min_nat(crate::text::line_start(t, m.line_idx as nat) + m.char_offset, t.len() as int);
                    let found = if query@.len() == 0 { Seq::<int>::empty() } else { crate::editor::find_in_lines(t, query@, 0) };
                    &&& docs_but(old(self).documents@, final(self).documents@, i)
                    &&& final(self).documents@[i].1 == (Document { buffer: b, ..old(self).documents@[i].1 })
                    &&& b == (EditorBuffer {
                        cursor_char_idx: cur as usize,
                        selection_anchor: Some(min_nat(cur + query@.len(), t.len() as int) as usize),
                        ..b0
                    })
                    &&& final(self).text_search_results@.map_values(|x: usize| x as int) == found
                    &&& final(self).current_search_idx == match first_where(final(self).text_search_results@, is_value(cur as usize)) {
                        Some(k) => k as usize,
                        None => 0usize,
                    }
                },
                None => final(self).text_search_results@.len() == 0 && final(self).current_search_idx == 0,
            },
            *final(self) == (App {
                documents: final(self).documents,
                last_search_query: final(self).last_search_query,
                text_search_results: final(self).text_search_results,
                current_search_idx: final(self).current_search_idx,
                show_tree: false,
                ..*old(self)
            }),
            old(self).wf() ==> final(self).wf(),
    {
        let mut results: Vec<usize> = Vec::new();
        let mut current: usize = 0;
        match self.active_doc_index() {
            Some(i) => {
                let ghost o = *self;
                let (id, mut doc) = self.documents.remove(i);
                let max_len = crate::text::rope_len_chars(&doc.buffer.text);
                let target = crate::text::rope_line_to_char(&doc.buffer.text, m.line_idx) + m.char_offset;
                let cur = if target < max_len { target } else { max_len };
                let qlen = str_to_chars(query.as_str()).len();
                doc.buffer.cursor_char_idx = cur;
                let end = if cur + qlen < max_len { cur + qlen } else { max_len };
                doc.buffer.selection_anchor = Some(end);
                results = doc.buffer.find_text(query.as_str());
                current = match position_of(&results, cur) {
                    Some(k) => k,
                    None => 0,
                };
                self.documents.insert(i, (id, doc));
                proof {
                    assert forall|j: int| 0 <= j < o.documents@.len() && j != i implies self.documents@[j] == o.documents@[j] by {
                    }
                    if o.wf() {
                        Self::lemma_doc_swap_wf(o, *self, i as int);
                    }
                }
            },
            None => {},
        }
        self.last_search_query = Some(query);
        self.text_search_results = results;
        self.current_search_idx = current;
        self.show_tree = false;
    }
}

/// The length of the last search query, 0 without one.
pub open spec fn query_len(q: Option<String>) -> nat {
    match q {
        Some(s) => s@.len(),
        None => 0,
    }
}

/// `n` is `o` after showing its current search result (see
/// `jump_to_search_result`).
pub open spec fn jumps_to_result(o: App, n: App) -> bool {
    let rs = o.text_search_results@;
    let k = o.current_search_idx;
    if rs.len() == 0 {
        n == o
    } else {
        let c = rs[k as int];
        let q = query_len(o.last_search_query);
        let shown = (App { show_tree: false, status_msg: n.status_msg, ..o });
        match o.active_pos() {
            Some(i) => {
                let b0 = o.documents@[i].1.buffer;
                let len = b0.text_view().len();
                if c >= len {
                    n == o
                } else {
                    &&& n.status_msg matches Some(m) && m@ == match_status(k as nat, rs.len())
                    &&& docs_but(o.documents@, n.documents@, i)
                    &&& n.documents@[i].1 == (Document {
                        buffer: (EditorBuffer {
                            cursor_char_idx: c,
                            selection_anchor: if q > 0 { Some(min_nat(c + q, len as int) as usize) } else { b0.selection_anchor },
                            ..b0
                        }),
                        ..o.documents@[i].1
                    })
                    &&& n == (App { documents: n.documents, ..shown })
                }
            },
            None => {
                &&& n.status_msg matches Some(m) && m@ == match_status(k as nat, rs.len())
                &&& n == shown
            },
        }
    }
}

impl App {
    /// Shows the current search result: the cursor goes to it with the
    /// query's length selected after it, and the status line tells which
    /// result of how many it is.  A result past the end of the active
    /// document changes nothing.
    pub fn jump_to_search_result(&mut self)
        requires
            old(self).wf(),
            match old(self).active_pos() {
                Some(i) => old(self).documents@[i].1.buffer.text_view().len() + query_len(old(self).last_search_query) <= usize::MAX,
                None => true,
            },
        ensures
            final(self).wf(),
            jumps_to_result(*old(self), *final(self)),
    {
        if self.text_search_results.len() == 0 {
            return;
        }
        let char_idx = self.text_search_results[self.current_search_idx];
        let q = match &self.last_search_query {
            Some(s) => str_to_chars(s.as_str()).len(),
            None => 0,
        };
        match self.active_doc_index() {
            Some(i) => {
                let n = crate::text::rope_len_chars(&self.documents[i].1.buffer.text);
                if char_idx >= n {
                    return;
                }
                let ghost o = *self;
                let (id, mut doc) = self.documents.remove(i);
                doc.buffer.cursor_char_idx = char_idx;
                if q > 0 {
                    let end = if char_idx + q < n { char_idx + q } else { n };
                    doc.buffer.selection_anchor = Some(end);
                }
                self.documents.insert(i, (id, doc));
                proof {
                    assert forall|j: int| 0 <= j < o.documents@.len() && j != i implies self.documents@[j] == o.documents@[j] by {
                    }
                    Self::lemma_doc_swap_wf(o, *self, i as int);
                }
            },
            None => {},
        }
        self.show_tree = false;
        let mut msg = String::from_str("Coincidencia ");
        let a = crate::strs::decimal_string(self.current_search_idx + 1);
        let b = crate::strs::decimal_string(self.text_search_results.len());
        msg.append(a.as_str());
        msg.append("/");
        msg.append(b.as_str());
        proof {
            reveal_strlit("/");
            assert(msg@ =~= match_status(self.current_search_idx as nat, self.text_search_results@.len()));
        }
        self.status_msg = Some(msg);
    }

    /// F3: steps to the next search result, from the last back to the first.
    pub fn nex_search_result(&mut self)
        requires
            old(self).wf(),
            match old(self).active_pos() {
                Some(i) => old(self).documents@[i].1.buffer.text_view().len() + query_len(old(self).last_search_query) <= usize::MAX,
                None => true,
            },
        ensures
            final(self).wf(),
            old(self).text_search_results@.len() == 0 ==> *final(self) == *old(self),
            old(self).text_search_results@.len() > 0 ==> jumps_to_result(
                (App {
                    current_search_idx: ((old(self).current_search_idx + 1) % (old(self).text_search_results@.len() as int)) as usize,
                    ..*old(self)
                }),
                *final(self),
            ),
    {
        if self.text_search_results.len() > 0 {
            self.current_search_idx = (self.current_search_idx + 1) % self.text_search_results.len();
            self.jump_to_search_result();
        }
    }
}

impl App {
    /// Pasted text goes into the open prompt's answer; true when there is a
    /// prompt, whose search the caller then reruns.
    pub fn paste_into_prompt(&mut self, text: &str) -> (search: bool)
        ensures
            search == old(self).prompt is Some,
            match old(self).prompt {
                Some(p) => final(self).prompt matches Some(q) && q.input@ == p.input@ + text@ && q.intent == p.intent
                    && q.selection_state == p.selection_state && q.file_results == p.file_results && q.text_results == p.text_results,
                None => final(self).prompt is None,
            },
            *final(self) == (App { prompt: final(self).prompt, ..*old(self) }),
    {
        match self.prompt.take() {
            Some(mut p) => {
                p.input.append(text);
                self.prompt = Some(p);
                true
            },
            None => false,
        }
    }

    /// A file open in the editor, at `path`, has unsaved changes.
    pub open spec fn dirty_on(&self, path: Seq<char>) -> bool {
        exists|j: int| 0 <= j < self.documents@.len() && doc_on(path)(#[trigger] self.documents@[j]) && self.documents@[j].1.is_dirty
    }

    /// Whether the tree row `k` is a file with unsaved changes open.
    pub fn entry_dirty(&self, k: usize) -> (r: bool)
        requires
            k < self.explorer.entries@.len(),
        ensures
            r == (!self.explorer.entries@[k as int].is_dir && self.dirty_on(self.explorer.entries@[k as int].path@)),
    {
        let e = &self.explorer.entries[k];
        if e.is_dir {
            return false;
        }
        let mut j: usize = 0;
        while j < self.documents.len()
            invariant
                j <= self.documents@.len(),
                k < self.explorer.entries@.len(),
                *e == self.explorer.entries@[k as int],
                !e.is_dir,
                forall|q: int| 0 <= q < j ==> !(doc_on(e.path@)(#[trigger] self.documents@[q]) && self.documents@[q].1.is_dirty),
            decreases self.documents.len() - j,
        {
            let hit = match &self.documents[j].1.filepath {
                Some(f) => paths_equal(f.as_str(), e.path.as_str()),
                None => false,
            };
            if hit && self.documents[j].1.is_dirty {
                proof {
                    assert(doc_on(e.path@)(self.documents@[j as int]));
                }
                return true;
            }
            j = j + 1;
        }
        false
    }
}

/// Showing and then hiding the file tree (or the reverse) leaves it as it
/// was; all else is as before but the focus, which ends on the active window
/// or the tree, and the welcome screen when no window is open.
pub proof fn law_toggle_tree_twice(o: App, m: App, n: App)
    requires
        tree_toggled(o, m),
        tree_toggled(m, n),
    ensures
        n.show_tree == o.show_tree,
        !o.show_tree && o.windows@.len() > 0 ==> n == (App { focus: Focus::Window(o.active_window), ..o }),
        !o.show_tree && o.windows@.len() == 0 ==> n == (App { focus: Focus::Tree, state: AppState::Intro, ..o }),
        o.show_tree ==> n == (App {
            focus: Focus::Tree,
            state: if o.windows@.len() == 0 { AppState::Intro } else { o.state },
            ..o
        }),
{
}

/// The layout after a split of window `active` into `active` and `new` holds
/// the old leaves and `new`.
proof fn lemma_split_leaves(l0: SplitNode, active: usize, new_id: usize, dir: Direction, x: usize)
    requires
        leaves(l0).contains(active),
    ensures
        leaves(replaced(l0, active, SplitNode::Split(dir, Box::new(SplitNode::Leaf(active)), Box::new(SplitNode::Leaf(new_id)))))
            .contains(x) <==> (leaves(l0).contains(x) || x == new_id),
{
    let pv = SplitNode::Split(dir, Box::new(SplitNode::Leaf(active)), Box::new(SplitNode::Leaf(new_id)));
    law_replace_leaf_splices(l0, active, pv);
    let i = choose|i: int|
        0 <= i < leaves(l0).len() && leaves(l0)[i] == active && (forall|j: int| 0 <= j < i ==> leaves(l0)[j] != active)
            && leaves(replaced(l0, active, pv)) == leaves(l0).take(i) + leaves(pv) + leaves(l0).skip(i + 1);
    assert(leaves(SplitNode::Leaf(active)) == seq![active]);
    assert(leaves(SplitNode::Leaf(new_id)) == seq![new_id]);
    assert(leaves(pv) =~= seq![active, new_id]);
    assert(leaves(pv)[0] == active);
    assert(leaves(pv)[1] == new_id);
    lemma_splice_contains(leaves(l0), i, leaves(pv), x);
    if leaves(pv).contains(x) {
        let k = choose|k: int| 0 <= k < 2 && leaves(pv)[k] == x;
    }
}

/// Closing the window a split just made gives back the windows there were,
/// and a layout with the same windows.
pub proof fn law_split_then_close(o: App, m: App, n: App, dir: Direction)
    requires
        o.wf(),
        o.focus is Window,
        splits(o, m, dir),
        closes_active(m, n),
    ensures
        n.windows@ == o.windows@,
        forall|x: usize| #[trigger] leaves(n.layout).contains(x) <==> leaves(o.layout).contains(x),
{
    let active = o.focus->0;
    assert(o.win_ids().contains(active));
    let k = choose|k: int| 0 <= k < o.win_ids().len() && o.win_ids()[k] == active;
    lemma_first_where_found(o.windows@, win_has(active), k);
    let w = o.win_pos(active)->0;
    let new_id = o.next_window_id;
    let ws = m.windows@;
    assert(ws.len() == o.windows@.len() + 1);
    assert forall|j: int| 0 <= j < o.windows@.len() implies !win_has(new_id)(ws[j]) by {
        assert(ws[j] == o.windows@[j]);
        assert(o.windows@[j].id < o.next_window_id);
    }
    assert(is_first(ws, win_has(new_id), o.windows@.len() as int));
    lemma_first_where_some(ws, win_has(new_id), o.windows@.len() as int);
    assert(ws.remove(o.windows@.len() as int) =~= o.windows@);
    assert(leaves(o.layout).contains(active));
    assert(!leaves(o.layout).contains(new_id)) by {
        if leaves(o.layout).contains(new_id) {
            assert(o.win_ids().contains(new_id));
            let q = choose|q: int| 0 <= q < o.win_ids().len() && o.win_ids()[q] == new_id;
            assert(o.windows@[q].id < o.next_window_id);
        }
    }
    lemma_split_leaves(o.layout, active, new_id, dir, active);
    lemma_removed_contains(m.layout, new_id, active);
    assert(removed(m.layout, new_id) is Some);
    assert forall|x: usize| #[trigger] leaves(n.layout).contains(x) <==> leaves(o.layout).contains(x) by {
        lemma_split_leaves(o.layout, active, new_id, dir, x);
        lemma_removed_contains(m.layout, new_id, x);
    }
}

/// Closing the window a new blank file just opened in gives back the
/// windows there were, and, when there were any, a layout with the same windows.
pub proof fn law_blank_then_close(o: App, m: App, n: App)
    requires
        o.wf(),
        opens_blank(o, m),
        closes_active(m, n),
    ensures
        n.windows@ == o.windows@,
        o.windows@.len() > 0 ==> forall|x: usize| #[trigger] leaves(n.layout).contains(x) <==> leaves(o.layout).contains(x),
{
    let new_id = o.next_window_id;
    let ws = m.windows@;
    assert forall|j: int| 0 <= j < o.windows@.len() implies !win_has(new_id)(ws[j]) by {
        assert(ws[j] == o.windows@[j]);
        assert(o.windows@[j].id < o.next_window_id);
    }
    assert(is_first(ws, win_has(new_id), o.windows@.len() as int));
    lemma_first_where_some(ws, win_has(new_id), o.windows@.len() as int);
    assert(ws.remove(o.windows@.len() as int) =~= o.windows@);
    if o.windows@.len() == 0 {
        assert(leaves(m.layout) == seq![new_id]);
        lemma_removed_contains(m.layout, new_id, new_id);
        if removed(m.layout, new_id) is Some {
            lemma_leaves_nonempty(removed(m.layout, new_id)->0);
            let y = leaves_of(removed(m.layout, new_id))[0];
            lemma_removed_contains(m.layout, new_id, y);
            assert(leaves(m.layout).contains(y));
            let q = choose|q: int| 0 <= q < 1 && leaves(m.layout)[q] == y;
        }
    } else {
        let active = o.active_window;
        assert(leaves(o.layout).contains(active));
        assert(!leaves(o.layout).contains(new_id)) by {
            if leaves(o.layout).contains(new_id) {
                assert(o.win_ids().contains(new_id));
                let q = choose|q: int| 0 <= q < o.win_ids().len() && o.win_ids()[q] == new_id;
                assert(o.windows@[q].id < o.next_window_id);
            }
        }
        lemma_split_leaves(o.layout, active, new_id, Direction::Horizontal, active);
        lemma_removed_contains(m.layout, new_id, active);
        assert(removed(m.layout, new_id) is Some);
        assert forall|x: usize| #[trigger] leaves(n.layout).contains(x) <==> leaves(o.layout).contains(x) by {
            lemma_split_leaves(o.layout, active, new_id, Direction::Horizontal, x);
            lemma_removed_contains(m.layout, new_id, x);
        }
    }
}

} // verus!

