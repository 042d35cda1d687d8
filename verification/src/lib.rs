//! Core of a terminal text editor: a rope-backed editing buffer with grouped
//! undo/redo, a tree of split windows, workspace bookkeeping and the small
//! text protocols (git diffs, language-server framing) the editor speaks.

pub mod text;
pub mod strs;
pub mod history;
pub mod editor;
pub mod layout;
pub mod paths;
pub mod git;
pub mod explorer;
pub mod app;
pub mod keys;
pub mod lsp;
pub mod ui;
pub mod line_view;
