# wyvern

A terminal text editor whose core is verified with Verus.

- `src/` is the library, verified: the rope-backed editing buffer with
  grouped undo/redo (`editor`, `history`, `text`), the split-window tree
  (`layout`), the workspace state and what each key, action and mouse event
  does to it (`app`, `keys`), the file tree and the project searches
  (`explorer`), git diff and status parsing (`git`), the language-server
  framing, the reading of each message body and what the editor does with
  it, the completion menu (`lsp`), how each line of text is laid out in
  cells (`line_view`), and the labels, marks and highlights the screen
  shows (`ui`).  Handlers hand back the
  outside work they need (writing a file, talking to the language server,
  the clipboard) as values.
- `app/` is the terminal program around it: the event loop, drawing with
  ratatui, the language-server process, the file system, git and the
  clipboard.
- `tests/` exercises the library on concrete values.
