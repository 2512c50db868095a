# editor_core

A small text editor whose core is verified with Verus.

- `src/` — the library, every function proved against its contract:
  - `piece_table` — the piece-table buffer, modelled as a byte sequence;
  - `history` — undo/redo with coalescing of typed characters and a bound;
  - `document` — buffer, cursor, history and file metadata, modelled by
    `DocView`; loading (BOM, line endings) and the bytes written on save;
  - `layout`, `text` — the line and cursor model and cursor motions;
  - `undo_chain` — laws: undo and redo cancel out, edits and motions keep
    every recorded edit undoable (and every undone edit redoable), undoing
    everything gives the loaded text;
  - `tui`, `screen` — the terminal editor's modes, keys, colon commands,
    scrolling, and what each part of the screen shows;
  - `gui` — the graphical editor's keyboard and text input;
  - `buffer`, `display`, `cursor`, `error` — read-only buffer and helpers;
  - `conversions` — the standard-library calls taken on trust.
- `app/` — the terminal program: terminal I/O with crossterm and ratatui,
  files, logging. There is no graphical program here: the windowing and
  file-dialog crates it would need are not among this project's
  dependencies, so `gui` and the click and jump methods of `Document` are
  exercised by the tests only.
- `tests/` — tests run against the compiled library.
