# ti

A small modal text editor for the terminal, in the manner of vi, whose
editing logic is verified with Verus.

- `src/` is the library. Each public function states in its contract what it
  does, over a mathematical model: a document is a sequence of lines of
  characters, its text is the lines joined by line breaks, and a position is
  a row and a column counted in bytes of the line's UTF-8 encoding, as
  `String` indexes it.
  - `document`: the lines of a file, insertion and deletion of text, and the
    laws that tie them to the text (an insertion puts the text at the
    position's offset, a deletion cuts the text between two offsets, and
    each undoes the other).
  - `motion`: word motions (`w`, `b`, `e`) over the text.
  - `cursor`, `viewport`, `undo`: the cursor and its moves, what the
    terminal shows, and the bounded history of snapshots.
  - `app`: the editor's state and its key bindings; `App::handle_input`
    takes one key and tells the caller what to do next (go on, quit, save,
    or read one more key).
  - `render_buffer`: the grid drawn on the terminal, the cells that changed
    between two grids, and the control sequences that redraw them.
  - `screen`, `screen_sync`, `grid_lines`, `context`: two simpler editors,
    one that keeps the text on a screen-sized grid (its editing operations,
    the highlighting and syncing of its two grids, and what laying a text
    out and saving it give, line by line) and one that moves the terminal's
    cursor directly.
  - `columns`: byte columns and the characters before them.
  - `text`, `error`: the model of text and conversions between `String`
    and characters, and the editor's error.
- `tests/` runs the library on concrete values.
- `app/` is the program: it reads the file and the keys, sets the terminal
  up, draws, and writes the file back when asked.
