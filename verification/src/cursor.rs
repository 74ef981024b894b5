//! The cursor: a row and a column of the document, and its moves.
use vstd::prelude::*;

use crate::app::Mode;
use crate::columns::byte_len;
use crate::document::{col_limit, row_limit, Document, Pos};
use crate::text::{decimal, push_char, push_decimal};
use crate::viewport::Viewport;

verus! {

/// The terminal's code for a block cursor.
pub const CURSOR_BLOCK: usize = 2;

/// The terminal's code for an underline cursor.
pub const CURSOR_UNDERLINE: usize = 4;

/// The terminal's code for a bar cursor.
pub const CURSOR_BAR: usize = 6;

/// Where the cursor stands.
#[derive(Copy, Clone, PartialEq, Eq, Structural, Debug)]
pub struct Cursor {
    pub row: usize,
    pub col: usize,
}

/// The smaller of two integers.
pub open spec fn min_int(a: int, b: int) -> int {
    if a <= b {
        a
    } else {
        b
    }
}

/// The terminal's cursor shape for a mode.
pub open spec fn cursor_shape(mode: Mode) -> nat {
    match mode {
        Mode::Normal | Mode::Visual(_) => CURSOR_BLOCK as nat,
        Mode::Replace | Mode::Delete => CURSOR_UNDERLINE as nat,
        Mode::Insert => CURSOR_BAR as nat,
    }
}

/// The control sequence that moves the terminal's cursor to `row` and `col`
/// (both counted from 1) and sets its shape.
pub open spec fn placement(row: nat, col: nat, shape: nat) -> Seq<char> {
    seq!['\x1b', '['] + decimal(row) + seq![';'] + decimal(col) + seq!['H', '\x1b', '['] + decimal(
        shape,
    ) + seq![' ', 'q']
}

/// `col` is the first character of `line` that is not a space, or 0 when
/// there is none.
pub open spec fn first_non_blank(line: Seq<char>, col: int) -> bool {
    ||| (0 <= col < line.len() && line[col] != ' ' && forall|i: int|
        0 <= i < col ==> line[i] == ' ')
    ||| (col == 0 && forall|i: int| 0 <= i < line.len() ==> line[i] == ' ')
}

impl Cursor {
    /// The cursor at the first column of the first row.
    pub fn new() -> (c: Cursor)
        ensures
            c.row == 0 && c.col == 0,
    {
        Cursor { row: 0, col: 0 }
    }

    /// The control sequence that shows this cursor on the terminal: its
    /// place relative to the viewport, its column held to the line, and the
    /// shape of `mode`.
    pub fn build(&self, doc: &Document, viewport: &Viewport, mode: Mode) -> (res: String)
        requires
            self.row < doc@.len(),
            viewport.top_row <= self.row,
            viewport.left_column <= min_int(
                self.col as int,
                col_limit(byte_len(doc@[self.row as int]), mode),
            ),
            min_int(self.col as int, col_limit(byte_len(doc@[self.row as int]), mode))
                - viewport.left_column < usize::MAX,
        ensures
            res@ == placement(
                (self.row - viewport.top_row + 1) as nat,
                (min_int(self.col as int, col_limit(byte_len(doc@[self.row as int]), mode))
                    - viewport.left_column + 1) as nat,
                cursor_shape(mode),
            ),
    {
        assert(self.row < doc.lines.len());
        let bound = doc.col_bound(self.row, mode);
        let col = if self.col < bound {
            self.col
        } else {
            bound
        };
        let mut building = String::new();
        push_char(&mut building, '\x1b');
        push_char(&mut building, '[');
        push_decimal(&mut building, self.row - viewport.top_row + 1);
        push_char(&mut building, ';');
        push_decimal(&mut building, col - viewport.left_column + 1);
        push_char(&mut building, 'H');
        let shape = match mode {
            Mode::Normal | Mode::Visual(_) => CURSOR_BLOCK,
            Mode::Replace | Mode::Delete => CURSOR_UNDERLINE,
            Mode::Insert => CURSOR_BAR,
        };
        push_char(&mut building, '\x1b');
        push_char(&mut building, '[');
        push_decimal(&mut building, shape);
        push_char(&mut building, ' ');
        push_char(&mut building, 'q');
        assert(building@ =~= placement(
            (self.row - viewport.top_row + 1) as nat,
            (col - viewport.left_column + 1) as nat,
            cursor_shape(mode),
        ));
        building
    }

    /// Holds the column to the last one that `mode` allows on the cursor's line.
    pub fn bound_col(&mut self, doc: &Document, mode: Mode) -> (res: &mut Self)
        requires
            old(self).row < doc@.len(),
        ensures
            *res == (Cursor {
                row: old(self).row,
                col: min_int(
                    old(self).col as int,
                    col_limit(byte_len(doc@[old(self).row as int]), mode),
                ) as usize,
            }),
            *final(self) == *final(res),
    {
        let bound = doc.col_bound(self.row, mode);
        if self.col > bound {
            self.col = bound;
        }
        self
    }

    /// Holds the row to the last one the document allows.
    pub fn bound_row(&mut self, doc: &Document) -> (res: &mut Self)
        ensures
            *res == (Cursor {
                row: min_int(old(self).row as int, row_limit(doc@.len() as int)) as usize,
                col: old(self).col,
            }),
            *final(self) == *final(res),
    {
        let bound = doc.row_bound();
        if self.row > bound {
            self.row = bound;
        }
        self
    }

    /// Moves one column left, unless on the first column.
    pub fn left(&mut self) -> (res: &mut Self)
        ensures
            *res == (Cursor {
                row: old(self).row,
                col: if old(self).col > 0 {
                    (old(self).col - 1) as usize
                } else {
                    0
                },
            }),
            *final(self) == *final(res),
    {
        if self.col > 0 {
            self.col -= 1;
        }
        self
    }

    /// Moves one column right, held to the line.
    pub fn right(&mut self, doc: &Document, mode: Mode) -> (res: &mut Self)
        requires
            old(self).row < doc@.len(),
            old(self).col < usize::MAX,
        ensures
            *res == (Cursor {
                row: old(self).row,
                col: min_int(
                    old(self).col + 1,
                    col_limit(byte_len(doc@[old(self).row as int]), mode),
                ) as usize,
            }),
            *final(self) == *final(res),
    {
        self.col += 1;
        self.bound_col(doc, mode)
    }

    /// Moves one row down, held to the document.
    pub fn down(&mut self, doc: &Document) -> (res: &mut Self)
        requires
            old(self).row < usize::MAX,
        ensures
            *res == (Cursor {
                row: min_int(old(self).row + 1, row_limit(doc@.len() as int)) as usize,
                col: old(self).col,
            }),
            *final(self) == *final(res),
    {
        self.row += 1;
        self.bound_row(doc)
    }

    /// Moves one row up, unless on the first row.
    pub fn up(&mut self) -> (res: &mut Self)
        ensures
            *res == (Cursor {
                row: if old(self).row > 0 {
                    (old(self).row - 1) as usize
                } else {
                    0
                },
                col: old(self).col,
            }),
            *final(self) == *final(res),
    {
        if self.row > 0 {
            self.row -= 1;
        }
        self
    }

    /// Moves to the first row.
    pub fn go_to_first_line(&mut self) -> (res: &mut Self)
        ensures
            *res == (Cursor { row: 0, col: old(self).col }),
            *final(self) == *final(res),
    {
        self.row = 0;
        self
    }

    /// Moves to the last character of the last row the cursor may take.
    pub fn go_to_last_char(&mut self, doc: &Document) -> (res: &mut Self)
        requires
            doc@.len() > 0,
        ensures
            *res == (Cursor {
                row: row_limit(doc@.len() as int) as usize,
                col: col_limit(
                    byte_len(doc@[row_limit(doc@.len() as int)]),
                    Mode::Normal,
                ) as usize,
            }),
            *final(self) == *final(res),
    {
        self.row = doc.row_bound();
        self.col = doc.col_bound(self.row, Mode::Normal);
        self
    }

    /// Moves to the first character of the line that is not a space.
    pub fn go_to_start_of_line(&mut self, doc: &Document) -> (res: &mut Self)
        requires
            old(self).row < doc@.len(),
        ensures
            res.row == old(self).row,
            first_non_blank(doc@[old(self).row as int], res.col as int),
            *final(self) == *final(res),
    {
        let line = crate::text::line_chars(&doc.lines[self.row]);
        let mut i: usize = 0;
        while i < line.len() && line[i] == ' '
            invariant
                i <= line.len(),
                forall|j: int| 0 <= j < i ==> line@[j] == ' ',
            decreases line.len() - i,
        {
            i += 1;
        }
        self.col = if i < line.len() {
            i
        } else {
            0
        };
        self
    }

    /// Moves to the last column that `mode` allows on the cursor's line.
    pub fn go_to_end_of_line(&mut self, doc: &Document, mode: Mode) -> (res: &mut Self)
        requires
            old(self).row < doc@.len(),
        ensures
            *res == (Cursor {
                row: old(self).row,
                col: col_limit(byte_len(doc@[old(self).row as int]), mode) as usize,
            }),
            *final(self) == *final(res),
    {
        self.col = doc.col_bound(self.row, mode);
        self
    }

    /// The cursor's position.
    pub fn to_pos(&self) -> (p: Pos)
        ensures
            p == (Pos { row: self.row, col: self.col }),
    {
        Pos { row: self.row, col: self.col }
    }

    /// Moves to `pos`.
    pub fn go_to_pos(&mut self, pos: Pos) -> (res: &mut Self)
        ensures
            *res == (Cursor { row: pos.row, col: pos.col }),
            *final(self) == *final(res),
    {
        self.row = pos.row;
        self.col = pos.col;
        self
    }
}

} // verus!
