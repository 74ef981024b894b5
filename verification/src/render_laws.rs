//! What the grid shows, stated over the document, the mode and the cursor:
//! which cells are highlighted, what lands in each cell, and how a cell is
//! colored.
use vstd::prelude::*;

use crate::app::{App, Mode};
use crate::cursor::Cursor;
use crate::document;
use crate::render_buffer::{drawn, highlighted, rendered, style_code, visible, Cell};

verus! {

/// The place (`pr`, `pc`) comes at or before (`qr`, `qc`): on an earlier
/// row, or on the same row at a column that is not greater.
pub open spec fn at_or_before(pr: int, pc: int, qr: int, qc: int) -> bool {
    pr < qr || (pr == qr && pc <= qc)
}

/// In Visual mode a drawn cell is highlighted exactly when its place (the
/// document row of its shown row, and its shown column) lies between the
/// landmark and the cursor, both included, whichever of the two comes
/// first; in every other mode no cell is highlighted.
pub proof fn law_drawn_highlight(a: App, r: int, c: int)
    ensures
        drawn(a, r, c).highlight == match a.mode {
            Mode::Visual(l) => {
                let pr = a.viewport.top_row + r;
                ||| at_or_before(l.row as int, l.col as int, pr, c) && at_or_before(
                    pr,
                    c,
                    a.cursor.row as int,
                    a.cursor.col as int,
                )
                ||| at_or_before(a.cursor.row as int, a.cursor.col as int, pr, c)
                    && at_or_before(pr, c, l.row as int, l.col as int)
            },
            _ => false,
        },
{
}

/// A selection is the same whichever of its two ends is held: swapping the
/// landmark and the cursor highlights the same cells.
pub proof fn law_highlight_symmetric(l: document::Pos, cur: Cursor, top: int, r: int, c: int)
    ensures
        highlighted(Mode::Visual(l), cur, top, r, c) == highlighted(
            Mode::Visual(document::Pos { row: cur.row, col: cur.col }),
            Cursor { row: l.row, col: l.col },
            top,
            r,
            c,
        ),
{
}

/// Where no shown row is longer than the viewport is wide, the cell at shown
/// row `r` and column `c` of the grid (the row times the width, plus the
/// column) shows the `c`-th visible character of that row, a space as a
/// middle dot, highlighted as `law_drawn_highlight` says.
pub proof fn law_rendered_cell(a: App, k: int, r: int, c: int)
    requires
        0 <= r < k,
        0 <= c < visible(a.doc@, a.viewport, r).len(),
        forall|q: int| 0 <= q < k ==> #[trigger] visible(a.doc@, a.viewport, q).len() <= a.viewport.width,
    ensures
        rendered(a, k, r * a.viewport.width + c) == drawn(a, r, c),
        rendered(a, k, r * a.viewport.width + c).char == if visible(a.doc@, a.viewport, r)[c] == ' ' {
            '·'
        } else {
            visible(a.doc@, a.viewport, r)[c]
        },
    decreases k,
{
    let w = a.viewport.width as int;
    let q = k - 1;
    if q > r {
        assert(visible(a.doc@, a.viewport, r).len() <= w);
        assert(r * w + c < q * w) by (nonlinear_arith)
            requires
                0 <= c < w,
                r < q,
                0 <= r,
        ;
        law_rendered_cell(a, k - 1, r, c);
    }
}

/// Highlighting adds exactly `;40` (the dark background) before the final
/// `m` of a cell's color code, whatever the character.
pub proof fn law_style_highlight(ch: char)
    ensures
        style_code(Cell { char: ch, highlight: true }) == style_code(
            Cell { char: ch, highlight: false },
        ).drop_last() + seq![';', '4', '0', 'm'],
{
    assert(style_code(Cell { char: ch, highlight: true }) =~= style_code(
        Cell { char: ch, highlight: false },
    ).drop_last() + seq![';', '4', '0', 'm']);
}

/// Without the highlight, the color code of a cell is the gray one
/// (`ESC [90m`) for the middle dot that shows a space, and the plain reset
/// (`ESC [0m`) for every other character.
pub proof fn law_style_gray(ch: char)
    ensures
        style_code(Cell { char: ch, highlight: false }) == if ch == '·' {
            seq!['\x1b', '[', '9', '0', 'm']
        } else {
            seq!['\x1b', '[', '0', 'm']
        },
{
    assert(style_code(Cell { char: ch, highlight: false }) =~= if ch == '·' {
        seq!['\x1b', '[', '9', '0', 'm']
    } else {
        seq!['\x1b', '[', '0', 'm']
    });
}

/// The color code depends on the character only through whether it is the
/// middle dot: two other characters get the same code.
pub proof fn law_style_char(a: char, b: char, highlight: bool)
    requires
        a != '·',
        b != '·',
    ensures
        style_code(Cell { char: a, highlight }) == style_code(Cell { char: b, highlight }),
{
}

} // verus!
