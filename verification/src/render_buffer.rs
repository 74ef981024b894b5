//! What the terminal shows: a grid of cells drawn from the document, the
//! cells that changed between two grids, and the text that updates them.
use vstd::prelude::*;

use crate::app::{App, Mode};
use crate::cursor::{min_int, Cursor};
use crate::document;
use crate::text::{decimal, line_chars, push_char, push_decimal, push_text};
use crate::viewport::Viewport;
use crate::{HIDE_CURSOR, SHOW_CURSOR};

verus! {

/// One character of the terminal, and whether it is highlighted.
#[derive(Clone, Copy, PartialEq, Eq, Structural, Debug)]
pub struct Cell {
    pub char: char,
    pub highlight: bool,
}

impl Cell {
    /// A cell showing `char`, not highlighted.
    pub fn new(char: char) -> (c: Cell)
        ensures
            c == (Cell { char, highlight: false }),
    {
        Cell { char, highlight: false }
    }
}

/// A place on the terminal.
#[derive(Clone, Copy, PartialEq, Eq, Structural, Debug)]
pub struct Pos {
    pub row: usize,
    pub col: usize,
}

/// The cells of the terminal, row after row.
#[derive(Clone)]
pub struct RenderBuffer {
    pub width: usize,
    pub height: usize,
    pub cells: Vec<Cell>,
}

/// An empty cell.
pub open spec fn blank_cell() -> Cell {
    Cell { char: ' ', highlight: false }
}

/// How a character of the document is shown: a space as a middle dot.
pub open spec fn shown_char(c: char) -> char {
    if c != ' ' {
        c
    } else {
        '·'
    }
}

/// The number of document rows the viewport shows.
pub open spec fn shown_rows(lines: Seq<Seq<char>>, v: Viewport) -> int {
    if lines.len() > v.top_row {
        min_int(lines.len() - v.top_row, v.height as int)
    } else {
        0
    }
}

/// The characters of the `r`-th shown row, from the viewport's left column.
pub open spec fn visible(lines: Seq<Seq<char>>, v: Viewport, r: int) -> Seq<char> {
    let line = lines[v.top_row + r];
    if v.left_column <= line.len() {
        line.skip(v.left_column as int)
    } else {
        Seq::empty()
    }
}

/// The selection of a Visual mode, ordered, with its rows made relative to
/// the viewport's top row.
pub open spec fn selection(landmark: document::Pos, cursor: Cursor, top: int) -> (int, int, int, int) {
    if landmark.row < cursor.row || (landmark.row == cursor.row && landmark.col <= cursor.col) {
        (landmark.row - top, landmark.col as int, cursor.row - top, cursor.col as int)
    } else {
        (cursor.row - top, cursor.col as int, landmark.row - top, landmark.col as int)
    }
}

/// Whether the character at shown row `row` and shown column `col` is selected.
pub open spec fn highlighted(mode: Mode, cursor: Cursor, top: int, row: int, col: int) -> bool {
    match mode {
        Mode::Visual(landmark) => {
            let (sr, sc, er, ec) = selection(landmark, cursor, top);
            (sr < row || (sr == row && sc <= col)) && (row < er || (row == er && col <= ec))
        },
        _ => false,
    }
}

/// The cell drawn for shown row `r` and shown column `c`.
pub open spec fn drawn(a: App, r: int, c: int) -> Cell {
    Cell {
        char: shown_char(visible(a.doc@, a.viewport, r)[c]),
        highlight: highlighted(a.mode, a.cursor, a.viewport.top_row as int, r, c),
    }
}

/// Cell `i` after the first `k` shown rows are drawn, each row over the cells
/// it reaches: the last row drawn over it wins.
pub open spec fn rendered(a: App, k: int, i: int) -> Cell
    decreases k,
{
    if k <= 0 {
        blank_cell()
    } else {
        let r = k - 1;
        let w = a.viewport.width as int;
        if r * w <= i < r * w + visible(a.doc@, a.viewport, r).len() {
            drawn(a, r, i - r * w)
        } else {
            rendered(a, k - 1, i)
        }
    }
}

/// Drawing on a grid of `width` by `height` cells stays within it, and a
/// Visual selection does not start above the viewport when something is
/// drawn.
pub open spec fn renderable(a: App, width: usize, height: usize) -> bool {
    let v = a.viewport;
    let l = a.doc@;
    &&& width * height <= usize::MAX
    &&& forall|r: int|
        0 <= r < shown_rows(l, v) ==> r * v.width + #[trigger] visible(l, v, r).len() <= width
            * height
    &&& (exists|r: int| 0 <= r < shown_rows(l, v) && #[trigger] visible(l, v, r).len() > 0) ==> (
    match a.mode {
        Mode::Visual(landmark) => landmark.row >= v.top_row && a.cursor.row >= v.top_row,
        _ => true,
    })
}

/// The cells that differ between `new` and `old` among the first `k`, in
/// order, each with its place on a grid `width` cells wide.
pub open spec fn changes(new: Seq<Cell>, old: Seq<Cell>, width: int, k: int) -> Seq<(Pos, Cell)>
    decreases k,
{
    if k <= 0 {
        Seq::empty()
    } else {
        let rest = changes(new, old, width, k - 1);
        let i = k - 1;
        if old[i] != new[i] {
            rest.push((Pos { row: (i / width) as usize, col: (i % width) as usize }, new[i]))
        } else {
            rest
        }
    }
}

/// The control sequence for `n` followed by `suffix`.
pub open spec fn csi(body: Seq<char>) -> Seq<char> {
    seq!['\x1b', '['] + body
}

/// The control sequence that moves the terminal's cursor to `p` (counted
/// from 1).
pub open spec fn place_code(p: Pos) -> Seq<char> {
    csi(decimal((p.row + 1) as nat) + seq![';'] + decimal((p.col + 1) as nat) + seq!['H'])
}

/// The control sequence that sets the color of a cell: gray for a shown
/// space, with a dark background when highlighted.
pub open spec fn style_code(c: Cell) -> Seq<char> {
    csi(
        (if c.char == '·' {
            seq!['9', '0']
        } else {
            seq!['0']
        }) + (if c.highlight {
            seq![';', '4', '0']
        } else {
            Seq::empty()
        }) + seq!['m'],
    )
}

/// The text that draws one changed cell: move there, set the color, write,
/// reset the color.
pub open spec fn cell_text(p: Pos, c: Cell) -> Seq<char> {
    place_code(p) + style_code(c) + seq![c.char] + csi(seq!['0', 'm'])
}

/// The texts of the changes, one after the other.
pub open spec fn changes_text(diff: Seq<(Pos, Cell)>) -> Seq<char>
    decreases diff.len(),
{
    if diff.len() == 0 {
        Seq::empty()
    } else {
        changes_text(diff.drop_last()) + cell_text(diff.last().0, diff.last().1)
    }
}

/// Hides the terminal's cursor.
pub open spec fn hide_cursor() -> Seq<char> {
    seq!['\x1b', '[', '?', '2', '5', 'l']
}

/// Shows the terminal's cursor.
pub open spec fn show_cursor() -> Seq<char> {
    seq!['\x1b', '[', '?', '2', '5', 'h']
}

/// Appends the control sequence that starts with the escape key and `[`.
fn push_csi(s: &mut String)
    ensures
        final(s)@ == old(s)@ + seq!['\x1b', '['],
{
    push_char(s, '\x1b');
    push_char(s, '[');
    assert(old(s)@.push('\x1b').push('[') =~= old(s)@ + seq!['\x1b', '[']);
}

/// Appends the control sequence that moves the terminal's cursor to `pos`.
fn push_place(render: &mut String, pos: Pos)
    requires
        pos.row < usize::MAX,
        pos.col < usize::MAX,
    ensures
        final(render)@ == old(render)@ + place_code(pos),
{
    push_csi(render);
    push_decimal(render, pos.row + 1);
    push_char(render, ';');
    push_decimal(render, pos.col + 1);
    push_char(render, 'H');
    assert(render@ =~= old(render)@ + place_code(pos));
}

/// Appends the control sequence that sets the color of `cell`.
fn push_style(render: &mut String, cell: Cell)
    ensures
        final(render)@ == old(render)@ + style_code(cell),
{
    push_csi(render);
    if cell.char == '·' {
        push_char(render, '9');
        push_char(render, '0');
    } else {
        push_char(render, '0');
    }
    if cell.highlight {
        push_char(render, ';');
        push_char(render, '4');
        push_char(render, '0');
    }
    push_char(render, 'm');
    assert(render@ =~= old(render)@ + style_code(cell));
}

/// Appends the text that draws `cell` at `pos`.
fn push_cell_text(render: &mut String, pos: Pos, cell: Cell)
    requires
        pos.row < usize::MAX,
        pos.col < usize::MAX,
    ensures
        final(render)@ == old(render)@ + cell_text(pos, cell),
{
    push_place(render, pos);
    push_style(render, cell);
    push_char(render, cell.char);
    push_csi(render);
    push_char(render, '0');
    push_char(render, 'm');
    assert(render@ =~= old(render)@ + cell_text(pos, cell));
}

impl RenderBuffer {
    /// A grid of `width` by `height` empty cells.
    pub fn new(width: usize, height: usize) -> (b: RenderBuffer)
        requires
            width * height <= usize::MAX,
        ensures
            b.width == width,
            b.height == height,
            b.cells@ == Seq::new((width * height) as nat, |i: int| blank_cell()),
    {
        let n = width * height;
        let mut cells: Vec<Cell> = Vec::new();
        for i in 0..n
            invariant
                cells@ == Seq::new(i as nat, |j: int| blank_cell()),
        {
            cells.push(Cell { char: ' ', highlight: false });
            assert(cells@ =~= Seq::new((i + 1) as nat, |j: int| blank_cell()));
        }
        RenderBuffer { width, height, cells }
    }

    /// The terminal's grid, `width` by `height` cells, showing the document of
    /// `app` through its viewport: row after row, each character from the
    /// left column on is drawn at its row's start (the row times the
    /// viewport's width) plus its column, with the selection of Visual mode
    /// highlighted; the other cells are empty.
    pub fn from(app: &App, width: usize, height: usize) -> (b: RenderBuffer)
        requires
            renderable(*app, width, height),
        ensures
            b.width == width,
            b.height == height,
            b.cells@.len() == width * height,
            forall|i: int|
                0 <= i < b.cells@.len() ==> b.cells@[i] == rendered(
                    *app,
                    shown_rows(app.doc@, app.viewport),
                    i,
                ),
    {
        let ghost a = *app;
        let w = app.viewport.width;
        let top = app.viewport.top_row;
        let left = app.viewport.left_column;
        let mut buffer = RenderBuffer::new(width, height);
        let n = app.doc.lines.len();
        let shown = if n > top {
            if n - top < app.viewport.height {
                n - top
            } else {
                app.viewport.height
            }
        } else {
            0
        };
        for row in 0..shown
            invariant
                a == *app,
                w == a.viewport.width,
                top == a.viewport.top_row,
                left == a.viewport.left_column,
                shown == shown_rows(a.doc@, a.viewport),
                shown == 0 || top + shown <= n,
                shown <= a.viewport.height,
                n == a.doc@.len(),
                renderable(a, width, height),
                buffer.width == width,
                buffer.height == height,
                buffer.cells@.len() == width * height,
                width * height <= usize::MAX,
                forall|i: int|
                    0 <= i < buffer.cells@.len() ==> #[trigger] buffer.cells@[i] == rendered(
                        a,
                        row as int,
                        i,
                    ),
        {
            let line = line_chars(&app.doc.lines[top + row]);
            assert(line@ == a.doc@[top + row]);
            let start = if left <= line.len() {
                left
            } else {
                line.len()
            };
            let ghost vis = visible(a.doc@, a.viewport, row as int);
            assert(vis =~= line@.subrange(start as int, line@.len() as int));
            assert(row * w + vis.len() <= width * height);
            let ghost before = buffer.cells@;
            assert(forall|i: int| 0 <= i < before.len() ==> #[trigger] before[i] == rendered(a, row as int, i));
            let base = row * w;
            let count = line.len() - start;
            for k in 0..count
                invariant
                    a == *app,
                    top == a.viewport.top_row,
                    line@ == a.doc@[top + row],
                    vis == line@.subrange(start as int, line@.len() as int),
                    vis == visible(a.doc@, a.viewport, row as int),
                    forall|i: int| 0 <= i < before.len() ==> #[trigger] before[i] == rendered(a, row as int, i),
                    buffer.cells@.len() <= usize::MAX,
                    start <= line.len(),
                    count == line.len() - start,
                    count == vis.len(),
                    base == row * w,
                    base + vis.len() <= buffer.cells@.len(),
                    buffer.cells@.len() == before.len(),
                    buffer.width == width,
                    buffer.height == height,
                    row < shown,
                    shown == shown_rows(a.doc@, a.viewport),
                    renderable(a, width, height),
                    forall|i: int|
                        0 <= i < buffer.cells@.len() ==> buffer.cells@[i] == if base <= i < base
                            + k {
                            drawn(a, row as int, i - base)
                        } else {
                            before[i]
                        },
            {
                let ch = line[start + k];
                let char = if ch != ' ' {
                    ch
                } else {
                    '·'
                };
                let highlight = match app.mode {
                    Mode::Visual(landmark) => {
                        let (start_pos, end_pos) = if landmark.row < app.cursor.row || (landmark.row
                            == app.cursor.row && landmark.col <= app.cursor.col) {
                            (landmark, app.cursor.to_pos())
                        } else {
                            (app.cursor.to_pos(), landmark)
                        };
                        proof {
                            assert(visible(a.doc@, a.viewport, row as int).len() > 0);
                        }
                        let sr = start_pos.row - top;
                        let er = end_pos.row - top;
                        (sr < row || (sr == row && start_pos.col <= k)) && (row < er || (row == er
                            && k <= end_pos.col))
                    },
                    _ => false,
                };
                let ghost cells_before = buffer.cells@;
                buffer.cells.set(base + k, Cell { char, highlight });
                proof {
                    assert(vis[k as int] == ch);
                    assert(Cell { char, highlight } == drawn(a, row as int, k as int));
                    assert forall|i: int| 0 <= i < buffer.cells@.len() implies buffer.cells@[i]
                        == if base <= i < base + k + 1 {
                        drawn(a, row as int, i - base)
                    } else {
                        before[i]
                    } by {
                        if i != base + k {
                            assert(buffer.cells@[i] == cells_before[i]);
                        }
                    }
                }
            }
            proof {
                assert forall|i: int| 0 <= i < buffer.cells@.len() implies buffer.cells@[i]
                    == rendered(a, row + 1, i) by {
                    assert(before[i] == rendered(a, row as int, i));
                }
            }
        }
        buffer
    }

    /// Whether `from` can draw `app` on a grid of `width` by `height` cells:
    /// the grid's size fits in `usize`, each shown row stays within the grid,
    /// and a Visual selection does not start above the viewport when
    /// something is drawn.
    pub fn can_render(app: &App, width: usize, height: usize) -> (res: bool)
        ensures
            res == renderable(*app, width, height),
    {
        let w = app.viewport.width;
        let h = app.viewport.height;
        let top = app.viewport.top_row;
        let left = app.viewport.left_column;
        let size = match width.checked_mul(height) {
            Some(size) => size,
            None => return false,
        };
        let n = app.doc.lines.len();
        let shown: usize = if n > top {
            if n - top < h {
                n - top
            } else {
                h
            }
        } else {
            0
        };
        let ghost l = app.doc@;
        let ghost v = app.viewport;
        let mut any = false;
        let mut r: usize = 0;
        while r < shown
            invariant
                r <= shown,
                shown == shown_rows(l, v),
                shown == 0 || top + shown <= n,
                n == l.len(),
                l == app.doc@,
                v == app.viewport,
                w == v.width && h == v.height && top == v.top_row && left == v.left_column,
                size == width * height,
                forall|q: int| 0 <= q < r ==> q * w + #[trigger] visible(l, v, q).len() <= size,
                any == exists|q: int| 0 <= q < r && #[trigger] visible(l, v, q).len() > 0,
            decreases shown - r,
        {
            let len = app.doc.char_len(top + r);
            let seen = if left <= len {
                len - left
            } else {
                0
            };
            assert(visible(l, v, r as int).len() == seen);
            let start = match r.checked_mul(w) {
                Some(start) => start,
                None => return false,
            };
            if start > size || seen > size - start {
                return false;
            }
            any = any || seen > 0;
            r = r + 1;
        }
        if !any {
            return true;
        }
        match app.mode {
            Mode::Visual(landmark) => landmark.row >= top && app.cursor.row >= top,
            _ => true,
        }
    }

    /// The cells that differ from `old`, in order, each with its place.
    pub fn diff(&self, old: &Self) -> (res: Vec<(Pos, Cell)>)
        requires
            old.cells@.len() >= self.cells@.len(),
            self.width > 0 || changes(self.cells@, old.cells@, 0, self.cells@.len() as int).len()
                == 0,
        ensures
            res@ == changes(self.cells@, old.cells@, self.width as int, self.cells@.len() as int),
    {
        let mut diff: Vec<(Pos, Cell)> = Vec::new();
        for i in 0..self.cells.len()
            invariant
                old.cells@.len() >= self.cells@.len(),
                diff@ == changes(self.cells@, old.cells@, self.width as int, i as int),
                self.width == 0 ==> changes(self.cells@, old.cells@, 0, self.cells@.len() as int).len()
                    == 0,
        {
            proof {
                lemma_changes_grow(self.cells@, old.cells@, 0, i + 1, self.cells@.len() as int);
            }
            if old.cells[i] != self.cells[i] {
                let col = i % self.width;
                let row = i / self.width;
                diff.push((Pos { row, col }, self.cells[i]));
            }
        }
        diff
    }

    /// The text that draws the changes on the terminal: hide the terminal's
    /// cursor, draw each changed cell, show the cursor again.
    pub fn patch(diff: Vec<(Pos, Cell)>) -> (res: String)
        requires
            forall|i: int|
                0 <= i < diff@.len() ==> #[trigger] diff@[i].0.row < usize::MAX && diff@[i].0.col
                    < usize::MAX,
        ensures
            res@ == hide_cursor() + changes_text(diff@) + show_cursor(),
    {
        let mut render = String::new();
        push_text(&mut render, HIDE_CURSOR);
        proof {
            reveal_strlit("\x1b[?25l");
            assert(render@ =~= hide_cursor());
            assert(diff@.take(0) =~= Seq::<(Pos, Cell)>::empty());
        }
        for i in 0..diff.len()
            invariant
                render@ == hide_cursor() + changes_text(diff@.take(i as int)),
                forall|j: int|
                    0 <= j < diff@.len() ==> #[trigger] diff@[j].0.row < usize::MAX && diff@[j].0.col
                        < usize::MAX,
        {
            let (pos, cell) = diff[i];
            assert(diff@[i as int].0.row < usize::MAX && diff@[i as int].0.col < usize::MAX);
            push_cell_text(&mut render, pos, cell);
            proof {
                assert(diff@.take(i + 1).drop_last() =~= diff@.take(i as int));
            }
        }
        push_text(&mut render, SHOW_CURSOR);
        proof {
            reveal_strlit("\x1b[?25h");
            assert(diff@.take(diff@.len() as int) =~= diff@);
        }
        render
    }
}

/// `cells` with each change, in order, written at its place on a grid
/// `width` cells wide.
pub open spec fn applied(cells: Seq<Cell>, ch: Seq<(Pos, Cell)>, width: int) -> Seq<Cell>
    decreases ch.len(),
{
    if ch.len() == 0 {
        cells
    } else {
        let (p, c) = ch.last();
        applied(cells, ch.drop_last(), width).update(p.row * width + p.col, c)
    }
}

/// Writing the changes that `diff` lists over the old grid gives the new
/// grid: what the terminal shows after the patch is what was drawn.
pub proof fn law_diff_then_patch(new: Seq<Cell>, old: Seq<Cell>, width: usize)
    requires
        width > 0,
        new.len() == old.len(),
        new.len() <= usize::MAX,
    ensures
        applied(old, changes(new, old, width as int, new.len() as int), width as int) == new,
{
    lemma_applied_changes(new, old, width as int, new.len() as int);
    assert(new.take(new.len() as int) + old.skip(new.len() as int) =~= new);
}

/// After the changes among the first `k` cells, those cells are the new
/// ones and the others the old ones.
proof fn lemma_applied_changes(new: Seq<Cell>, old: Seq<Cell>, width: int, k: int)
    requires
        0 < width <= usize::MAX,
        new.len() == old.len(),
        new.len() <= usize::MAX,
        0 <= k <= new.len(),
    ensures
        applied(old, changes(new, old, width, k), width) == new.take(k) + old.skip(k),
    decreases k,
{
    if k == 0 {
        assert(new.take(0) + old.skip(0) =~= old);
    } else {
        let i = k - 1;
        lemma_applied_changes(new, old, width, i);
        let before = new.take(i) + old.skip(i);
        if old[i] != new[i] {
            vstd::arithmetic::div_mod::lemma_fundamental_div_mod(i, width);
            assert(0 <= i / width <= i) by (nonlinear_arith)
                requires
                    0 <= i,
                    0 < width,
            ;
            let p = Pos { row: (i / width) as usize, col: (i % width) as usize };
            assert(p.row * width + p.col == i) by (nonlinear_arith)
                requires
                    p.row == i / width,
                    p.col == i % width,
                    i == width * (i / width) + (i % width),
            ;
            let ch = changes(new, old, width, k);
            assert(ch.drop_last() == changes(new, old, width, i));
            assert(before.update(i, new[i]) =~= new.take(k) + old.skip(k));
        } else {
            assert(before =~= new.take(k) + old.skip(k));
        }
    }
}

/// The changes among fewer cells are no more.
proof fn lemma_changes_grow(new: Seq<Cell>, old: Seq<Cell>, width: int, i: int, j: int)
    requires
        0 <= i <= j,
    ensures
        changes(new, old, width, i).len() <= changes(new, old, width, j).len(),
    decreases j - i,
{
    if i < j {
        lemma_changes_grow(new, old, width, i, j - 1);
    }
}

} // verus!
