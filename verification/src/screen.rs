//! A screen-sized grid of cells that holds the text directly: each line of
//! the text on a row of the grid, a space shown as a middle dot, and an
//! empty cell (a space) after the end of each line.
use vstd::prelude::*;

use crate::error::{TiError, TiResult};
use crate::text::{line_chars, push_char};

verus! {

/// One character of the grid, and whether it is highlighted.
#[derive(Clone, Copy, PartialEq, Eq, Structural, Debug)]
pub struct Cell {
    pub char: char,
    pub highlight: bool,
}

impl Cell {
    /// A cell showing `char`, not highlighted.
    pub fn new(char: char) -> (c: Cell)
        ensures
            c == (Cell { char, highlight: false }),
    {
        Cell { char, highlight: false }
    }
}

/// The grid: `width` by `height` cells, row after row, and the number of
/// lines of text it holds.
#[derive(Clone)]
pub struct ScreenBuffer {
    pub width: usize,
    pub height: usize,
    pub cells: Vec<Cell>,
    pub line_count: usize,
}

/// The modes of the grid editor; Visual mode holds the index of the cell
/// where the selection started.
#[derive(PartialEq, Eq, Structural, Clone, Copy, Debug)]
pub enum Mode {
    Normal,
    Replace,
    Delete,
    Insert,
    Visual(usize),
    Undo,
}

/// The cursor of the grid: a column and a row.
#[derive(Copy, Clone, PartialEq, Eq, Structural, Debug)]
pub struct Cursor {
    pub x: usize,
    pub y: usize,
}

/// A cell showing `c`, not highlighted.
pub open spec fn plain(c: char) -> Cell {
    Cell { char: c, highlight: false }
}

/// `n` empty cells.
pub open spec fn blanks(n: nat) -> Seq<Cell> {
    Seq::new(n, |i: int| plain(' '))
}

/// The number of cells that hold a character from `i` on, before the first
/// empty cell, `to`, or the end of the cells.
pub open spec fn leading(s: Seq<Cell>, i: int, to: int) -> int
    decreases to - i,
{
    if i < 0 || i >= to || i >= s.len() || s[i].char == ' ' {
        0
    } else {
        1 + leading(s, i + 1, to)
    }
}

/// Counting from `i` to `to` meets an empty cell before it runs off the cells.
pub open spec fn stays_inside(s: Seq<Cell>, i: int, to: int) -> bool
    decreases to - i,
{
    i < 0 || i >= to || (i < s.len() && (s[i].char == ' ' || stays_inside(s, i + 1, to)))
}

/// The cells after `s[start..end]` is copied to `dest` (the two ranges may overlap).
pub open spec fn copied(s: Seq<Cell>, start: int, end: int, dest: int) -> Seq<Cell> {
    Seq::new(
        s.len(),
        |i: int|
            if dest <= i < dest + (end - start) {
                s[start + i - dest]
            } else {
                s[i]
            },
    )
}

/// The cells with `s[lo..hi]` set to plain `c`.
pub open spec fn filled(s: Seq<Cell>, lo: int, hi: int, c: char) -> Seq<Cell> {
    Seq::new(
        s.len(),
        |i: int|
            if lo <= i < hi {
                plain(c)
            } else {
                s[i]
            },
    )
}

/// The larger of an integer and 0.
pub open spec fn nonneg(a: int) -> int {
    if a > 0 {
        a
    } else {
        0
    }
}

/// The state of a layout: column, row, lines, cells, whether it stopped at
/// the bottom, and whether it ran off the cells.
pub type Layout = (int, int, int, Seq<Cell>, bool, bool);

/// The layout after one more byte `b`.
pub open spec fn layout_step(s: Layout, b: u8, w: int, h: int) -> Layout {
    let (x, y, lines, cells, stopped, fault) = s;
    if y >= h {
        (x, y, lines, cells, true, fault)
    } else if b == 10 {
        (0, y + 1, lines + 1, cells, stopped, fault)
    } else {
        let (x2, y2) = if x >= w {
            (0, y + 1)
        } else {
            (x, y)
        };
        if y2 >= h {
            (x2, y2, lines, cells, true, fault)
        } else if y2 * w + x2 >= cells.len() {
            (x2, y2, lines, cells, stopped, true)
        } else {
            (
                x2 + 1,
                y2,
                lines,
                cells.update(y2 * w + x2, plain(if b == 32 {
                    '·'
                } else {
                    b as char
                })),
                stopped,
                fault,
            )
        }
    }
}

/// The layout of the first `k` bytes of `content` on a grid `w` by `h`:
/// a line break goes to the next row, a line too long for a row goes on
/// the next, and the layout stops at the bottom of the grid.
pub open spec fn layout(content: Seq<u8>, w: int, h: int, k: int) -> Layout
    decreases k,
{
    if k <= 0 {
        (0, 0, 0, blanks((w * h) as nat), false, false)
    } else {
        let s = layout(content, w, h, k - 1);
        if s.4 || s.5 {
            s
        } else {
            layout_step(s, content[k - 1], w, h)
        }
    }
}

/// The outcome of moving `size` rows from row `line` by `steps` rows, on
/// cells `s` of a grid `w` wide and `h` high holding `lines` lines: `None`
/// when there is no room, else the new cells and number of lines.
pub open spec fn moved_rows(s: Seq<Cell>, w: int, h: int, lines: int, line: int, size: int, steps: int) -> Option<(Seq<Cell>, int)> {
    if size == 0 || steps == 0 {
        Some((s, lines))
    } else if (steps < 0 && line + steps < 0) || (steps >= 0 && line + size >= h - steps) {
        None
    } else {
        let start = line * w;
        let end = (line + size) * w;
        let c = copied(s, start, end - 1, nonneg(start + w * steps));
        if steps < 0 {
            Some((filled(c, nonneg(end + steps * w), end, ' '), lines + steps))
        } else {
            Some((filled(c, start, (line + steps) * w, ' '), lines + steps))
        }
    }
}

/// The inputs on which moving rows stays inside the cells and the numbers.
pub open spec fn rows_movable(s: Seq<Cell>, w: int, h: int, lines: int, line: int, size: int, steps: int) -> bool {
    &&& s.len() <= isize::MAX
    &&& h <= isize::MAX
    &&& 0 <= line && 0 <= size
    &&& line + size <= isize::MAX
    &&& (size != 0 && steps != 0 && !((steps < 0 && line + steps < 0) || (steps >= 0 && line
        + size >= h - steps))) ==> {
        let start = line * w;
        let end = (line + size) * w;
        &&& w > 0
        &&& end <= s.len()
        &&& nonneg(start + w * steps) + (end - 1 - start) <= s.len()
        &&& steps < 0 ==> lines + steps >= 0
        &&& steps > 0 ==> (line + steps) * w <= s.len() && lines + steps <= usize::MAX
    }
}

/// Copies `cells[start..end]` to `dest`, the ranges possibly overlapping.
fn copy_within(cells: &mut Vec<Cell>, start: usize, end: usize, dest: usize)
    requires
        start <= end <= old(cells)@.len(),
        dest + (end - start) <= old(cells)@.len(),
    ensures
        final(cells)@ == copied(old(cells)@, start as int, end as int, dest as int),
{
    let mut moving: Vec<Cell> = Vec::new();
    for i in start..end
        invariant
            moving@ == old(cells)@.subrange(start as int, i as int),
            cells@ == old(cells)@,
            end <= cells@.len(),
    {
        moving.push(cells[i]);
        assert(moving@ =~= old(cells)@.subrange(start as int, i + 1));
    }
    let n = cells.len();
    for j in 0..end - start
        invariant
            n == cells@.len(),
            start <= end <= old(cells)@.len(),
            moving@ == old(cells)@.subrange(start as int, end as int),
            moving@.len() == end - start,
            dest + (end - start) <= cells@.len(),
            cells@.len() == old(cells)@.len(),
            forall|i: int|
                0 <= i < cells@.len() ==> #[trigger] cells@[i] == if dest <= i < dest + j {
                    old(cells)@[start + i - dest]
                } else {
                    old(cells)@[i]
                },
    {
        let ghost before = cells@;
        cells.set(dest + j, moving[j]);
        assert forall|i: int| 0 <= i < cells@.len() implies #[trigger] cells@[i] == if dest <= i
            < dest + j + 1 {
            old(cells)@[start + i - dest]
        } else {
            old(cells)@[i]
        } by {
            if i != dest + j {
                assert(cells@[i] == before[i]);
            } else {
                assert(moving@[j as int] == old(cells)@[start + j]);
            }
        }
    }
    assert(cells@ =~= copied(old(cells)@, start as int, end as int, dest as int));
}

/// Sets `cells[lo..hi]` to plain `c`.
fn fill(cells: &mut Vec<Cell>, lo: usize, hi: usize, c: char)
    requires
        hi <= old(cells)@.len(),
    ensures
        final(cells)@ == filled(old(cells)@, lo as int, hi as int, c),
{
    let mut i = lo;
    while i < hi
        invariant
            hi <= cells@.len(),
            lo <= i,
            i <= hi || i == lo,
            cells@.len() == old(cells)@.len(),
            forall|k: int|
                0 <= k < cells@.len() ==> #[trigger] cells@[k] == if lo <= k < i {
                    plain(c)
                } else {
                    old(cells)@[k]
                },
        decreases hi - i,
    {
        cells.set(i, Cell::new(c));
        i += 1;
    }
    assert(cells@ =~= filled(old(cells)@, lo as int, hi as int, c));
}

/// The error given when there is no room for a move.
fn no_space() -> (e: TiError)
    ensures
        e.0@ == no_space_message(),
{
    let mut s = String::new();
    let msg = "There is no space to do that action";
    crate::text::push_text(&mut s, msg);
    proof {
        reveal_strlit("There is no space to do that action");
    }
    assert(s@ =~= no_space_message());
    TiError(s)
}

/// The message of the error given when there is no room for a move.
pub open spec fn no_space_message() -> Seq<char> {
    "There is no space to do that action"@
}

impl ScreenBuffer {
    /// A grid of `width` by `height` empty cells holding `line_count` lines.
    pub fn new(width: usize, height: usize, line_count: usize) -> (b: ScreenBuffer)
        requires
            width * height <= usize::MAX,
        ensures
            b.width == width && b.height == height && b.line_count == line_count,
            b.cells@ == blanks((width * height) as nat),
    {
        let n = width * height;
        let mut cells: Vec<Cell> = Vec::new();
        for i in 0..n
            invariant
                cells@ == blanks(i as nat),
        {
            cells.push(Cell::new(' '));
            assert(cells@ =~= blanks((i + 1) as nat));
        }
        ScreenBuffer { width, height, cells, line_count }
    }

    /// The grid that holds `content` (each byte taken as a character).
    pub fn from(content: &Vec<u8>, width: usize, height: usize) -> (b: ScreenBuffer)
        requires
            width * height <= usize::MAX,
            !layout(content@, width as int, height as int, content@.len() as int).5,
        ensures
            b.width == width && b.height == height,
            b.cells@ == layout(content@, width as int, height as int, content@.len() as int).3,
            b.line_count == layout(content@, width as int, height as int, content@.len() as int).2,
    {
        let ghost w = width as int;
        let ghost h = height as int;
        let mut buffer = ScreenBuffer::new(width, height, 0);
        let mut cells = buffer.cells;
        let mut line_count: usize = 0;
        let mut x: usize = 0;
        let mut y: usize = 0;
        let mut k: usize = 0;
        proof {
            lemma_layout_fault_sticks(content@, w, h, 0, content@.len() as int);
        }
        while k < content.len()
            invariant_except_break
                k <= content.len(),
                layout(content@, w, h, k as int) == (x as int, y as int, line_count as int, cells@, false, false),
                !layout(content@, w, h, content@.len() as int).5,
                cells@.len() == w * h,
                width * height <= usize::MAX,
                line_count <= k,
                y <= height,
                x <= width,
                w == width && h == height,
            ensures
                layout(content@, w, h, content@.len() as int) == (x as int, y as int, line_count as int, cells@, true, false) || (k == content.len() && layout(content@, w, h, k as int) == (x as int, y as int, line_count as int, cells@, false, false)),
            decreases content.len() - k,
        {
            proof {
                lemma_layout_fault_sticks(content@, w, h, k + 1, content@.len() as int);
            }
            let c = content[k];
            if y >= height {
                proof {
                    lemma_layout_stopped(content@, w, h, (k + 1) as int, content@.len() as int);
                }
                break;
            }
            if c == 10 {
                y += 1;
                x = 0;
                line_count += 1;
                k += 1;
                continue;
            }
            if x >= width {
                y += 1;
                x = 0;
                if y >= height {
                    proof {
                        lemma_layout_stopped(content@, w, h, (k + 1) as int, content@.len() as int);
                    }
                    break;
                }
            }
            proof {
                assert(layout(content@, w, h, k + 1) == layout_step(
                    layout(content@, w, h, k as int),
                    content@[k as int],
                    w,
                    h,
                ));
                if width == 0 {
                    assert(layout(content@, w, h, k + 1).5);
                }
                assert(y * width + x < width * height) by (nonlinear_arith)
                    requires
                        y < height,
                        x < width,
                ;
            }
            let ch = if c == 32 {
                '·'
            } else {
                c as char
            };
            cells.set(y * width + x, Cell::new(ch));
            x += 1;
            k += 1;
        }
        proof {
            if k == content.len() {
                assert(layout(content@, w, h, content@.len() as int).3 == cells@);
            }
        }
        ScreenBuffer { width, height, cells, line_count }
    }

    /// Whether `from` can lay `content` out on a grid of `width` by `height`
    /// cells: no character is to be written before the layout stops at the
    /// bottom of a grid that has no cells.
    pub fn lays_out(content: &Vec<u8>, width: usize, height: usize) -> (res: bool)
        requires
            width * height <= usize::MAX,
        ensures
            res == !layout(content@, width as int, height as int, content@.len() as int).5,
    {
        let ghost w = width as int;
        let ghost h = height as int;
        let ghost n = content@.len() as int;
        let ghost mut cells = blanks((w * h) as nat);
        let ghost mut lines: int = 0;
        let mut x: usize = 0;
        let mut y: usize = 0;
        let mut k: usize = 0;
        while k < content.len()
            invariant
                k <= content.len(),
                n == content@.len(),
                layout(content@, w, h, k as int) == (x as int, y as int, lines, cells, false, false),
                cells.len() == w * h,
                width * height <= usize::MAX,
                y <= height,
                x <= width,
                w == width && h == height,
            decreases content.len() - k,
        {
            proof {
                lemma_layout_fault_sticks(content@, w, h, k + 1, n);
            }
            let c = content[k];
            if y >= height {
                proof {
                    lemma_layout_stopped(content@, w, h, (k + 1) as int, n);
                }
                return true;
            }
            if c == 10 {
                y += 1;
                x = 0;
                proof {
                    lines = lines + 1;
                }
                k += 1;
                continue;
            }
            if x >= width {
                y += 1;
                x = 0;
                if y >= height {
                    proof {
                        lemma_layout_stopped(content@, w, h, (k + 1) as int, n);
                    }
                    return true;
                }
            }
            if width == 0 {
                assert(cells.len() == 0);
                assert(y * w + x == 0);
                return false;
            }
            proof {
                assert(y * width + x < width * height) by (nonlinear_arith)
                    requires
                        y < height,
                        x < width,
                ;
                cells = cells.update(y * width + x, plain(if c == 32 {
                    '·'
                } else {
                    c as char
                }));
            }
            x += 1;
            k += 1;
        }
        true
    }

    /// The number of characters of row `line`: the cells from the row's
    /// start before the first empty one.
    pub fn line_len(&self, line: usize) -> (len: usize)
        requires
            self.width * (line + 1) <= usize::MAX,
            line < usize::MAX,
            stays_inside(
                self.cells@,
                self.width * line,
                self.width * (line + 1),
            ),
        ensures
            len == leading(self.cells@, self.width * line, self.width * (line + 1)),
    {
        let mut counter: usize = 0;
        proof {
            assert(self.width * line <= self.width * (line + 1)) by (nonlinear_arith);
        }
        let lo = self.width * line;
        let hi = self.width * (line + 1);
        let mut i = lo;
        while i < hi && self.cells[i].char != ' '
            invariant
                lo <= i <= hi,
                counter == i - lo,
                stays_inside(self.cells@, i as int, hi as int),
                leading(self.cells@, lo as int, hi as int) == counter + leading(
                    self.cells@,
                    i as int,
                    hi as int,
                ),
            decreases hi - i,
        {
            counter += 1;
            i += 1;
        }
        counter
    }
}

/// Once the layout ran off the cells, it stays so.
proof fn lemma_layout_fault_sticks(content: Seq<u8>, w: int, h: int, k: int, n: int)
    requires
        0 <= k <= n,
    ensures
        layout(content, w, h, k).5 ==> layout(content, w, h, n).5,
    decreases n - k,
{
    if k < n {
        lemma_layout_fault_sticks(content, w, h, k + 1, n);
    }
}

/// Once the layout stopped, it stays as it is.
proof fn lemma_layout_stopped(content: Seq<u8>, w: int, h: int, k: int, n: int)
    requires
        0 <= k <= n,
        layout(content, w, h, k).4,
    ensures
        layout(content, w, h, n) == layout(content, w, h, k),
    decreases n - k,
{
    if k < n {
        lemma_layout_stopped(content, w, h, k + 1, n);
    }
}

/// The number of characters of row `r` of a grid `w` wide.
pub open spec fn row_len(s: Seq<Cell>, w: int, r: int) -> int {
    leading(s, w * r, w * (r + 1))
}

/// Row `r` can be measured: its bounds fit in the numbers and counting it
/// stays inside the cells.
pub open spec fn measurable(s: Seq<Cell>, w: int, r: int) -> bool {
    &&& 0 <= r < usize::MAX
    &&& w * (r + 1) <= usize::MAX
    &&& stays_inside(s, w * r, w * (r + 1))
}

/// The cells after moving `size` cells from column `x` of row `y` by
/// `steps` cells: the cells left behind become dots when moving right and
/// empty when moving left.
pub open spec fn moved_cols(s: Seq<Cell>, w: int, x: int, y: int, size: int, steps: int) -> Seq<Cell> {
    let start = y * w + x;
    let end = start + size;
    let c = copied(s, start, end, nonneg(start + steps));
    if steps >= 0 {
        filled(c, start, start + steps, '·')
    } else {
        filled(c, nonneg(end + steps), end, ' ')
    }
}

/// The inputs on which moving cells along a row stays inside the cells.
pub open spec fn cols_movable(s: Seq<Cell>, w: int, x: int, y: int, size: int, steps: int) -> bool {
    &&& s.len() <= isize::MAX
    &&& 0 <= x && 0 <= y && 0 <= size
    &&& y * w + x + size <= s.len()
    &&& steps >= 0 ==> y * w + x + steps + size <= s.len()
}

/// Moves `size` cells from column `x` of row `y` by `steps` cells.
pub fn move_block_horizontally(
    screen: &mut ScreenBuffer,
    x: usize,
    y: usize,
    size: usize,
    steps: isize,
) -> (res: TiResult<()>)
    requires
        cols_movable(old(screen).cells@, old(screen).width as int, x as int, y as int, size as int, steps as int),
    ensures
        res is Ok,
        final(screen).cells@ == moved_cols(old(screen).cells@, old(screen).width as int, x as int, y as int, size as int, steps as int),
        final(screen).width == old(screen).width,
        final(screen).height == old(screen).height,
        final(screen).line_count == old(screen).line_count,
{
    let ghost s = screen.cells@;
    let w = screen.width;
    proof {
        assert(0 <= y * w <= y * w + x) by (nonlinear_arith)
            requires
                0 <= x,
                0 <= y,
                0 <= w,
        ;
    }
    if (steps < 0 && x as isize + steps < 0) && (steps >= 0 && x + size + steps as usize >= w) {
        return Err(no_space());
    }
    let start = y * w + x;
    let end = y * w + x + size;
    let shifted = start as isize + steps;
    let dest: usize = if shifted > 0 {
        shifted as usize
    } else {
        0
    };
    copy_within(&mut screen.cells, start, end, dest);
    if steps >= 0 {
        fill(&mut screen.cells, start, start + steps as usize, '·');
    } else {
        let back = end as isize + steps;
        let lo: usize = if back > 0 {
            back as usize
        } else {
            0
        };
        fill(&mut screen.cells, lo, end, ' ');
    }
    Ok(())
}

/// Moves `size` rows from row `line` by `steps` rows; the rows left behind
/// become empty and the number of lines changes by `steps`. There must be
/// room: the rows may not go above the first row, nor reach the bottom.
pub fn move_block_vertically(
    screen: &mut ScreenBuffer,
    line: usize,
    size: usize,
    steps: isize,
) -> (res: TiResult<()>)
    requires
        rows_movable(
            old(screen).cells@,
            old(screen).width as int,
            old(screen).height as int,
            old(screen).line_count as int,
            line as int,
            size as int,
            steps as int,
        ),
    ensures
        final(screen).width == old(screen).width,
        final(screen).height == old(screen).height,
        match moved_rows(
            old(screen).cells@,
            old(screen).width as int,
            old(screen).height as int,
            old(screen).line_count as int,
            line as int,
            size as int,
            steps as int,
        ) {
            Some((cells, lines)) => res is Ok && final(screen).cells@ == cells
                && final(screen).line_count == lines,
            None => res matches Err(e) && e.0@ == no_space_message() && final(screen).cells@
                == old(screen).cells@ && final(screen).line_count == old(screen).line_count,
        },
{
    if size == 0 || steps == 0 {
        return Ok(());
    }
    if (steps < 0 && line as isize + steps < 0) || (steps >= 0 && (line + size) as isize
        >= screen.height as isize - steps) {
        return Err(no_space());
    }
    let w = screen.width;
    let ghost s = screen.cells@;
    proof {
        lemma_rows_arith(w as int, line as int, size as int, steps as int, s.len() as int);
    }
    let start = line * w;
    let end = (line + size) * w;
    let shifted = start as isize + (w as isize) * steps;
    let dest: usize = if shifted > 0 {
        shifted as usize
    } else {
        0
    };
    copy_within(&mut screen.cells, start, end - 1, dest);
    if steps < 0 {
        let back = end as isize + steps * (w as isize);
        let lo: usize = if back > 0 {
            back as usize
        } else {
            0
        };
        fill(&mut screen.cells, lo, end, ' ');
        screen.line_count -= (-steps) as usize;
    } else {
        fill(&mut screen.cells, start, (line + steps as usize) * w, ' ');
        screen.line_count += steps as usize;
    }
    Ok(())
}

/// The arithmetic of a move of rows that has room.
proof fn lemma_rows_arith(w: int, line: int, size: int, steps: int, len: int)
    requires
        w > 0,
        line >= 0,
        size > 0,
        steps != 0,
        steps < 0 ==> line + steps >= 0,
        steps > 0 ==> (line + steps) * w <= len,
        (line + size) * w <= len,
        len <= isize::MAX,
    ensures
        0 <= line * w < (line + size) * w,
        line <= isize::MAX,
        -isize::MAX <= w * steps <= isize::MAX,
        0 <= line * w + w * steps <= isize::MAX,
        steps < 0 ==> 0 <= (line + size) * w + steps * w <= isize::MAX,
        steps * w == w * steps,
        w <= isize::MAX,
{
    assert(0 <= line * w < (line + size) * w) by (nonlinear_arith)
        requires
            w > 0,
            line >= 0,
            size > 0,
    ;
    assert(line <= line * w) by (nonlinear_arith)
        requires
            w > 0,
            line >= 0,
    ;
    assert(w <= (line + size) * w) by (nonlinear_arith)
        requires
            w > 0,
            line >= 0,
            size > 0,
    ;
    assert(steps * w == w * steps) by (nonlinear_arith);
    if steps < 0 {
        assert(-(w * steps) <= line * w) by (nonlinear_arith)
            requires
                w > 0,
                steps < 0,
                line + steps >= 0,
        ;
        assert(0 <= line * w + w * steps) by (nonlinear_arith)
            requires
                w > 0,
                steps < 0,
                line + steps >= 0,
        ;
        assert(w * steps < 0) by (nonlinear_arith)
            requires
                w > 0,
                steps < 0,
        ;
        assert((line + size) * w + w * steps == (line + size + steps) * w) by (nonlinear_arith);
        assert(0 <= (line + size + steps) * w) by (nonlinear_arith)
            requires
                w > 0,
                line + steps >= 0,
                size > 0,
        ;
    } else {
        assert(w * steps <= (line + steps) * w) by (nonlinear_arith)
            requires
                w > 0,
                steps > 0,
                line >= 0,
        ;
        assert(line * w + w * steps == (line + steps) * w) by (nonlinear_arith);
        assert(0 <= w * steps) by (nonlinear_arith)
            requires
                w > 0,
                steps > 0,
        ;
    }
}

/// The grid, lines and cursor after a backspace: inside a line the rest of
/// the line moves one cell left; at the start of a line, the line joins the
/// one above (the cursor goes to that line's end) and the lines below move up.
pub open spec fn backspaced(s: Seq<Cell>, w: int, h: int, lines: int, c: Cursor) -> (Seq<Cell>, int, Cursor) {
    if c.x == 0 && c.y == 0 {
        (s, lines, c)
    } else if c.x > 0 {
        (
            moved_cols(s, w, c.x as int, c.y as int, row_len(s, w, c.y as int) - c.x, -1),
            lines,
            Cursor { x: (c.x - 1) as usize, y: c.y },
        )
    } else {
        let y = c.y - 1;
        let x = row_len(s, w, y);
        let start = (y + 1) * w;
        let end = start + row_len(s, w, y + 1);
        let s1 = filled(copied(s, start, end, y * w + x), start, end, ' ');
        let cur = Cursor { x: x as usize, y: y as usize };
        if y < lines {
            match moved_rows(s1, w, h, lines, y + 2, lines - (y + 1), -1) {
                Some((s2, l2)) => (s2, l2, cur),
                None => (s1, lines, cur),
            }
        } else {
            (s1, lines, cur)
        }
    }
}

/// The inputs on which a backspace stays inside the cells and the numbers.
pub open spec fn backspace_ok(s: Seq<Cell>, w: int, h: int, lines: int, c: Cursor) -> bool {
    if c.x == 0 && c.y == 0 {
        true
    } else if c.x > 0 {
        &&& measurable(s, w, c.y as int)
        &&& row_len(s, w, c.y as int) >= c.x
        &&& cols_movable(s, w, c.x as int, c.y as int, row_len(s, w, c.y as int) - c.x, -1)
    } else {
        let y = c.y - 1;
        let x = row_len(s, w, y);
        let start = (y + 1) * w;
        let end = start + row_len(s, w, y + 1);
        let s1 = filled(copied(s, start, end, y * w + x), start, end, ' ');
        &&& measurable(s, w, y)
        &&& measurable(s, w, y + 1)
        &&& end <= s.len()
        &&& y * w + x + (end - start) <= s.len()
        &&& y < lines ==> rows_movable(s1, w, h, lines, y + 2, lines - (y + 1), -1)
    }
}

/// Deletes the character before the cursor, or joins the cursor's line to
/// the one above when the cursor is at its start.
pub fn backspace(screen: &mut ScreenBuffer, cursor: &mut Cursor) -> (res: TiResult<()>)
    requires
        backspace_ok(
            old(screen).cells@,
            old(screen).width as int,
            old(screen).height as int,
            old(screen).line_count as int,
            *old(cursor),
        ),
    ensures
        res is Ok,
        (final(screen).cells@, final(screen).line_count as int, *final(cursor)) == backspaced(
            old(screen).cells@,
            old(screen).width as int,
            old(screen).height as int,
            old(screen).line_count as int,
            *old(cursor),
        ),
        final(screen).width == old(screen).width,
        final(screen).height == old(screen).height,
{
    if cursor.x == 0 && cursor.y == 0 {
        return Ok(());
    }
    if cursor.x > 0 {
        let len = screen.line_len(cursor.y);
        let moved = move_block_horizontally(screen, cursor.x, cursor.y, len - cursor.x, -1);
        cursor.x -= 1;
        return moved;
    }
    cursor.y -= 1;
    cursor.x = screen.line_len(cursor.y);
    let w = screen.width;
    let n = screen.cells.len();
    proof {
        let y = cursor.y as int;
        let wi = w as int;
        lemma_leading_bound(screen.cells@, wi * y, wi * (y + 1));
        lemma_leading_bound(screen.cells@, wi * (y + 1), wi * (y + 2));
        assert(wi * y <= wi * (y + 1) && wi * (y + 1) <= wi * (y + 2)) by (nonlinear_arith)
            requires
                wi >= 0,
                y >= 0,
        ;
        assert(wi * (y + 1) == wi * y + wi && wi * (y + 2) == wi * (y + 1) + wi) by (
        nonlinear_arith);
        assert((y + 1) * wi == wi * (y + 1) && y * wi == wi * y) by (nonlinear_arith);
    }
    let start = (cursor.y + 1) * w;
    let end = (cursor.y + 1) * w + screen.line_len(cursor.y + 1);
    let dest = cursor.y * w + screen.line_len(cursor.y);
    copy_within(&mut screen.cells, start, end, dest);
    fill(&mut screen.cells, start, end, ' ');
    if cursor.y < screen.line_count {
        return move_block_vertically(screen, cursor.y + 2, screen.line_count - (cursor.y + 1), -1);
    }
    Ok(())
}

/// A backspace inside a line deletes the character before the cursor: the
/// rest of the row moves one cell left, the cell that held the row's last
/// character becomes empty, every other cell stays, the lines stay, and the
/// cursor moves one column left. The row then reads as before without that
/// character.
pub proof fn law_backspace_in_line(s: Seq<Cell>, w: int, h: int, lines: int, c: Cursor)
    requires
        w >= 0,
        c.x > 0,
        backspace_ok(s, w, h, lines, c),
    ensures
        ({
            let (s2, l2, c2) = backspaced(s, w, h, lines, c);
            let a = c.y * w;
            let len = row_len(s, w, c.y as int);
            &&& c2 == Cursor { x: (c.x - 1) as usize, y: c.y }
            &&& l2 == lines
            &&& s2.len() == s.len()
            &&& a + len <= s.len()
            &&& forall|i: int| a + c.x - 1 <= i < a + len - 1 ==> #[trigger] s2[i] == s[i + 1]
            &&& s2[a + len - 1] == plain(' ')
            &&& forall|i: int|
                0 <= i < s.len() && !(a + c.x - 1 <= i < a + len) ==> #[trigger] s2[i] == s[i]
            &&& chars_of(s2, a, a + len - 1) == chars_of(s, a, a + len).remove(c.x - 1)
        }),
{
    let (s2, l2, c2) = backspaced(s, w, h, lines, c);
    let a = c.y * w;
    let len = row_len(s, w, c.y as int);
    assert(a >= 0) by (nonlinear_arith)
        requires
            w >= 0,
            c.y >= 0,
            a == c.y * w,
    ;
    assert forall|i: int| 0 <= i < len - 1 implies #[trigger] chars_of(s2, a, a + len - 1)[i]
        == chars_of(s, a, a + len).remove(c.x - 1)[i] by {
        if i < c.x - 1 {
            assert(s2[a + i] == s[a + i]);
        } else {
            assert(s2[a + i] == s[a + i + 1]);
        }
    }
    assert(chars_of(s2, a, a + len - 1) =~= chars_of(s, a, a + len).remove(c.x - 1));
}

/// The grid and lines after breaking row `y` at column `x`: the rows below
/// move one down, and the rest of the row goes to the start of the next.
pub open spec fn broken(s: Seq<Cell>, w: int, h: int, lines: int, x: int, y: int) -> Option<(Seq<Cell>, int)> {
    let m = if y < lines {
        moved_rows(s, w, h, lines, y + 1, lines - y, 1)
    } else {
        Some((s, lines))
    };
    match m {
        None => None,
        Some((s1, l1)) => {
            let start = y * w + x;
            let end = y * w + row_len(s1, w, y);
            Some((filled(copied(s1, start, end, (y + 1) * w), start, end, ' '), l1))
        },
    }
}

/// The inputs on which breaking a row stays inside the cells and the numbers.
pub open spec fn break_ok(s: Seq<Cell>, w: int, h: int, lines: int, x: int, y: int) -> bool {
    let m = if y < lines {
        moved_rows(s, w, h, lines, y + 1, lines - y, 1)
    } else {
        Some((s, lines))
    };
    &&& 0 <= x && 0 <= y < usize::MAX
    &&& y < lines ==> rows_movable(s, w, h, lines, y + 1, lines - y, 1)
    &&& match m {
        None => true,
        Some((s1, l1)) => {
            &&& measurable(s1, w, y)
            &&& x <= row_len(s1, w, y)
            &&& y * w + row_len(s1, w, y) <= s1.len()
            &&& (y + 1) * w + row_len(s1, w, y) - x <= s1.len()
        },
    }
}

/// Breaks row `y` at column `x`.
pub fn break_line(screen: &mut ScreenBuffer, x: usize, y: usize) -> (res: TiResult<()>)
    requires
        break_ok(
            old(screen).cells@,
            old(screen).width as int,
            old(screen).height as int,
            old(screen).line_count as int,
            x as int,
            y as int,
        ),
    ensures
        final(screen).width == old(screen).width,
        final(screen).height == old(screen).height,
        match broken(
            old(screen).cells@,
            old(screen).width as int,
            old(screen).height as int,
            old(screen).line_count as int,
            x as int,
            y as int,
        ) {
            Some((cells, lines)) => res is Ok && final(screen).cells@ == cells
                && final(screen).line_count == lines,
            None => res matches Err(e) && e.0@ == no_space_message() && final(screen).cells@
                == old(screen).cells@ && final(screen).line_count == old(screen).line_count,
        },
{
    if y < screen.line_count {
        let moved = move_block_vertically(screen, y + 1, screen.line_count - y, 1);
        if moved.is_err() {
            return moved;
        }
    }
    let w = screen.width;
    let len = screen.line_len(y);
    proof {
        let wi = w as int;
        let yi = y as int;
        lemma_leading_bound(screen.cells@, wi * yi, wi * (yi + 1));
        assert(0 <= wi * yi <= wi * (yi + 1)) by (nonlinear_arith)
            requires
                wi >= 0,
                yi >= 0,
        ;
        assert(wi * (yi + 1) == wi * yi + wi) by (nonlinear_arith);
        assert((yi + 1) * wi == wi * (yi + 1) && yi * wi == wi * yi) by (nonlinear_arith);
    }
    let start = y * w + x;
    let end = y * w + len;
    copy_within(&mut screen.cells, start, end, (y + 1) * w);
    fill(&mut screen.cells, start, end, ' ');
    Ok(())
}

/// The characters of the cells `start..end`.
pub open spec fn chars_of(s: Seq<Cell>, start: int, end: int) -> Seq<char> {
    Seq::new((end - start) as nat, |i: int| s[start + i].char)
}

/// Appends the characters of `cells[start..end]` to `result`.
fn push_cells(result: &mut String, cells: &Vec<Cell>, start: usize, end: usize)
    requires
        start <= end <= cells@.len(),
    ensures
        final(result)@ == old(result)@ + chars_of(cells@, start as int, end as int),
{
    for i in start..end
        invariant
            result@ == old(result)@ + chars_of(cells@, start as int, i as int),
            end <= cells@.len(),
    {
        push_char(result, cells[i].char);
        assert(result@ =~= old(result)@ + chars_of(cells@, start as int, i + 1));
    }
}

/// The characters of the cells `start..end`.
pub fn copy(screen: &mut ScreenBuffer, start: usize, end: usize) -> (result: String)
    requires
        start <= end,
        start < old(screen).cells@.len(),
        end < old(screen).cells@.len(),
    ensures
        result@ == chars_of(old(screen).cells@, start as int, end as int),
        *final(screen) == *old(screen),
{
    let mut result = String::new();
    push_cells(&mut result, &screen.cells, start, end);
    assert(result@ =~= chars_of(screen.cells@, start as int, end as int));
    result
}

/// The characters of the cells `start..end`, which become empty.
pub fn cut(screen: &mut ScreenBuffer, start: usize, end: usize) -> (result: String)
    requires
        start <= end,
        start < old(screen).cells@.len(),
        end < old(screen).cells@.len(),
    ensures
        result@ == chars_of(old(screen).cells@, start as int, end as int),
        final(screen).cells@ == filled(old(screen).cells@, start as int, end as int, ' '),
        final(screen).width == old(screen).width,
        final(screen).height == old(screen).height,
        final(screen).line_count == old(screen).line_count,
{
    let mut result = String::new();
    push_cells(&mut result, &screen.cells, start, end);
    assert(result@ =~= chars_of(screen.cells@, start as int, end as int));
    fill(&mut screen.cells, start, end, ' ');
    result
}

/// The cells after the characters of `content` are written from `pos` on,
/// up to `end`: only the characters change, not the highlight.
pub open spec fn pasted(s: Seq<Cell>, pos: int, stop: int, content: Seq<char>) -> Seq<Cell> {
    Seq::new(s.len(), |i: int| pasted_cell(s, pos, stop, content, i))
}

/// Cell `i` after pasting: from `content` between `pos` and `stop`.
pub open spec fn pasted_cell(s: Seq<Cell>, pos: int, stop: int, content: Seq<char>, i: int) -> Cell {
    if pos <= i && i < stop {
        Cell { char: content[i - pos], highlight: s[i].highlight }
    } else {
        s[i]
    }
}

/// Cells written from `start` up to `i` are the pasted cells up to `end`.
proof fn lemma_pasted(cells: Seq<Cell>, s: Seq<Cell>, start: int, end: int, i: int, content: Seq<char>)
    requires
        cells.len() == s.len(),
        i == end || (end <= start && i == start),
        forall|k: int|
            0 <= k < s.len() ==> #[trigger] cells[k] == pasted_cell(s, start, i, content, k),
    ensures
        cells == pasted(s, start, end, content),
{
    assert forall|k: int| 0 <= k < s.len() implies cells[k] == pasted_cell(s, start, end, content, k) by {
        assert(cells[k] == pasted_cell(s, start, i, content, k));
    }
    assert(cells =~= pasted(s, start, end, content));
}

/// Where pasting stops: at the end of the row of `pos`, or after as many
/// cells as `content` has bytes.
pub open spec fn paste_end(w: int, pos: int, content_bytes: int) -> int {
    let row_end = pos + w - pos % w;
    if row_end <= pos + content_bytes {
        row_end
    } else {
        pos + content_bytes
    }
}

/// Writes `content` from `pos` on, up to the end of its row.
pub fn paste(screen: &mut ScreenBuffer, pos: usize, content: String)
    requires
        pos < old(screen).cells@.len(),
        old(screen).width > 0,
        pos + old(screen).width <= usize::MAX,
        pos + vstd::utf8::encode_utf8(content@).len() <= usize::MAX,
        paste_end(
            old(screen).width as int,
            pos as int,
            vstd::utf8::encode_utf8(content@).len() as int,
        ) <= old(screen).cells@.len(),
        paste_end(
            old(screen).width as int,
            pos as int,
            vstd::utf8::encode_utf8(content@).len() as int,
        ) - pos <= content@.len(),
    ensures
        final(screen).cells@ == pasted(
            old(screen).cells@,
            pos as int,
            paste_end(
                old(screen).width as int,
                pos as int,
                vstd::utf8::encode_utf8(content@).len() as int,
            ),
            content@,
        ),
        final(screen).width == old(screen).width,
        final(screen).height == old(screen).height,
        final(screen).line_count == old(screen).line_count,
{
    let start = pos;
    let bytes = content.as_str().len();
    let row_end = pos + screen.width - (pos % screen.width);
    let end = if row_end <= start + bytes {
        row_end
    } else {
        start + bytes
    };
    let chars = line_chars(&content);
    let ghost s = screen.cells@;
    let mut i = start;
    while i < end
        invariant
            start <= i,
            i <= end || i == start,
            end <= screen.cells@.len(),
            end - start <= chars@.len(),
            chars@ == content@,
            screen.cells@.len() == s.len(),
            screen.width == old(screen).width,
            screen.height == old(screen).height,
            screen.line_count == old(screen).line_count,
            forall|k: int|
                0 <= k < s.len() ==> #[trigger] screen.cells@[k] == pasted_cell(
                    s,
                    start as int,
                    i as int,
                    content@,
                    k,
                ),
        decreases end - i,
    {
        let mut cell = screen.cells[i];
        cell.char = chars[i - start];
        screen.cells.set(i, cell);
        i += 1;
    }
    proof {
        lemma_pasted(screen.cells@, s, start as int, end as int, i as int, content@);
    }
}

/// The next row starts after cell `i` and within the grid.
proof fn lemma_next_row(i: int, w: int, h: int)
    requires
        0 <= i < w * h,
        w > 0,
    ensures
        0 <= i % w < w,
        i < i + (w - i % w) <= w * h,
{
    vstd::arithmetic::div_mod::lemma_fundamental_div_mod(i, w);
    vstd::arithmetic::div_mod::lemma_mod_bound(i, w);
    let q = i / w;
    assert(w * q <= i);
    assert(q < h) by (nonlinear_arith)
        requires
            w * q <= i,
            i < w * h,
            w > 0,
    ;
    assert(w * q + w <= w * h) by (nonlinear_arith)
        requires
            q < h,
            w > 0,
    ;
}

/// No more cells are counted than lie between `i` and `to`.
proof fn lemma_leading_bound(s: Seq<Cell>, i: int, to: int)
    ensures
        0 <= leading(s, i, to),
        i <= to ==> leading(s, i, to) <= to - i,
    decreases to - i,
{
    if !(i < 0 || i >= to || i >= s.len() || s[i].char == ' ') {
        lemma_leading_bound(s, i + 1, to);
    }
}

/// The text that a grid holds, read from cell `i` on: an empty cell ends
/// its line (the rest of the row is skipped), a dot stands for a space.
pub open spec fn saved_from(s: Seq<Cell>, w: int, n: int, i: int) -> Seq<char>
    decreases nonneg(n - i),
{
    if i >= n || w <= 0 || i < 0 {
        Seq::empty()
    } else {
        let c = s[i].char;
        if c == ' ' {
            proof {
                vstd::arithmetic::div_mod::lemma_mod_bound(i, w);
            }
            seq!['\n'] + saved_from(s, w, n, i + (w - i % w))
        } else if c == '·' {
            seq![' '] + saved_from(s, w, n, i + 1)
        } else {
            seq![c] + saved_from(s, w, n, i + 1)
        }
    }
}

/// The cells with the highlight of `s[lo..hi]` taken off.
pub open spec fn unlit(s: Seq<Cell>, lo: int, hi: int) -> Seq<Cell> {
    Seq::new(s.len(), |i: int| if lo <= i < hi { plain(s[i].char) } else { s[i] })
}

/// Pasting what `cut` took, at the place it was taken from, gives the
/// characters back, when the paste ends where the cut did (the cut lies in
/// one row, and its characters take one byte each); the cut cells lose
/// their highlight.
pub proof fn law_cut_then_paste(s: Seq<Cell>, w: int, start: int, end: int)
    requires
        0 <= start <= end <= s.len(),
        paste_end(w, start, vstd::utf8::encode_utf8(chars_of(s, start, end)).len() as int) == end,
    ensures
        pasted(
            filled(s, start, end, ' '),
            start,
            paste_end(w, start, vstd::utf8::encode_utf8(chars_of(s, start, end)).len() as int),
            chars_of(s, start, end),
        ) == unlit(s, start, end),
{
    assert(pasted(filled(s, start, end, ' '), start, end, chars_of(s, start, end)) =~= unlit(
        s,
        start,
        end,
    ));
}

impl ScreenBuffer {
    /// The text the grid holds, to be written to the file: each row up to
    /// its first empty cell, followed by a line break; dots become spaces.
    pub fn saved_text(&self) -> (content: String)
        requires
            self.width * self.height <= usize::MAX,
            self.cells@.len() >= self.width * self.height,
        ensures
            content@ == saved_from(
                self.cells@,
                self.width as int,
                self.width * self.height,
                0,
            ),
    {
        let n = self.width * self.height;
        let w = self.width;
        let mut content = String::new();
        let mut i: usize = 0;
        while i < n
            invariant
                n == self.width * self.height,
                w == self.width,
                n <= self.cells@.len(),
                i <= n,
                saved_from(self.cells@, w as int, n as int, 0) == content@ + saved_from(
                    self.cells@,
                    w as int,
                    n as int,
                    i as int,
                ),
            decreases n - i,
        {
            let c = self.cells[i].char;
            let ghost before = content@;
            let add: usize;
            proof {
                if w == 0 {
                    assert(n == 0) by (nonlinear_arith)
                        requires
                            n == w * self.height,
                            w == 0,
                    ;
                }
            }
            if c == ' ' {
                push_char(&mut content, '\n');
                add = w - i % w;
            } else if c == '·' {
                push_char(&mut content, ' ');
                add = 1;
            } else {
                push_char(&mut content, c);
                add = 1;
            }
            proof {
                lemma_next_row(i as int, w as int, self.height as int);
            }
            i = i + add;
            assert(before.push(if c == ' ' {
                '\n'
            } else if c == '·' {
                ' '
            } else {
                c
            }) =~= content@);
        }
        content
    }
}

/// What one key changed on the grid, to undo it: each changed cell (column,
/// row, and the cell as it was), the number of lines and the cursor before.
pub struct UndoEntry {
    pub delta: Vec<(usize, usize, Cell)>,
    pub line_count: usize,
    pub cursor: Cursor,
}

/// The state of the grid editor: the grid on the terminal, the grid being
/// edited, the file's path, the cursor now and before the last key, the mode
/// and the undo history, each entry with the mode it was taken in.
pub struct Context {
    pub front_buffer: ScreenBuffer,
    pub back_buffer: ScreenBuffer,
    pub file_path: String,
    pub cursor: Cursor,
    pub prev_cursor: Cursor,
    pub mode: Mode,
    pub undo_stack: Vec<(Mode, UndoEntry)>,
}

impl Context {
    /// The editor on a file at `file_path` that holds `content`, shown on a
    /// terminal of `width` by `height` cells: the edited grid holds the
    /// content, the shown grid is empty with the same line count, both
    /// cursors are at the origin, the mode is `Undo` and the history empty.
    pub fn from_content(file_path: String, content: &Vec<u8>, width: usize, height: usize) -> (c: Context)
        requires
            width * height <= usize::MAX,
            !layout(content@, width as int, height as int, content@.len() as int).5,
        ensures
            c.back_buffer.width == width && c.back_buffer.height == height,
            c.back_buffer.cells@ == layout(content@, width as int, height as int, content@.len() as int).3,
            c.back_buffer.line_count == layout(content@, width as int, height as int, content@.len() as int).2,
            c.front_buffer.width == width && c.front_buffer.height == height,
            c.front_buffer.cells@ == blanks((width * height) as nat),
            c.front_buffer.line_count == c.back_buffer.line_count,
            c.file_path@ == file_path@,
            c.cursor == (Cursor { x: 0, y: 0 }),
            c.prev_cursor == (Cursor { x: 0, y: 0 }),
            c.mode == Mode::Undo,
            c.undo_stack@.len() == 0,
    {
        let back_buffer = ScreenBuffer::from(content, width, height);
        let front_buffer = ScreenBuffer::new(width, height, back_buffer.line_count);
        Context {
            front_buffer,
            back_buffer,
            file_path,
            cursor: Cursor { x: 0, y: 0 },
            prev_cursor: Cursor { x: 0, y: 0 },
            mode: Mode::Undo,
            undo_stack: Vec::new(),
        }
    }
}

} // verus!
