//! The grid editor's drawing step: highlighting the Visual selection on the
//! edited grid, and bringing the shown grid up to date with it while
//! recording what changed for undo.
use vstd::prelude::*;

use crate::screen::{leading, row_len, stays_inside, Cell, Context, Cursor, Mode, ScreenBuffer, UndoEntry};

verus! {

/// The last column the cursor may take on row `r` in `mode`: one past the
/// row's last character in Insert mode, the last character otherwise (0 on
/// an empty row).
pub open spec fn row_bound(s: Seq<Cell>, w: int, r: int, mode: Mode) -> int {
    let n = row_len(s, w, r);
    match mode {
        Mode::Insert => n,
        _ => if n > 0 {
            n - 1
        } else {
            0
        },
    }
}

/// The index of the cell under a cursor on a grid `w` wide.
pub open spec fn cell_of(c: Cursor, w: int) -> int {
    c.y * w + c.x
}

/// The cells after highlighting the Visual selection: the cells from the
/// landmark to the cursor (the later one left out) that lie on their row's
/// text are highlighted, and the cells the selection left since the cursor
/// was at `prev` are no longer highlighted. Other modes change nothing.
pub open spec fn highlighted(s: Seq<Cell>, w: int, cursor: Cursor, prev: Cursor, mode: Mode) -> Seq<Cell> {
    match mode {
        Mode::Visual(landmark) => {
            let ci = cell_of(cursor, w);
            let pi = cell_of(prev, w);
            let start = if landmark <= ci {
                landmark as int
            } else {
                ci
            };
            let end = if landmark <= ci {
                ci
            } else {
                landmark as int
            };
            Seq::new(
                s.len(),
                |i: int|
                    if start <= i < end && i % w <= row_bound(s, w, i / w, Mode::Normal) {
                        Cell { char: s[i].char, highlight: true }
                    } else if (pi < start && pi <= i < start) || (pi > end && end <= i < pi) {
                        Cell { char: s[i].char, highlight: false }
                    } else {
                        s[i]
                    },
            )
        },
        _ => s,
    }
}

/// In Visual mode highlighting keeps every character; it highlights each
/// cell between the landmark and the cursor's cell, whichever of the two
/// comes first (the later one left out), that lies on its row's text; it
/// takes the highlight off the cells between where the cursor was and the
/// selection when the selection shrank away from them; and it leaves every
/// other cell as it was. In the other modes it changes nothing.
pub proof fn law_visual_highlight(s: Seq<Cell>, w: int, cursor: Cursor, prev: Cursor, mode: Mode, i: int)
    requires
        0 <= i < s.len(),
    ensures
        highlighted(s, w, cursor, prev, mode).len() == s.len(),
        highlighted(s, w, cursor, prev, mode)[i].char == s[i].char,
        match mode {
            Mode::Visual(l) => {
                let ci = cell_of(cursor, w);
                let pi = cell_of(prev, w);
                let r = highlighted(s, w, cursor, prev, mode)[i];
                let selected = (l <= i < ci) || (ci <= i < l);
                let left = (pi <= i && i < l && i < ci) || (l <= i && ci <= i && i < pi);
                &&& selected && i % w <= row_bound(s, w, i / w, Mode::Normal) ==> r.highlight
                &&& left ==> !r.highlight
                &&& !selected && !left ==> r == s[i]
            },
            _ => highlighted(s, w, cursor, prev, mode) == s,
        },
{
}

/// The inputs on which highlighting is defined: in Visual mode, the grid
/// holds its cells, and the cursors' cells and the selection lie within it;
/// any input in the other modes.
pub open spec fn highlightable(b: ScreenBuffer, cursor: Cursor, prev: Cursor, mode: Mode) -> bool {
    match mode {
        Mode::Visual(landmark) => {
            &&& b.cells@.len() == b.width * b.height
            &&& b.width * b.height <= usize::MAX
            &&& cell_of(cursor, b.width as int) <= usize::MAX
            &&& cell_of(prev, b.width as int) <= b.cells@.len()
            &&& landmark <= b.cells@.len()
            &&& cell_of(cursor, b.width as int) <= b.cells@.len()
        },
        _ => true,
    }
}

/// Counting a row's characters looks only at the characters of the cells.
proof fn lemma_same_chars(s1: Seq<Cell>, s2: Seq<Cell>, i: int, to: int)
    requires
        s1.len() == s2.len(),
        forall|k: int| 0 <= k < s1.len() ==> #[trigger] s1[k].char == s2[k].char,
    ensures
        leading(s1, i, to) == leading(s2, i, to),
        stays_inside(s1, i, to) == stays_inside(s2, i, to),
    decreases to - i,
{
    if !(i < 0 || i >= to || i >= s1.len()) {
        lemma_same_chars(s1, s2, i + 1, to);
    }
}

/// Counting within the cells never runs off them.
proof fn lemma_stays_inside(s: Seq<Cell>, i: int, to: int)
    requires
        to <= s.len(),
    ensures
        stays_inside(s, i, to),
    decreases to - i,
{
    if !(i < 0 || i >= to) {
        lemma_stays_inside(s, i + 1, to);
    }
}

/// Row `r` of a full grid lies within its cells.
proof fn lemma_row_in_grid(i: int, w: int, h: int)
    requires
        0 <= i < w * h,
        w > 0,
    ensures
        0 <= i / w < h,
        0 <= i % w < w,
        w * (i / w + 1) <= w * h,
{
    vstd::arithmetic::div_mod::lemma_fundamental_div_mod(i, w);
    vstd::arithmetic::div_mod::lemma_mod_bound(i, w);
    let q = i / w;
    assert(0 <= q) by (nonlinear_arith)
        requires
            0 <= i,
            0 < w,
            i == w * q + i % w,
            0 <= i % w < w,
    ;
    assert(q < h) by (nonlinear_arith)
        requires
            w * q <= i,
            i < w * h,
            w > 0,
    ;
    assert(w * (q + 1) <= w * h) by (nonlinear_arith)
        requires
            q < h,
            w > 0,
    ;
}

/// The last column the cursor may take on row `y`, `x` held to it.
fn x_bounded(x: usize, y: usize, screen: &ScreenBuffer, mode: Mode) -> (res: usize)
    requires
        screen.width * (y + 1) <= usize::MAX,
        y < usize::MAX,
        stays_inside(screen.cells@, screen.width * y, screen.width * (y + 1)),
    ensures
        res as int == if x <= row_bound(screen.cells@, screen.width as int, y as int, mode) {
            x as int
        } else {
            row_bound(screen.cells@, screen.width as int, y as int, mode)
        },
{
    let n = screen.line_len(y);
    let bound = match mode {
        Mode::Insert => n,
        _ => if n > 0 {
            n - 1
        } else {
            0
        },
    };
    if x <= bound {
        x
    } else {
        bound
    }
}

impl ScreenBuffer {
    /// Highlights the Visual selection from the landmark to the cursor, and
    /// takes the highlight off the cells the selection left since the cursor
    /// was at `prev_cursor`; nothing changes in other modes.
    pub fn set_highlighted_cells(&mut self, cursor: Cursor, prev_cursor: Cursor, mode: Mode)
        requires
            highlightable(*old(self), cursor, prev_cursor, mode),
        ensures
            final(self).cells@ == highlighted(
                old(self).cells@,
                old(self).width as int,
                cursor,
                prev_cursor,
                mode,
            ),
            final(self).width == old(self).width,
            final(self).height == old(self).height,
            final(self).line_count == old(self).line_count,
    {
        if let Mode::Visual(landmark) = mode {
            let ghost orig = self.cells@;
            let ghost w = self.width as int;
            let ghost goal = highlighted(orig, w, cursor, prev_cursor, mode);
            let cursor_idx = cursor.y * self.width + cursor.x;
            let prev_idx = prev_cursor.y * self.width + prev_cursor.x;
            let start = if landmark <= cursor_idx {
                landmark
            } else {
                cursor_idx
            };
            let end = if landmark <= cursor_idx {
                cursor_idx
            } else {
                landmark
            };
            let mut i = start;
            while i < end
                invariant
                    start <= i <= end,
                    self.width == old(self).width && self.height == old(self).height && self.line_count == old(self).line_count,
                    end <= orig.len(),
                    self.cells@.len() == orig.len(),
                    orig.len() == self.width * self.height,
                    self.width * self.height <= usize::MAX,
                    w == self.width,
                    forall|k: int| 0 <= k < orig.len() ==> #[trigger] self.cells@[k].char == orig[k].char,
                    forall|k: int|
                        0 <= k < orig.len() ==> #[trigger] self.cells@[k] == if start <= k < i && k % w
                            <= row_bound(orig, w, k / w, Mode::Normal) {
                            Cell { char: orig[k].char, highlight: true }
                        } else {
                            orig[k]
                        },
                decreases end - i,
            {
                proof {
                    lemma_row_in_grid(i as int, w, self.height as int);
                    lemma_stays_inside(self.cells@, w * (i / self.width), w * (i / self.width + 1));
                    lemma_same_chars(self.cells@, orig, w * (i / self.width), w * (i / self.width + 1));
                }
                let actual_x = i % self.width;
                let bounded = x_bounded(i % self.width, i / self.width, self, Mode::Normal);
                if actual_x <= bounded {
                    let c = self.cells[i].char;
                    self.cells.set(i, Cell { char: c, highlight: true });
                }
                i = i + 1;
            }
            if prev_idx < start {
                let mut j = prev_idx;
                while j < start
                    invariant
                        prev_idx <= j <= start,
                        self.width == old(self).width && self.height == old(self).height && self.line_count == old(self).line_count,
                        start <= end <= orig.len(),
                        self.cells@.len() == orig.len(),
                        forall|k: int|
                            0 <= k < orig.len() ==> #[trigger] self.cells@[k] == if start <= k < end
                                && k % w <= row_bound(orig, w, k / w, Mode::Normal) {
                                Cell { char: orig[k].char, highlight: true }
                            } else if prev_idx <= k < j {
                                Cell { char: orig[k].char, highlight: false }
                            } else {
                                orig[k]
                            },
                    decreases start - j,
                {
                    let c = self.cells[j].char;
                    self.cells.set(j, Cell { char: c, highlight: false });
                    j = j + 1;
                }
            } else if prev_idx > end {
                let mut j = end;
                while j < prev_idx
                    invariant
                        end <= j <= prev_idx,
                        self.width == old(self).width && self.height == old(self).height && self.line_count == old(self).line_count,
                        prev_idx <= orig.len(),
                        start <= end,
                        self.cells@.len() == orig.len(),
                        forall|k: int|
                            0 <= k < orig.len() ==> #[trigger] self.cells@[k] == if start <= k < end
                                && k % w <= row_bound(orig, w, k / w, Mode::Normal) {
                                Cell { char: orig[k].char, highlight: true }
                            } else if end <= k < j {
                                Cell { char: orig[k].char, highlight: false }
                            } else {
                                orig[k]
                            },
                    decreases prev_idx - j,
                {
                    let c = self.cells[j].char;
                    self.cells.set(j, Cell { char: c, highlight: false });
                    j = j + 1;
                }
            }
            assert(self.cells@ =~= goal);
        }
    }
}

/// The cells that differ between `front` and `back` among the first `k`, in
/// order, each as its column, its row on a grid `w` wide, and the cell of
/// `back`.
pub open spec fn grid_changes(front: Seq<Cell>, back: Seq<Cell>, w: int, k: int) -> Seq<(usize, usize, Cell)>
    decreases k,
{
    if k <= 0 {
        Seq::empty()
    } else {
        let rest = grid_changes(front, back, w, k - 1);
        let i = k - 1;
        if front[i] != back[i] {
            rest.push(((i % w) as usize, (i / w) as usize, back[i]))
        } else {
            rest
        }
    }
}

/// The same cells as `grid_changes`, each with the cell of `front` as it
/// was, without its highlight: what undoing the change writes back.
pub open spec fn grid_undo_delta(front: Seq<Cell>, back: Seq<Cell>, w: int, k: int) -> Seq<(usize, usize, Cell)>
    decreases k,
{
    if k <= 0 {
        Seq::empty()
    } else {
        let rest = grid_undo_delta(front, back, w, k - 1);
        let i = k - 1;
        if front[i] != back[i] {
            rest.push(((i % w) as usize, (i / w) as usize, Cell { char: front[i].char, highlight: false }))
        } else {
            rest
        }
    }
}

/// The edited grid of `c` with its Visual selection highlighted.
pub open spec fn synced_cells(c: Context) -> Seq<Cell> {
    highlighted(c.back_buffer.cells@, c.back_buffer.width as int, c.cursor, c.prev_cursor, c.mode)
}

impl Context {
    /// Highlights the selection on the edited grid, returns the cells where
    /// it differs from the shown grid (column, row, new cell), records the
    /// old cells, line count and cursor for undo when anything changed,
    /// leaves `Undo` mode for Normal mode, and makes the shown grid and the
    /// previous cursor those of now.
    pub fn sync_screen_buffers(&mut self) -> (diff: Vec<(usize, usize, Cell)>)
        requires
            highlightable(old(self).back_buffer, old(self).cursor, old(self).prev_cursor, old(self).mode),
            old(self).front_buffer.cells@.len() <= old(self).back_buffer.cells@.len(),
            old(self).back_buffer.width > 0 || forall|i: int|
                0 <= i < old(self).front_buffer.cells@.len() ==> old(self).front_buffer.cells@[i]
                    == #[trigger] synced_cells(*old(self))[i],
        ensures
            diff@ == grid_changes(
                old(self).front_buffer.cells@,
                synced_cells(*old(self)),
                old(self).back_buffer.width as int,
                old(self).front_buffer.cells@.len() as int,
            ),
            final(self).back_buffer.cells@ == synced_cells(*old(self)),
            final(self).back_buffer.width == old(self).back_buffer.width,
            final(self).back_buffer.height == old(self).back_buffer.height,
            final(self).back_buffer.line_count == old(self).back_buffer.line_count,
            final(self).front_buffer.cells@ == synced_cells(*old(self)),
            final(self).front_buffer.line_count == old(self).back_buffer.line_count,
            final(self).front_buffer.width == old(self).front_buffer.width,
            final(self).front_buffer.height == old(self).front_buffer.height,
            final(self).prev_cursor == old(self).cursor,
            final(self).cursor == old(self).cursor,
            final(self).file_path == old(self).file_path,
            final(self).mode == (if old(self).mode == Mode::Undo {
                Mode::Normal
            } else {
                old(self).mode
            }),
            ({
                let delta = grid_undo_delta(
                    old(self).front_buffer.cells@,
                    synced_cells(*old(self)),
                    old(self).back_buffer.width as int,
                    old(self).front_buffer.cells@.len() as int,
                );
                if delta.len() > 0 || old(self).front_buffer.line_count
                    != old(self).back_buffer.line_count {
                    &&& final(self).undo_stack@.len() == old(self).undo_stack@.len() + 1
                    &&& final(self).undo_stack@.drop_last() == old(self).undo_stack@
                    &&& final(self).undo_stack@.last().0 == old(self).mode
                    &&& final(self).undo_stack@.last().1.delta@ == delta
                    &&& final(self).undo_stack@.last().1.line_count == old(self).front_buffer.line_count
                    &&& final(self).undo_stack@.last().1.cursor == old(self).prev_cursor
                } else {
                    final(self).undo_stack@ == old(self).undo_stack@
                }
            }),
    {
        let ghost hb = synced_cells(*self);
        let ghost front = self.front_buffer.cells@;
        let mut diff: Vec<(usize, usize, Cell)> = Vec::new();
        let mut undo_delta: Vec<(usize, usize, Cell)> = Vec::new();
        let cursor = self.cursor;
        let prev_cursor = self.prev_cursor;
        let mode = self.mode;
        self.back_buffer.set_highlighted_cells(cursor, prev_cursor, mode);
        assert(self.back_buffer.cells@ == hb);
        let n = self.front_buffer.cells.len();
        let w = self.back_buffer.width;
        for i in 0..n
            invariant
                n == front.len(),
                front == self.front_buffer.cells@,
                hb == self.back_buffer.cells@,
                n <= hb.len(),
                w > 0 || forall|j: int| 0 <= j < n ==> front[j] == #[trigger] hb[j],
                w == self.back_buffer.width,
                diff@ == grid_changes(front, hb, w as int, i as int),
                undo_delta@ == grid_undo_delta(front, hb, w as int, i as int),
        {
            let f = self.front_buffer.cells[i];
            let b = self.back_buffer.cells[i];
            if f != b {
                assert(w > 0);
                let x = i % w;
                let y = i / w;
                diff.push((x, y, b));
                undo_delta.push((x, y, Cell { char: f.char, highlight: false }));
            }
        }
        if undo_delta.len() > 0 || self.front_buffer.line_count != self.back_buffer.line_count {
            let entry = UndoEntry {
                delta: undo_delta,
                line_count: self.front_buffer.line_count,
                cursor: prev_cursor,
            };
            self.undo_stack.push((mode, entry));
        }
        if self.mode == Mode::Undo {
            self.mode = Mode::Normal;
        }
        let mut cells: Vec<Cell> = Vec::new();
        let m = self.back_buffer.cells.len();
        for k in 0..m
            invariant
                m == hb.len(),
                hb == self.back_buffer.cells@,
                cells@ == hb.take(k as int),
        {
            cells.push(self.back_buffer.cells[k]);
            assert(cells@ =~= hb.take(k + 1));
        }
        assert(hb.take(m as int) =~= hb);
        self.front_buffer.cells = cells;
        self.front_buffer.line_count = self.back_buffer.line_count;
        self.prev_cursor = cursor;
        diff
    }
}

} // verus!
