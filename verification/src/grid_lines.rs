//! What the grid editor's layout holds, stated line by line: the lines of a
//! text laid out on the grid, one per row, and the text that saving the grid
//! gives back.
use vstd::prelude::*;

use crate::screen::{blanks, layout, plain, saved_from, Cell, Layout};

verus! {

/// The lines of `content`, cut at each line break (byte 10).
pub open spec fn byte_lines(content: Seq<u8>) -> Seq<Seq<u8>>
    decreases content.len(),
{
    if content.len() == 0 {
        seq![Seq::empty()]
    } else {
        let p = byte_lines(content.drop_last());
        if content.last() == 10 {
            p.push(Seq::empty())
        } else {
            p.update(p.len() - 1, p.last().push(content.last()))
        }
    }
}

/// How a byte is shown on the grid: a space as a middle dot.
pub open spec fn shown_byte(b: u8) -> char {
    if b == 32 {
        '·'
    } else {
        b as char
    }
}

/// A grid `w` by `h` holding `lines` from its top row: row `r` holds line
/// `r` from its first column, and every other cell is empty.
pub open spec fn grid_of(lines: Seq<Seq<u8>>, w: int, h: int) -> Seq<Cell> {
    Seq::new(
        (w * h) as nat,
        |i: int|
            {
                let r = i / w;
                let c = i % w;
                if r < lines.len() && c < lines[r].len() {
                    plain(shown_byte(lines[r][c]))
                } else {
                    plain(' ')
                }
            },
    )
}

/// `lines` fit a grid `w` by `h`: no more lines than rows, and each line
/// shorter than a row.
pub open spec fn fits(lines: Seq<Seq<u8>>, w: int, h: int) -> bool {
    &&& lines.len() <= h
    &&& forall|r: int| 0 <= r < lines.len() ==> #[trigger] lines[r].len() < w
}

/// Every byte of `lines` is ASCII.
pub open spec fn ascii_lines(lines: Seq<Seq<u8>>) -> bool {
    forall|r: int, c: int| 0 <= r < lines.len() && 0 <= c < lines[r].len() ==> #[trigger] lines[r][c] < 128
}

/// Each line of `p` is no longer than the line of `q` in its place, and `q`
/// has at least as many lines.
pub open spec fn dominated(p: Seq<Seq<u8>>, q: Seq<Seq<u8>>) -> bool {
    &&& p.len() <= q.len()
    &&& forall|r: int| 0 <= r < p.len() ==> #[trigger] p[r].len() <= q[r].len()
}

/// The layout state after the lines `p`: at the end of the last line, on
/// its row, with a row per break, the lines on the grid.
pub open spec fn state_of(p: Seq<Seq<u8>>, w: int, h: int) -> Layout {
    (p.last().len() as int, p.len() - 1, p.len() - 1, grid_of(p, w, h), false, false)
}

/// Splitting gives at least one line.
pub proof fn lemma_byte_lines_len(content: Seq<u8>)
    ensures
        byte_lines(content).len() >= 1,
    decreases content.len(),
{
    if content.len() > 0 {
        lemma_byte_lines_len(content.drop_last());
    }
}

/// The lines of a prefix of the content are dominated by those of a longer one.
proof fn lemma_prefix_dominated(content: Seq<u8>, k: int, n: int)
    requires
        0 <= k <= n <= content.len(),
    ensures
        dominated(byte_lines(content.take(k)), byte_lines(content.take(n))),
    decreases n - k,
{
    if k < n {
        lemma_prefix_dominated(content, k + 1, n);
        let t = content.take(k + 1);
        assert(t.drop_last() =~= content.take(k));
        lemma_byte_lines_len(content.take(k));
        let p = byte_lines(content.take(k));
        let q = byte_lines(t);
        let m = byte_lines(content.take(n));
        assert forall|r: int| 0 <= r < p.len() implies #[trigger] p[r].len() <= m[r].len() by {
            assert(p[r].len() <= q[r].len());
            assert(q[r].len() <= m[r].len());
        }
    }
}

/// Cell `y * w + x` is on row `y` and column `x`.
proof fn lemma_cell_place(y: int, x: int, w: int)
    requires
        0 <= x < w,
        0 <= y,
    ensures
        (y * w + x) / w == y,
        (y * w + x) % w == x,
{
    vstd::arithmetic::div_mod::lemma_fundamental_div_mod_converse(y * w + x, w, y, x);
}

/// A cell is placed by its row and column.
proof fn lemma_cell_index(i: int, w: int)
    requires
        0 <= i,
        0 < w,
    ensures
        i == (i / w) * w + i % w,
        0 <= i % w < w,
        0 <= i / w,
{
    vstd::arithmetic::div_mod::lemma_fundamental_div_mod(i, w);
    vstd::arithmetic::div_mod::lemma_mod_bound(i, w);
    assert(w * (i / w) == (i / w) * w) by (nonlinear_arith);
    assert(0 <= i / w) by (nonlinear_arith)
        requires
            0 <= i,
            0 < w,
    ;
}

/// Laying out the first `k` bytes gives the state of their lines.
proof fn lemma_layout_prefix(content: Seq<u8>, w: int, h: int, k: int)
    requires
        w > 0,
        0 <= k <= content.len(),
        fits(byte_lines(content), w, h),
    ensures
        layout(content, w, h, k) == state_of(byte_lines(content.take(k)), w, h),
    decreases k,
{
    let big = byte_lines(content);
    assert(content.take(content.len() as int) =~= content);
    if k == 0 {
        assert(content.take(0) =~= Seq::<u8>::empty());
        let p = byte_lines(content.take(0));
        assert(p == seq![Seq::<u8>::empty()]);
        assert(grid_of(p, w, h) =~= blanks((w * h) as nat));
    } else {
        lemma_layout_prefix(content, w, h, k - 1);
        let t = content.take(k);
        assert(t.drop_last() =~= content.take(k - 1));
        let p = byte_lines(content.take(k - 1));
        let q = byte_lines(t);
        lemma_byte_lines_len(content.take(k - 1));
        lemma_prefix_dominated(content, k, content.len() as int);
        let b = content[k - 1];
        assert(t.last() == b);
        let y = p.len() - 1;
        let x = p.last().len() as int;
        assert(q.len() <= big.len());
        let g = grid_of(p, w, h);
        if b == 10 {
            assert(q == p.push(Seq::empty()));
            assert(y < h);
            assert(grid_of(q, w, h) =~= g);
        } else {
            assert(q == p.update(y, p.last().push(b)));
            assert(q[y].len() <= big[y].len());
            assert(big[y].len() < w);
            assert(x < w);
            assert(y < h);
            assert(y * w + x < w * h) by (nonlinear_arith)
                requires
                    0 <= y < h,
                    0 <= x < w,
            ;
            lemma_cell_place(y, x, w);
            assert(grid_of(q, w, h) =~= g.update(y * w + x, plain(shown_byte(b)))) by {
                assert forall|i: int| 0 <= i < w * h implies #[trigger] grid_of(q, w, h)[i]
                    == g.update(y * w + x, plain(shown_byte(b)))[i] by {
                    lemma_cell_index(i, w);
                    if i / w == y && i % w == x {
                        assert(i == y * w + x);
                    }
                }
            }
        }
    }
}

/// A text whose lines fit the grid is laid out one line per row, from the
/// top: row `r` holds line `r`, a space shown as a middle dot, the other
/// cells stay empty, and the number of lines counted is the number of
/// breaks; the layout neither stops early nor runs off the cells.
pub proof fn lemma_layout_lines(content: Seq<u8>, w: int, h: int)
    requires
        w > 0,
        fits(byte_lines(content), w, h),
    ensures
        layout(content, w, h, content.len() as int) == state_of(byte_lines(content), w, h),
        layout(content, w, h, content.len() as int).3 == grid_of(byte_lines(content), w, h),
        layout(content, w, h, content.len() as int).2 == byte_lines(content).len() - 1,
        !layout(content, w, h, content.len() as int).5,
{
    lemma_layout_prefix(content, w, h, content.len() as int);
    assert(content.take(content.len() as int) =~= content);
}

/// The characters of row `r` of `lines`: the bytes of line `r`, nothing
/// below the last line.
pub open spec fn row_text(lines: Seq<Seq<u8>>, r: int) -> Seq<char> {
    if 0 <= r < lines.len() {
        lines[r].map_values(|b: u8| b as char)
    } else {
        Seq::empty()
    }
}

/// The text of rows `r` up to `h`, each row followed by a line break.
pub open spec fn grid_text(lines: Seq<Seq<u8>>, r: int, h: int) -> Seq<char>
    decreases h - r,
{
    if r >= h {
        Seq::empty()
    } else {
        row_text(lines, r) + seq!['\n'] + grid_text(lines, r + 1, h)
    }
}

/// Saving a row of the grid from column `c` on gives the rest of its line
/// and a break, then the rows below.
proof fn lemma_save_row(lines: Seq<Seq<u8>>, w: int, h: int, r: int, c: int)
    requires
        w > 0,
        0 <= r < h,
        fits(lines, w, h),
        ascii_lines(lines),
        0 <= c <= row_text(lines, r).len(),
    ensures
        saved_from(grid_of(lines, w, h), w, w * h, r * w + c) == row_text(lines, r).skip(c)
            + seq!['\n'] + saved_from(grid_of(lines, w, h), w, w * h, (r + 1) * w),
    decreases row_text(lines, r).len() - c,
{
    let g = grid_of(lines, w, h);
    let t = row_text(lines, r);
    let len = t.len() as int;
    let i = r * w + c;
    if r < lines.len() {
        assert(lines[r].len() < w);
    }
    assert(len < w);
    lemma_cell_place(r, c, w);
    assert(i < w * h) by (nonlinear_arith)
        requires
            0 <= r < h,
            0 <= c < w,
            i == r * w + c,
    ;
    assert(0 <= r * w) by (nonlinear_arith)
        requires
            0 <= r,
            0 < w,
    ;
    if c == len {
        assert(g[i] == plain(' '));
        assert((r + 1) * w == r * w + w) by (nonlinear_arith);
        assert(i + (w - i % w) == (r + 1) * w);
        assert(t.skip(c) =~= Seq::<char>::empty());
        assert(saved_from(g, w, w * h, i) == seq!['\n'] + saved_from(g, w, w * h, i + (w - i % w)));
        assert(seq!['\n'] + saved_from(g, w, w * h, (r + 1) * w) =~= t.skip(c) + seq!['\n']
            + saved_from(g, w, w * h, (r + 1) * w));
    } else {
        let b = lines[r][c];
        assert(b < 128);
        assert(g[i] == plain(shown_byte(b)));
        assert(shown_byte(b) != ' ');
        assert(t[c] == b as char);
        lemma_save_row(lines, w, h, r, c + 1);
        assert(i + 1 == r * w + (c + 1));
        if b == 32 {
            assert(saved_from(g, w, w * h, i) == seq![' '] + saved_from(g, w, w * h, i + 1));
            assert((32u8 as char) == ' ');
        } else {
            assert(shown_byte(b) != '·');
            assert(saved_from(g, w, w * h, i) == seq![b as char] + saved_from(g, w, w * h, i + 1));
        }
        assert(t.skip(c) =~= seq![t[c]] + t.skip(c + 1));
        assert(saved_from(g, w, w * h, i) =~= t.skip(c) + seq!['\n'] + saved_from(
            g,
            w,
            w * h,
            (r + 1) * w,
        ));
    }
}

/// Saving the grid from row `r` on gives the text of those rows.
proof fn lemma_save_rows(lines: Seq<Seq<u8>>, w: int, h: int, r: int)
    requires
        w > 0,
        0 <= r <= h,
        fits(lines, w, h),
        ascii_lines(lines),
    ensures
        saved_from(grid_of(lines, w, h), w, w * h, r * w) == grid_text(lines, r, h),
    decreases h - r,
{
    if r == h {
        assert(r * w == w * h) by (nonlinear_arith)
            requires
                r == h,
        ;
    } else {
        lemma_save_row(lines, w, h, r, 0);
        lemma_save_rows(lines, w, h, r + 1);
        assert(row_text(lines, r).skip(0) =~= row_text(lines, r));
    }
}

/// Laying a text out on the grid and saving the grid gives back the text's
/// lines, each followed by a line break, and one more break for each row
/// below them, when the lines are ASCII and fit the grid.
pub proof fn law_layout_then_save(content: Seq<u8>, w: int, h: int)
    requires
        w > 0,
        fits(byte_lines(content), w, h),
        ascii_lines(byte_lines(content)),
    ensures
        !layout(content, w, h, content.len() as int).5,
        saved_from(layout(content, w, h, content.len() as int).3, w, w * h, 0) == grid_text(
            byte_lines(content),
            0,
            h,
        ),
{
    lemma_layout_lines(content, w, h);
    lemma_save_rows(byte_lines(content), w, h, 0);
    assert(0 * w == 0);
}

} // verus!
