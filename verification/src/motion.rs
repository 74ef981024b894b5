//! Word motions over the text of a document.
use vstd::prelude::*;

use crate::document::{char_pos, lemma_valid_at, offset, valid_at, valid_pos, Document, Pos};
use crate::text::{
    full_text, joined, lemma_full_text_len, lemma_row_end_in_text, lemma_row_start_next,
    row_start, str_chars,
};

verus! {

/// The Unicode `Alphabetic` or `Numeric` property of a character, as
/// `char::is_alphanumeric` reports it.
pub uninterp spec fn alphanumeric(c: char) -> bool;

/// Whether `c` is alphanumeric (`char::is_alphanumeric`).
///
/// The contract names the result and says nothing more of it: which
/// characters are alphabetic or numeric is the Unicode tables' business.
#[verifier::external_body]
fn is_alphanumeric(c: char) -> (res: bool)
    ensures
        res == alphanumeric(c),
{
    c.is_alphanumeric()
}

/// The characters that separate words: space, tab and line break.
pub open spec fn blank(c: char) -> bool {
    c == ' ' || c == '\t' || c == '\n'
}

/// The run of characters `c` belongs to: a word, blanks, or other signs.
pub open spec fn class(c: char) -> int {
    if alphanumeric(c) {
        0
    } else if blank(c) {
        1
    } else {
        2
    }
}

/// `c` ends a run of the class `state` that is not a run of blanks.
pub open spec fn ends_run(state: int, c: char) -> bool {
    if state == 0 {
        !alphanumeric(c)
    } else {
        alphanumeric(c) || blank(c)
    }
}

/// The first index from `j` on where a run of `state` ends, or -1.
pub open spec fn run_end(t: Seq<char>, state: int, j: int) -> int
    decreases t.len() - j,
{
    if j < 0 || j >= t.len() {
        -1
    } else if (state == 1 && !blank(t[j])) || (state != 1 && ends_run(state, t[j])) {
        j
    } else {
        run_end(t, state, j + 1)
    }
}

/// The first index from `j` on that is not a blank, or -1.
pub open spec fn non_blank_from(t: Seq<char>, j: int) -> int
    decreases t.len() - j,
{
    if j < 0 || j >= t.len() {
        -1
    } else if !blank(t[j]) {
        j
    } else {
        non_blank_from(t, j + 1)
    }
}

/// `c` ends a run of `state`: a character that is not a blank ends a run of
/// blanks, and `ends_run` tells for the other runs.
pub open spec fn run_stops(state: int, c: char) -> bool {
    (state == 1 && !blank(c)) || (state != 1 && ends_run(state, c))
}

/// `run_end` is the first index from `j` on where a run of `state` ends, or
/// -1 when the run goes on to the end of the text.
pub proof fn lemma_run_end_first(t: Seq<char>, state: int, j: int)
    requires
        0 <= j,
    ensures
        run_end(t, state, j) == -1 <==> forall|i: int| j <= i < t.len() ==> !run_stops(state, #[trigger] t[i]),
        run_end(t, state, j) != -1 ==> {
            let e = run_end(t, state, j);
            &&& j <= e < t.len()
            &&& run_stops(state, t[e])
            &&& forall|i: int| j <= i < e ==> !run_stops(state, #[trigger] t[i])
        },
    decreases t.len() - j,
{
    if j < t.len() && !run_stops(state, t[j]) {
        lemma_run_end_first(t, state, j + 1);
    }
}

/// `non_blank_from` is the first index from `j` on that is not a blank, or
/// -1 when only blanks follow.
pub proof fn lemma_non_blank_first(t: Seq<char>, j: int)
    requires
        0 <= j,
    ensures
        non_blank_from(t, j) == -1 <==> forall|i: int| j <= i < t.len() ==> blank(#[trigger] t[i]),
        non_blank_from(t, j) != -1 ==> {
            let e = non_blank_from(t, j);
            &&& j <= e < t.len()
            &&& !blank(t[e])
            &&& forall|i: int| j <= i < e ==> blank(#[trigger] t[i])
        },
    decreases t.len() - j,
{
    if j < t.len() && blank(t[j]) {
        lemma_non_blank_first(t, j + 1);
    }
}

/// `fwd_scan` stated by the first-index scans: from a run that is not of
/// blanks, where that run ends; from blanks, where the run that follows the
/// blanks ends.
pub proof fn lemma_fwd_scan_runs(t: Seq<char>, j: int, state: int)
    requires
        0 <= j,
    ensures
        fwd_scan(t, j, state) == if state == 1 {
            let q = non_blank_from(t, j);
            if q < 0 {
                -1
            } else {
                run_end(t, class(t[q]), q + 1)
            }
        } else {
            run_end(t, state, j)
        },
    decreases t.len() - j,
{
    if j < t.len() {
        if state == 1 {
            if blank(t[j]) {
                lemma_fwd_scan_runs(t, j + 1, 1);
            } else {
                assert(class(t[j]) != 1);
                lemma_fwd_scan_runs(t, j + 1, class(t[j]));
            }
        } else if !ends_run(state, t[j]) {
            lemma_fwd_scan_runs(t, j + 1, state);
        }
    }
}

/// The start of the next word from offset `i`: past the end of the run at
/// `i`, then past the blanks after it. Where no run ends, or only blanks
/// follow, it stays at the last place reached.
pub open spec fn next_word_offset(t: Seq<char>, i: int) -> int {
    if i < 0 || i >= t.len() {
        i
    } else {
        let j0 = run_end(t, class(t[i]), i);
        let j = if j0 < 0 {
            i
        } else {
            j0
        };
        let k = non_blank_from(t, j);
        if k < 0 {
            j
        } else {
            k
        }
    }
}

/// Scanning back from `j` through a run of `state` (blanks are skipped, and
/// the run after them is taken up): the index just after where it ends, or 0.
pub open spec fn back_scan(t: Seq<char>, j: int, state: int) -> int
    decreases j + 1,
{
    if j < 0 || j >= t.len() {
        0
    } else if state == 1 {
        if blank(t[j]) {
            back_scan(t, j - 1, 1)
        } else {
            back_scan(t, j - 1, class(t[j]))
        }
    } else if ends_run(state, t[j]) {
        j + 1
    } else {
        back_scan(t, j - 1, state)
    }
}

/// The start of the word before offset `i`.
pub open spec fn prev_word_offset(t: Seq<char>, i: int) -> int {
    if i <= 0 || i > t.len() {
        i
    } else {
        back_scan(t, i - 2, class(t[i - 1]))
    }
}

/// Scanning forward from `j` through a run of `state` (blanks are skipped,
/// and the run after them is taken up): the index where it ends, or -1.
pub open spec fn fwd_scan(t: Seq<char>, j: int, state: int) -> int
    decreases t.len() - j,
{
    if j < 0 || j >= t.len() {
        -1
    } else if state == 1 {
        if blank(t[j]) {
            fwd_scan(t, j + 1, 1)
        } else {
            fwd_scan(t, j + 1, class(t[j]))
        }
    } else if ends_run(state, t[j]) {
        j
    } else {
        fwd_scan(t, j + 1, state)
    }
}

/// The last character of the next word after offset `i`; `i` itself when
/// the text ends first.
pub open spec fn word_end_offset(t: Seq<char>, i: int) -> int {
    if i < 0 || i + 1 >= t.len() {
        i
    } else {
        let m = fwd_scan(t, i + 1, class(t[i + 1]));
        if m < 0 {
            i
        } else {
            m - 1
        }
    }
}

/// The class of `c`.
fn class_of(c: char) -> (res: u8)
    ensures
        res as int == class(c),
{
    if is_alphanumeric(c) {
        0
    } else if c == ' ' || c == '\t' || c == '\n' {
        1
    } else {
        2
    }
}

/// Whether `c` ends a run of `state`, a run of blanks included.
fn stops(state: u8, c: char) -> (res: bool)
    requires
        state <= 2,
    ensures
        res == ((state == 1 && !blank(c)) || (state != 1 && ends_run(state as int, c))),
{
    let alnum = is_alphanumeric(c);
    let bl = c == ' ' || c == '\t' || c == '\n';
    if state == 1 {
        !bl
    } else if state == 0 {
        !alnum
    } else {
        alnum || bl
    }
}

impl Document {
    /// The offset of `pos` in the text of the document.
    fn char_offset_of(&self, pos: Pos) -> (res: usize)
        requires
            valid_pos(self@, pos),
            joined(self@).len() <= usize::MAX,
        ensures
            res == offset(self@, pos),
    {
        let ghost l = self@;
        let mut start: usize = 0;
        let mut r: usize = 0;
        proof {
            lemma_full_text_len(l);
        }
        assert(l.take(0) =~= Seq::<Seq<char>>::empty());
        while r < pos.row
            invariant
                r <= pos.row < l.len(),
                start == row_start(l, r as int),
                l == self@,
                joined(l).len() <= usize::MAX,
                full_text(l).len() == joined(l).len() + 1,
            decreases pos.row - r,
        {
            proof {
                lemma_row_end_in_text(l, r as int);
                lemma_row_start_next(l, r as int);
                lemma_row_end_in_text(l, pos.row as int);
                crate::document::lemma_row_start_mono(l, r + 1, pos.row as int);
            }
            let len = self.char_len(r);
            start = start + len + 1;
            r = r + 1;
        }
        proof {
            lemma_row_end_in_text(l, pos.row as int);
        }
        start + pos.col
    }

    /// The position at offset `o` of the text of the document.
    fn char_pos_at(&self, o: usize) -> (p: Pos)
        requires
            self@.len() > 0,
            o <= joined(self@).len(),
            joined(self@).len() <= usize::MAX,
        ensures
            valid_pos(self@, p),
            offset(self@, p) == o,
    {
        let ghost l = self@;
        let n = self.lines.len();
        let mut start: usize = 0;
        let mut r: usize = 0;
        proof {
            lemma_full_text_len(l);
        }
        assert(l.take(0) =~= Seq::<Seq<char>>::empty());
        proof {
            lemma_row_start_next(l, n - 1);
            assert(l.take(n as int) =~= l);
        }
        let mut len = self.char_len(0);
        proof {
            lemma_row_end_in_text(l, 0);
        }
        while o > start + len
            invariant
                r < n == l.len(),
                start + len <= joined(l).len(),
                start == row_start(l, r as int),
                len == l[r as int].len(),
                start <= o,
                l == self@,
                o <= joined(l).len() <= usize::MAX,
                full_text(l).len() == joined(l).len() + 1,
                row_start(l, n - 1) + l[n - 1].len() + 1 == full_text(l).len(),
            decreases n - r,
        {
            proof {
                lemma_row_start_next(l, r as int);
            }
            start = start + len + 1;
            r = r + 1;
            len = self.char_len(r);
            proof {
                lemma_row_end_in_text(l, r as int);
            }
        }
        Pos { row: r, col: o - start }
    }

    /// The offset in the text of the document of the byte position `pos`.
    pub fn offset_of(&self, pos: Pos) -> (res: usize)
        requires
            valid_at(self@, pos),
            joined(self@).len() <= usize::MAX,
        ensures
            res == offset(self@, char_pos(self@, pos)),
    {
        proof {
            lemma_valid_at(self@, pos);
        }
        let cp = self.char_pos_of(pos);
        self.char_offset_of(cp)
    }

    /// The byte position at offset `o` of the text of the document.
    pub fn pos_at(&self, o: usize) -> (p: Pos)
        requires
            self@.len() > 0,
            o <= joined(self@).len(),
            joined(self@).len() <= usize::MAX,
        ensures
            valid_at(self@, p),
            offset(self@, char_pos(self@, p)) == o,
    {
        let cp = self.char_pos_at(o);
        let p = self.byte_pos_of(cp);
        proof {
            crate::columns::lemma_char_col(self@[cp.row as int], cp.col as int);
        }
        p
    }

    /// The text of the document as characters.
    fn text_chars(&self) -> (t: Vec<char>)
        ensures
            t@ == joined(self@),
    {
        let content = self.content();
        str_chars(content.as_str())
    }

    /// The start of the next word after `pos`.
    pub fn next_word(&self, pos: Pos) -> (res: Pos)
        requires
            valid_at(self@, pos),
        ensures
            valid_at(self@, res),
            offset(self@, char_pos(self@, res)) == next_word_offset(joined(self@), offset(self@, char_pos(self@, pos))),
    {
        let t = self.text_chars();
        assert(t@.len() == t.len());
        let i = self.offset_of(pos);
        if i >= t.len() {
            return pos;
        }
        let state = class_of(t[i]);
        let mut j = i;
        while j < t.len() && !stops(state, t[j])
            invariant
                i <= j <= t.len(),
                state <= 2,
                run_end(t@, state as int, i as int) == run_end(t@, state as int, j as int),
            decreases t.len() - j,
        {
            j = j + 1;
        }
        if j >= t.len() {
            j = i;
        }
        let mut k = j;
        while k < t.len() && (t[k] == ' ' || t[k] == '\t' || t[k] == '\n')
            invariant
                j <= k <= t.len(),
                non_blank_from(t@, j as int) == non_blank_from(t@, k as int),
            decreases t.len() - k,
        {
            k = k + 1;
        }
        if k >= t.len() {
            k = j;
        }
        self.pos_at(k)
    }

    /// The start of the word before `pos`.
    pub fn prev_word(&self, pos: Pos) -> (res: Pos)
        requires
            valid_at(self@, pos),
        ensures
            valid_at(self@, res),
            offset(self@, char_pos(self@, res)) == prev_word_offset(joined(self@), offset(self@, char_pos(self@, pos))),
    {
        let t = self.text_chars();
        assert(t@.len() == t.len());
        let i = self.offset_of(pos);
        proof {
            lemma_valid_at(self@, pos);
            crate::document::lemma_offset_order(self@, char_pos(self@, pos), char_pos(self@, pos));
        }
        if i == 0 {
            return pos;
        }
        let mut state = class_of(t[i - 1]);
        let mut j = i - 1;
        let mut res: usize = 0;
        while j > 0
            invariant_except_break
                0 <= j < i <= t.len(),
                state <= 2,
                back_scan(t@, i - 2, class(t@[i - 1])) == back_scan(t@, j - 1, state as int),
                res == 0,
            ensures
                res == back_scan(t@, i - 2, class(t@[i - 1])),
                res <= t.len(),
            decreases j,
        {
            let c = t[j - 1];
            if state == 1 {
                if !(c == ' ' || c == '\t' || c == '\n') {
                    state = class_of(c);
                }
            } else if stops(state, c) {
                res = j;
                break ;
            }
            j = j - 1;
        }
        self.pos_at(res)
    }

    /// The last character of the next word after `pos`.
    pub fn last_char_of_next_word(&self, pos: Pos) -> (res: Pos)
        requires
            valid_at(self@, pos),
        ensures
            valid_at(self@, res),
            offset(self@, char_pos(self@, res)) == word_end_offset(joined(self@), offset(self@, char_pos(self@, pos))),
    {
        let t = self.text_chars();
        assert(t@.len() == t.len());
        let i = self.offset_of(pos);
        if i >= t.len() || i + 1 >= t.len() {
            return pos;
        }
        let mut state = class_of(t[i + 1]);
        let mut j = i + 1;
        let mut res = i;
        while j < t.len()
            invariant_except_break
                i + 1 <= j <= t.len(),
                state <= 2,
                fwd_scan(t@, i + 1, class(t@[i + 1])) == fwd_scan(t@, j as int, state as int),
                res == i,
            ensures
                res == word_end_offset(t@, i as int),
                res <= t.len(),
            decreases t.len() - j,
        {
            let c = t[j];
            if state == 1 {
                if !(c == ' ' || c == '\t' || c == '\n') {
                    state = class_of(c);
                }
            } else if stops(state, c) {
                res = j - 1;
                break ;
            }
            j = j + 1;
        }
        self.pos_at(res)
    }
}

} // verus!
