//! The document being edited: a file path and its lines.
//!
//! The public operations take positions whose columns count bytes of the
//! line's UTF-8 encoding, as `String` indexes it: a column equal to the
//! line's length in bytes stands for the line break that ends the line. An
//! edit at a column that falls inside a character is not defined (the
//! `requires` leave it out). Inside, the model works on character positions
//! (`valid_pos`, `inserted`, `deleted`, ...); `char_pos` and `byte_pos`
//! convert between the two.
use vstd::prelude::*;

use crate::app::Mode;
use crate::columns::{
    byte_col_of, byte_len, char_col, char_col_of, lemma_char_col, lemma_char_col_order,
    lemma_line_end, lemma_on_char, on_char,
};
use crate::text::{
    full_text, joined, lemma_full_text_around, lemma_full_text_concat, lemma_full_text_len,
    lemma_full_text_single, lemma_joined_injective, lemma_row_end_in_text, lemma_row_start_next,
    lemma_row_start_prefix, lemma_row_start_shift, lemma_split_lines, line_chars, no_breaks,
    has_no_break, lemma_split_no_break, push_char, push_chars, push_text, row_start, split_lines,
    split_text, string_of,
    views,
};

verus! {

/// A position in a document: a line and a column within it.
#[derive(Clone, Copy, PartialEq, Eq, Structural, Debug)]
pub struct Pos {
    pub row: usize,
    pub col: usize,
}

/// A file's path and its lines, without their line breaks.
pub struct Document {
    pub file_path: String,
    pub lines: Vec<String>,
}

impl View for Document {
    type V = Seq<Seq<char>>;

    open spec fn view(&self) -> Seq<Seq<char>> {
        views(self.lines@)
    }
}

/// `p` lies on a line of `lines`, at most one past its last character.
pub open spec fn valid_pos(lines: Seq<Seq<char>>, p: Pos) -> bool {
    p.row < lines.len() && p.col <= lines[p.row as int].len()
}

/// `a` comes no later than `b`, line first, then column.
pub open spec fn pos_le(a: Pos, b: Pos) -> bool {
    a.row < b.row || (a.row == b.row && a.col <= b.col)
}

/// The offset of `p` in the text of `lines`.
pub open spec fn offset(lines: Seq<Seq<char>>, p: Pos) -> int {
    row_start(lines, p.row as int) + p.col
}

/// The lines `parts`, with `prefix` put before the first and `rest` after the last.
pub open spec fn spliced(prefix: Seq<char>, parts: Seq<Seq<char>>, rest: Seq<char>) -> Seq<
    Seq<char>,
> {
    Seq::new(
        parts.len(),
        |j: int|
            (if j == 0 {
                prefix
            } else {
                Seq::empty()
            }) + parts[j] + (if j == parts.len() - 1 {
                rest
            } else {
                Seq::empty()
            }),
    )
}

/// The lines after `s` is inserted at `pos`: the line at `pos` is cut there,
/// and the lines of `s` are put between its two halves.
pub open spec fn inserted(lines: Seq<Seq<char>>, pos: Pos, s: Seq<char>) -> Seq<Seq<char>> {
    let line = lines[pos.row as int];
    lines.take(pos.row as int) + spliced(
        line.take(pos.col as int),
        split_lines(s),
        line.skip(pos.col as int),
    ) + lines.skip(pos.row + 1)
}

/// The position just after the text inserted by `inserted(lines, pos, s)`.
pub open spec fn insert_end(lines: Seq<Seq<char>>, pos: Pos, s: Seq<char>) -> Pos {
    let parts = split_lines(s);
    let k = parts.len() - 1;
    Pos {
        row: (pos.row + k) as usize,
        col: ((if k == 0 {
            pos.col as int
        } else {
            0
        }) + parts[k].len()) as usize,
    }
}

/// A deletion that starts at the end of a line and ends past it changes nothing.
pub open spec fn deletion_is_void(lines: Seq<Seq<char>>, start: Pos, end: Pos) -> bool {
    start.row == end.row && start.col == lines[start.row as int].len() && end.col
        > lines[start.row as int].len()
}

/// The inputs on which a deletion from `start` to `end` is defined.
pub open spec fn deletable(lines: Seq<Seq<char>>, start: Pos, end: Pos) -> bool {
    &&& start.row < lines.len()
    &&& end.row < lines.len()
    &&& pos_le(start, end)
    &&& start.col <= lines[start.row as int].len()
    &&& (end.col <= lines[end.row as int].len() || deletion_is_void(lines, start, end))
}

/// The end of the deletion reaches the line break that ends its line.
pub open spec fn deletes_break(lines: Seq<Seq<char>>, end: Pos) -> bool {
    end.col == lines[end.row as int].len()
}

/// The characters that stay after `end` on the merged line.
pub open spec fn kept_tail(lines: Seq<Seq<char>>, end: Pos) -> Seq<char> {
    if deletes_break(lines, end) {
        if end.row + 1 < lines.len() {
            lines[end.row + 1]
        } else {
            Seq::empty()
        }
    } else {
        lines[end.row as int].skip(end.col + 1)
    }
}

/// The first line that stays after the merged line.
pub open spec fn kept_from(lines: Seq<Seq<char>>, end: Pos) -> int {
    if deletes_break(lines, end) && end.row + 1 < lines.len() {
        end.row + 2
    } else {
        end.row + 1
    }
}

/// The lines after deleting from `start` to `end`, both included.
pub open spec fn deleted(lines: Seq<Seq<char>>, start: Pos, end: Pos) -> Seq<Seq<char>> {
    if deletion_is_void(lines, start, end) {
        lines
    } else {
        lines.take(start.row as int) + seq![
            lines[start.row as int].take(start.col as int) + kept_tail(lines, end),
        ] + lines.skip(kept_from(lines, end))
    }
}

/// The text that deleting from `start` to `end` removes.
pub open spec fn removed_text(lines: Seq<Seq<char>>, start: Pos, end: Pos) -> Seq<char> {
    if deletion_is_void(lines, start, end) {
        Seq::empty()
    } else {
        let ls = lines[start.row as int];
        let le = lines[end.row as int];
        let stop = if deletes_break(lines, end) {
            le.len() as int
        } else {
            end.col + 1
        };
        let brk = if deletes_break(lines, end) && end.row + 1 < lines.len() {
            seq!['\n']
        } else {
            Seq::empty()
        };
        if start.row == end.row {
            ls.subrange(start.col as int, stop) + brk
        } else {
            ls.skip(start.col as int).push('\n') + full_text(
                lines.subrange(start.row + 1, end.row as int),
            ) + le.take(stop) + brk
        }
    }
}

/// `p` lies on a line of `lines`, at a byte column between two characters
/// (or at an end of the line).
pub open spec fn valid_at(lines: Seq<Seq<char>>, p: Pos) -> bool {
    p.row < lines.len() && on_char(lines[p.row as int], p.col as int)
}

/// The character position that the byte position `p` stands for.
pub open spec fn char_pos(lines: Seq<Seq<char>>, p: Pos) -> Pos {
    Pos { row: p.row, col: char_col(lines[p.row as int], p.col as int) as usize }
}

/// The byte position of the character position `p`.
pub open spec fn byte_pos(lines: Seq<Seq<char>>, p: Pos) -> Pos {
    Pos { row: p.row, col: byte_len(lines[p.row as int].take(p.col as int)) as usize }
}

/// A deletion between byte positions that starts at the end of a line and
/// ends past it changes nothing.
pub open spec fn void_at(lines: Seq<Seq<char>>, start: Pos, end: Pos) -> bool {
    start.row == end.row && start.col == byte_len(lines[start.row as int]) && end.col > byte_len(
        lines[start.row as int],
    )
}

/// The inputs on which a deletion between the byte positions `start` and
/// `end` is defined: `start` falls between characters, and the byte at `end`
/// is a whole character (or the line's break).
pub open spec fn deletable_at(lines: Seq<Seq<char>>, start: Pos, end: Pos) -> bool {
    &&& valid_at(lines, start)
    &&& end.row < lines.len()
    &&& pos_le(start, end)
    &&& (void_at(lines, start, end) || end.col == byte_len(lines[end.row as int]) || (on_char(
        lines[end.row as int],
        end.col as int,
    ) && on_char(lines[end.row as int], end.col + 1)))
}

/// The lines after deleting between the byte positions `start` and `end`,
/// both included.
pub open spec fn deleted_at(lines: Seq<Seq<char>>, start: Pos, end: Pos) -> Seq<Seq<char>> {
    if void_at(lines, start, end) {
        lines
    } else {
        deleted(lines, char_pos(lines, start), char_pos(lines, end))
    }
}

/// The text that deleting between the byte positions `start` and `end`
/// removes.
pub open spec fn removed_at(lines: Seq<Seq<char>>, start: Pos, end: Pos) -> Seq<char> {
    if void_at(lines, start, end) {
        Seq::empty()
    } else {
        removed_text(lines, char_pos(lines, start), char_pos(lines, end))
    }
}

/// The lines after inserting `s` at the byte position `pos`.
pub open spec fn inserted_at(lines: Seq<Seq<char>>, pos: Pos, s: Seq<char>) -> Seq<Seq<char>> {
    inserted(lines, char_pos(lines, pos), s)
}

/// The byte position just after `s` once inserted at the byte position `pos`.
pub open spec fn insert_end_at(lines: Seq<Seq<char>>, pos: Pos, s: Seq<char>) -> Pos {
    byte_pos(inserted_at(lines, pos, s), insert_end(lines, char_pos(lines, pos), s))
}

/// A byte position between characters stands for a valid character position.
pub proof fn lemma_valid_at(lines: Seq<Seq<char>>, p: Pos)
    requires
        valid_at(lines, p),
    ensures
        valid_pos(lines, char_pos(lines, p)),
        byte_pos(lines, char_pos(lines, p)) == p,
{
    lemma_on_char(lines[p.row as int], p.col as int);
}

/// A deletion between byte positions that is defined and changes something
/// is a deletion between the character positions they stand for.
pub proof fn lemma_deletable_at(lines: Seq<Seq<char>>, start: Pos, end: Pos)
    requires
        deletable_at(lines, start, end),
        !void_at(lines, start, end),
    ensures
        deletable(lines, char_pos(lines, start), char_pos(lines, end)),
        !deletion_is_void(lines, char_pos(lines, start), char_pos(lines, end)),
        valid_at(lines, end),
{
    let le = lines[end.row as int];
    lemma_line_end(le);
    assert(on_char(le, end.col as int));
    lemma_on_char(lines[start.row as int], start.col as int);
    lemma_on_char(le, end.col as int);
    if start.row == end.row {
        lemma_char_col_order(le, start.col as int, end.col as int);
    }
}

/// The start and the end of a line fall between characters, and deleting
/// from the start of a line to the end of the same or a later one is defined.
pub proof fn lemma_line_edges_at(lines: Seq<Seq<char>>, s: Pos, e: Pos)
    requires
        s.row <= e.row < lines.len(),
        s.col == 0,
        e.col == byte_len(lines[e.row as int]),
    ensures
        valid_at(lines, s),
        valid_at(lines, e),
        deletable_at(lines, s, e),
{
    lemma_line_end(lines[s.row as int]);
    lemma_line_end(lines[e.row as int]);
}

/// The end of a line falls between characters.
pub proof fn lemma_line_end_at(lines: Seq<Seq<char>>, p: Pos)
    requires
        p.row < lines.len(),
        p.col == byte_len(lines[p.row as int]),
    ensures
        valid_at(lines, p),
        deletable_at(lines, p, p),
{
    lemma_line_end(lines[p.row as int]);
}

/// Deleting between byte positions keeps the lines free of breaks.
pub proof fn lemma_deleted_at_keeps(lines: Seq<Seq<char>>, start: Pos, end: Pos)
    requires
        deletable_at(lines, start, end),
    ensures
        no_breaks(lines) ==> no_breaks(deleted_at(lines, start, end)),
{
    if !void_at(lines, start, end) {
        lemma_deletable_at(lines, start, end);
        lemma_delete_keeps_no_breaks(lines, char_pos(lines, start), char_pos(lines, end));
    }
}

/// Inserting at a byte position keeps the lines free of breaks and keeps
/// at least as many lines.
pub proof fn lemma_inserted_at_keeps(lines: Seq<Seq<char>>, pos: Pos, s: Seq<char>)
    requires
        valid_at(lines, pos),
    ensures
        no_breaks(lines) ==> no_breaks(inserted_at(lines, pos, s)),
        inserted_at(lines, pos, s).len() >= lines.len(),
{
    lemma_valid_at(lines, pos);
    lemma_insert_keeps_no_breaks(lines, char_pos(lines, pos), s);
}

/// After deleting the character at a byte position, that position still
/// falls between characters.
pub proof fn lemma_delete_one_keeps_place(lines: Seq<Seq<char>>, p: Pos)
    requires
        deletable_at(lines, p, p),
    ensures
        !void_at(lines, p, p),
        valid_at(deleted_at(lines, p, p), p),
{
    let line = lines[p.row as int];
    lemma_on_char(line, p.col as int);
    let k = char_col(line, p.col as int);
    crate::columns::lemma_byte_len_mono(line, k, line.len() as int);
    assert(line.take(line.len() as int) =~= line);
    lemma_deletable_at(lines, p, p);
    let cp = char_pos(lines, p);
    let new = deleted(lines, cp, cp);
    let merged = line.take(k) + kept_tail(lines, cp);
    assert(new[p.row as int] == merged);
    assert(merged.take(k) =~= line.take(k));
    assert(on_char(merged, p.col as int)) by {
        assert(byte_len(merged.take(k)) == p.col);
    }
}

/// The last column the cursor may take on a line of `len` characters in `mode`.
pub open spec fn col_limit(len: int, mode: Mode) -> int {
    match mode {
        Mode::Insert | Mode::Visual(_) => len,
        _ => if len > 0 {
            len - 1
        } else {
            0
        },
    }
}

/// The last row the cursor may take in a document of `n` lines.
pub open spec fn row_limit(n: int) -> int {
    if n >= 2 {
        n - 2
    } else {
        0
    }
}

/// Appends copies of `src[lo..hi]` to `dst`.
pub fn copy_lines(dst: &mut Vec<String>, src: &Vec<String>, lo: usize, hi: usize)
    requires
        lo <= hi <= src.len(),
    ensures
        views(final(dst)@) == views(old(dst)@) + views(src@).subrange(lo as int, hi as int),
{
    let ghost start = views(dst@);
    for i in lo..hi
        invariant
            views(dst@) == start + views(src@).subrange(lo as int, i as int),
            hi <= src.len(),
    {
        let ghost before = dst@;
        dst.push(src[i].clone());
        assert(views(dst@) =~= views(before).push(src@[i as int]@));
        assert(start + views(src@).subrange(lo as int, i + 1) =~= (start + views(src@).subrange(
            lo as int,
            i as int,
        )).push(src@[i as int]@));
    }
}

impl Document {
    /// A document for `file_path` holding the lines of `content`.
    pub fn from_content(file_path: String, content: &str) -> (doc: Document)
        ensures
            doc@ == split_lines(content@),
            doc.file_path == file_path,
            no_breaks(doc@),
    {
        proof {
            lemma_split_lines(content@);
        }
        Document { file_path, lines: split_text(content) }
    }

    /// The text to write back to the file: the lines joined by line breaks.
    pub fn content(&self) -> (res: String)
        ensures
            res@ == joined(self@),
    {
        let mut res = String::new();
        let n = self.lines.len();
        for r in 0..n
            invariant
                n == self@.len(),
                res@ == joined(self@.take(r as int)),
        {
            let ghost before = res@;
            if r > 0 {
                push_char(&mut res, '\n');
            }
            push_text(&mut res, self.lines[r].as_str());
            proof {
                let l = self@;
                assert(l.take(r + 1).drop_last() =~= l.take(r as int));
                assert(l.take(r + 1).last() == l[r as int]);
                if r > 0 {
                    lemma_full_text_len(l.take(r as int));
                    assert(full_text(l.take(r as int)) =~= before.push('\n'));
                } else {
                    assert(full_text(l.take(0)) =~= Seq::<char>::empty());
                }
                assert(res@ =~= joined(l.take(r + 1)));
            }
        }
        assert(self@.take(n as int) =~= self@);
        res
    }

    /// The lines of the document.
    pub fn get_content(&self) -> (res: &Vec<String>)
        ensures
            *res == self.lines,
    {
        &self.lines
    }

    /// A copy of the lines of the document.
    pub fn snapshot(&self) -> (res: Vec<String>)
        ensures
            views(res@) == self@,
    {
        let mut res: Vec<String> = Vec::new();
        copy_lines(&mut res, &self.lines, 0, self.lines.len());
        assert(views(res@) =~= self@);
        res
    }

    /// Replaces the lines of the document.
    pub fn restore(&mut self, lines: Vec<String>)
        ensures
            final(self).lines == lines,
            final(self).file_path == old(self).file_path,
    {
        self.lines = lines;
    }

    /// Inserts `s` at the character position `pos` and returns the character
    /// position just after it.
    fn insert_chars(&mut self, pos: Pos, s: &str) -> (end: Pos)
        requires
            valid_pos(old(self)@, pos),
        ensures
            final(self)@ == inserted(old(self)@, pos, s@),
            final(self).file_path == old(self).file_path,
            end == insert_end(old(self)@, pos, s@),
            valid_pos(final(self)@, end),
            offset(final(self)@, end) == offset(old(self)@, pos) + s@.len(),
            no_breaks(old(self)@) ==> no_breaks(final(self)@),
    {
        let ghost old_lines = self@;
        let parts = split_text(s);
        proof {
            lemma_split_lines(s@);
        }
        let line = line_chars(&self.lines[pos.row]);
        let n = self.lines.len();
        let mut new_lines: Vec<String> = Vec::new();
        copy_lines(&mut new_lines, &self.lines, 0, pos.row);
        let k = parts.len() - 1;
        let ghost prefix = line@.take(pos.col as int);
        let ghost rest = line@.skip(pos.col as int);
        let ghost mid = spliced(prefix, views(parts@), rest);
        assert(views(new_lines@) =~= old_lines.take(pos.row as int) + mid.take(0));
        for j in 0..parts.len()
            invariant
                views(new_lines@) == old_lines.take(pos.row as int) + mid.take(j as int),
                k + 1 == parts.len(),
                line@ == old_lines[pos.row as int],
                pos.col <= line.len(),
                mid == spliced(prefix, views(parts@), rest),
                prefix == line@.take(pos.col as int),
                rest == line@.skip(pos.col as int),
        {
            let mut piece = String::new();
            if j == 0 {
                push_chars(&mut piece, &line, 0, pos.col);
            }
            push_text(&mut piece, parts[j].as_str());
            if j == k {
                push_chars(&mut piece, &line, pos.col, line.len());
            }
            proof {
                assert(line@.subrange(0, pos.col as int) =~= prefix);
                assert(line@.subrange(pos.col as int, line@.len() as int) =~= rest);
                assert(piece@ =~= mid[j as int]);
            }
            let ghost before = new_lines@;
            new_lines.push(piece);
            assert(views(new_lines@) =~= views(before).push(piece@));
            assert(mid.take(j + 1) =~= mid.take(j as int).push(mid[j as int]));
        }
        assert(mid.take(parts.len() as int) =~= mid);
        copy_lines(&mut new_lines, &self.lines, pos.row + 1, n);
        assert(views(new_lines@) =~= inserted(old_lines, pos, s@));
        let total = new_lines.len();
        proof {
            lemma_split_lines(s@);
            assert(views(new_lines@)[pos.row + k] == mid[k as int]);
        }
        let last = line_chars(&new_lines[pos.row + k]);
        let col = last.len() - (line.len() - pos.col);
        self.lines = new_lines;
        let end = Pos { row: pos.row + k, col };
        proof {
            lemma_insert_end(old_lines, pos, s@);
        }
        end
    }

    /// The text between the character positions `start` and `end`, both
    /// included, that `delete_chars` would remove.
    fn copy_chars(&self, start: Pos, end: Pos) -> (res: String)
        requires
            deletable(self@, start, end),
        ensures
            res@ == removed_text(self@, start, end),
    {
        let ghost l = self@;
        let ls = line_chars(&self.lines[start.row]);
        let le = line_chars(&self.lines[end.row]);
        if start.row == end.row && start.col == ls.len() && end.col > ls.len() {
            return String::new();
        }
        let n = self.lines.len();
        let del_end = end.col == le.len();
        let mut removed = String::new();
        let stop = if del_end {
            le.len()
        } else {
            end.col + 1
        };
        if start.row == end.row {
            push_chars(&mut removed, &ls, start.col, stop);
        } else {
            push_chars(&mut removed, &ls, start.col, ls.len());
            push_char(&mut removed, '\n');
            let ghost head = removed@;
            assert(l.subrange(start.row + 1, start.row + 1) =~= Seq::<Seq<char>>::empty());
            assert(removed@ =~= head + full_text(l.subrange(start.row + 1, start.row + 1)));
            for r in start.row + 1..end.row
                invariant
                    removed@ == head + full_text(l.subrange(start.row + 1, r as int)),
                    l == self@,
                    start.row < end.row < self@.len(),
            {
                push_text(&mut removed, self.lines[r].as_str());
                push_char(&mut removed, '\n');
                assert(l.subrange(start.row + 1, r + 1).drop_last() =~= l.subrange(
                    start.row + 1,
                    r as int,
                ));
            }
            push_chars(&mut removed, &le, 0, stop);
        }
        if del_end && end.row + 1 < n {
            push_char(&mut removed, '\n');
        }
        proof {
            assert(ls@.subrange(start.col as int, ls@.len() as int) =~= ls@.skip(
                start.col as int,
            ));
            assert(le@.subrange(0, stop as int) =~= le@.take(stop as int));
            assert(removed@ =~= removed_text(l, start, end));
        }
        removed
    }

    /// Deletes the text between the character positions `start` and `end`,
    /// both included, and returns it.
    fn delete_chars(&mut self, start: Pos, end: Pos) -> (removed: String)
        requires
            deletable(old(self)@, start, end),
        ensures
            final(self)@ == deleted(old(self)@, start, end),
            final(self).file_path == old(self).file_path,
            removed@ == removed_text(old(self)@, start, end),
            no_breaks(old(self)@) ==> no_breaks(final(self)@),
    {
        let ghost l = self@;
        let removed = self.copy_chars(start, end);
        let ls = line_chars(&self.lines[start.row]);
        let le = line_chars(&self.lines[end.row]);
        if start.row == end.row && start.col == ls.len() && end.col > ls.len() {
            return removed;
        }
        let n = self.lines.len();
        let mut merged = string_of(&ls, 0, start.col);
        let skip: usize;
        if end.col == le.len() {
            if end.row + 1 < n {
                push_text(&mut merged, self.lines[end.row + 1].as_str());
                skip = end.row + 2;
            } else {
                skip = end.row + 1;
            }
        } else {
            push_chars(&mut merged, &le, end.col + 1, le.len());
            skip = end.row + 1;
        }
        let mut new_lines: Vec<String> = Vec::new();
        copy_lines(&mut new_lines, &self.lines, 0, start.row);
        let ghost before = new_lines@;
        new_lines.push(merged);
        copy_lines(&mut new_lines, &self.lines, skip, n);
        proof {
            assert(views(before.push(merged)) =~= views(before).push(merged@));
            assert(le@.subrange(end.col + 1, le@.len() as int) =~= le@.skip(end.col + 1));
            assert(ls@.subrange(0, start.col as int) =~= ls@.take(start.col as int));
            assert(merged@ =~= l[start.row as int].take(start.col as int) + kept_tail(l, end));
            assert(views(new_lines@) =~= deleted(l, start, end));
            lemma_delete_keeps_no_breaks(l, start, end);
        }
        self.lines = new_lines;
        removed
    }

    /// The character position that the byte position `pos` stands for.
    pub(crate) fn char_pos_of(&self, pos: Pos) -> (res: Pos)
        requires
            valid_at(self@, pos),
        ensures
            res == char_pos(self@, pos),
    {
        let chars = line_chars(&self.lines[pos.row]);
        match char_col_of(&chars, pos.col) {
            Some(k) => Pos { row: pos.row, col: k },
            None => Pos { row: pos.row, col: 0 },
        }
    }

    /// The byte position of the character position `pos`.
    pub(crate) fn byte_pos_of(&self, pos: Pos) -> (res: Pos)
        requires
            valid_pos(self@, pos),
        ensures
            res == byte_pos(self@, pos),
            res.col == byte_len(self@[pos.row as int].take(pos.col as int)),
    {
        let chars = line_chars(&self.lines[pos.row]);
        let n = self.line_len(pos.row);
        let b = byte_col_of(&chars, pos.col);
        Pos { row: pos.row, col: b }
    }

    /// Whether `pos` lies on a line, at a byte column between characters.
    pub fn is_valid(&self, pos: Pos) -> (res: bool)
        ensures
            res == valid_at(self@, pos),
    {
        if pos.row >= self.lines.len() {
            return false;
        }
        let chars = line_chars(&self.lines[pos.row]);
        char_col_of(&chars, pos.col).is_some()
    }

    /// Whether a deletion between the byte positions `start` and `end` is defined.
    pub fn can_delete(&self, start: Pos, end: Pos) -> (res: bool)
        ensures
            res == deletable_at(self@, start, end),
    {
        let n = self.lines.len();
        if end.row >= n || !self.is_valid(start) {
            return false;
        }
        if !(start.row < end.row || (start.row == end.row && start.col <= end.col)) {
            return false;
        }
        let ls = self.line_len(start.row);
        let le = self.line_len(end.row);
        if (start.row == end.row && start.col == ls && end.col > ls) || end.col == le {
            return true;
        }
        if end.col >= le {
            proof {
                assert(!on_char(self@[end.row as int], end.col + 1)) by {
                    if on_char(self@[end.row as int], end.col + 1) {
                        lemma_on_char(self@[end.row as int], end.col + 1);
                        crate::columns::lemma_byte_len_mono(
                            self@[end.row as int],
                            char_col(self@[end.row as int], end.col + 1),
                            self@[end.row as int].len() as int,
                        );
                        assert(self@[end.row as int].take(self@[end.row as int].len() as int)
                            =~= self@[end.row as int]);
                    }
                }
            }
            return false;
        }
        let chars = line_chars(&self.lines[end.row]);
        char_col_of(&chars, end.col).is_some() && char_col_of(&chars, end.col + 1).is_some()
    }

    /// Inserts `s` at the byte position `pos` and returns the byte position
    /// just after it.
    pub fn insert(&mut self, pos: Pos, s: &str) -> (end: Pos)
        requires
            valid_at(old(self)@, pos),
        ensures
            final(self)@ == inserted_at(old(self)@, pos, s@),
            final(self).file_path == old(self).file_path,
            end == insert_end_at(old(self)@, pos, s@),
            valid_at(final(self)@, end),
            final(self)@.len() >= old(self)@.len(),
            no_breaks(old(self)@) ==> no_breaks(final(self)@),
    {
        proof {
            lemma_valid_at(self@, pos);
        }
        let cp = self.char_pos_of(pos);
        proof {
            lemma_insert_keeps_no_breaks(self@, cp, s@);
        }
        let ce = self.insert_chars(cp, s);
        let end = self.byte_pos_of(ce);
        proof {
            lemma_char_col(self@[ce.row as int], ce.col as int);
            assert(end.col as int == byte_len(self@[ce.row as int].take(ce.col as int)));
        }
        end
    }

    /// The text between the byte positions `start` and `end`, both included,
    /// that `delete` would remove.
    pub fn copy(&self, start: Pos, end: Pos) -> (res: String)
        requires
            deletable_at(self@, start, end),
        ensures
            res@ == removed_at(self@, start, end),
    {
        let ls = self.line_len(start.row);
        if start.row == end.row && start.col == ls && end.col > ls {
            return String::new();
        }
        proof {
            lemma_deletable_at(self@, start, end);
        }
        let cs = self.char_pos_of(start);
        let ce = self.char_pos_of(end);
        self.copy_chars(cs, ce)
    }

    /// Deletes the text between the byte positions `start` and `end`, both
    /// included, and returns it.
    ///
    /// The end may stand on a line's break: the next line is then joined to
    /// the merged line. Starting at the end of a line and ending past it
    /// changes nothing.
    pub fn delete(&mut self, start: Pos, end: Pos) -> (removed: String)
        requires
            deletable_at(old(self)@, start, end),
        ensures
            final(self)@ == deleted_at(old(self)@, start, end),
            final(self).file_path == old(self).file_path,
            removed@ == removed_at(old(self)@, start, end),
            no_breaks(old(self)@) ==> no_breaks(final(self)@),
    {
        let ls = self.line_len(start.row);
        if start.row == end.row && start.col == ls && end.col > ls {
            return String::new();
        }
        proof {
            lemma_deletable_at(self@, start, end);
        }
        let cs = self.char_pos_of(start);
        let ce = self.char_pos_of(end);
        self.delete_chars(cs, ce)
    }

    /// Inserts an empty line at `row`.
    pub fn insert_line(&mut self, row: usize)
        requires
            row <= old(self)@.len(),
        ensures
            final(self)@ == old(self)@.insert(row as int, Seq::empty()),
            final(self).file_path == old(self).file_path,
            no_breaks(old(self)@) ==> no_breaks(final(self)@),
    {
        let ghost before = self.lines@;
        self.lines.insert(row, String::new());
        assert(views(self.lines@) =~= views(before).insert(row as int, Seq::empty()));
    }

    /// The number of characters of line `row`.
    pub fn char_len(&self, row: usize) -> (len: usize)
        requires
            row < self@.len(),
        ensures
            len == self@[row as int].len(),
    {
        line_chars(&self.lines[row]).len()
    }

    /// The number of bytes of line `row` (`String::len`).
    pub fn line_len(&self, row: usize) -> (len: usize)
        requires
            row < self@.len(),
        ensures
            len == byte_len(self@[row as int]),
    {
        self.lines[row].as_str().as_bytes().len()
    }

    /// The last column the cursor may take on line `row` in `mode`: the
    /// line's length in bytes in Insert and Visual mode, one less otherwise
    /// (0 on an empty line).
    pub fn col_bound(&self, row: usize, mode: Mode) -> (bound: usize)
        requires
            row < self@.len(),
        ensures
            bound == col_limit(byte_len(self@[row as int]), mode),
    {
        let len = self.line_len(row);
        match mode {
            Mode::Insert | Mode::Visual(_) => len,
            _ => if len > 0 {
                len - 1
            } else {
                0
            },
        }
    }

    /// The last row the cursor may take: two before the number of lines, or 0.
    pub fn row_bound(&self) -> (bound: usize)
        ensures
            bound == row_limit(self@.len() as int),
    {
        if self.lines.len() >= 2 {
            self.lines.len() - 2
        } else {
            0
        }
    }
}

/// The text of spliced lines: the prefix, the parts joined, the rest.
pub proof fn lemma_full_text_spliced(prefix: Seq<char>, parts: Seq<Seq<char>>, rest: Seq<char>)
    requires
        parts.len() >= 1,
    ensures
        full_text(spliced(prefix, parts, rest)) == prefix + full_text(parts).drop_last()
            + rest.push('\n'),
    decreases parts.len(),
{
    let m = spliced(prefix, parts, rest);
    lemma_full_text_len(parts);
    if parts.len() == 1 {
        assert(m =~= seq![prefix + parts[0] + rest]);
        lemma_full_text_single(prefix + parts[0] + rest);
        assert(parts =~= seq![parts[0]]);
        lemma_full_text_single(parts[0]);
        assert(full_text(parts).drop_last() =~= parts[0]);
        assert((prefix + parts[0] + rest).push('\n') =~= prefix + parts[0] + rest.push('\n'));
    } else {
        let init = parts.drop_last();
        lemma_full_text_spliced(prefix, init, Seq::empty());
        let mi = spliced(prefix, init, Seq::empty());
        assert(m.drop_last() =~= mi);
        assert(m.last() =~= parts.last() + rest);
        lemma_full_text_len(init);
        assert(full_text(mi) =~= prefix + full_text(init));
        assert(full_text(parts) == full_text(init) + parts.last().push('\n'));
        assert(full_text(parts).drop_last() =~= full_text(init) + parts.last());
        assert(full_text(m) =~= prefix + full_text(parts).drop_last() + rest.push('\n'));
    }
}

/// Where the inserted text ends, and that the lines keep having no breaks.
pub proof fn lemma_insert_end(lines: Seq<Seq<char>>, pos: Pos, s: Seq<char>)
    requires
        valid_pos(lines, pos),
        inserted(lines, pos, s).len() <= usize::MAX,
        inserted(lines, pos, s)[pos.row + split_lines(s).len() - 1].len() <= usize::MAX,
    ensures
        valid_pos(inserted(lines, pos, s), insert_end(lines, pos, s)),
        offset(inserted(lines, pos, s), insert_end(lines, pos, s)) == offset(lines, pos)
            + s.len(),
        no_breaks(lines) ==> no_breaks(inserted(lines, pos, s)),
{
    let line = lines[pos.row as int];
    let prefix = line.take(pos.col as int);
    let rest = line.skip(pos.col as int);
    let parts = split_lines(s);
    lemma_split_lines(s);
    let k = parts.len() - 1;
    let m = spliced(prefix, parts, rest);
    let a = lines.take(pos.row as int);
    let b = lines.skip(pos.row + 1);
    let new = inserted(lines, pos, s);
    let e = insert_end(lines, pos, s);
    assert(e.row == pos.row + k);
    assert(m[k].len() == (if k == 0 {
        prefix.len() as int
    } else {
        0
    }) + parts[k].len() + rest.len());
    assert(e.col == (if k == 0 {
        pos.col as int
    } else {
        0
    }) + parts[k].len());
    assert(new == a + m + b);
    assert(new =~= a + (m + b));
    lemma_row_start_shift(a, m + b, k);
    lemma_row_start_prefix(m, b, k);
    lemma_full_text_spliced(prefix, parts, rest);
    // The end of the parts' text is the start of the last part plus its length.
    assert(m.take(k + 1) =~= m);
    lemma_row_start_next(m, k);
    assert(m[k] =~= (if k == 0 {
        prefix
    } else {
        Seq::empty()
    }) + parts[k] + rest);
    assert(row_start(lines, pos.row as int) == full_text(a).len());
    assert(new[e.row as int] == m[k]);
    if no_breaks(lines) {
        assert(has_no_break(line));
        assert forall|i: int| 0 <= i < new.len() implies has_no_break(#[trigger] new[i]) by {
            if i < a.len() {
                assert(new[i] == lines[i]);
            } else if i < a.len() + m.len() {
                let j = i - a.len();
                assert(new[i] == m[j]);
                assert(has_no_break(parts[j]));
                assert forall|c: int| 0 <= c < m[j].len() implies m[j][c] != '\n' by {
                    if j == 0 && c < prefix.len() {
                        assert(m[j][c] == line[c]);
                    } else if c < (if j == 0 {
                        prefix.len() as int
                    } else {
                        0
                    }) + parts[j].len() {
                    } else {
                        assert(j == k);
                        assert(m[j][c] == line[c - parts[j].len() - (if j == 0 {
                            prefix.len() as int
                        } else {
                            0
                        }) + pos.col]);
                    }
                }
            } else {
                assert(new[i] == lines[i - a.len() - m.len() + pos.row + 1]);
            }
        }
    }
}

/// Deleting keeps the lines free of breaks.
pub proof fn lemma_delete_keeps_no_breaks(lines: Seq<Seq<char>>, start: Pos, end: Pos)
    requires
        deletable(lines, start, end),
    ensures
        no_breaks(lines) ==> no_breaks(deleted(lines, start, end)),
{
    if no_breaks(lines) && !deletion_is_void(lines, start, end) {
        let new = deleted(lines, start, end);
        let ls = lines[start.row as int];
        let merged = ls.take(start.col as int) + kept_tail(lines, end);
        assert(has_no_break(ls));
        assert(has_no_break(lines[end.row as int]));
        if end.row + 1 < lines.len() {
            assert(has_no_break(lines[end.row + 1]));
        }
        assert(has_no_break(merged));
        assert forall|i: int| 0 <= i < new.len() implies has_no_break(#[trigger] new[i]) by {
            if i < start.row {
                assert(new[i] == lines[i]);
            } else if i == start.row {
                assert(new[i] == merged);
            } else {
                assert(new[i] == lines[i - start.row - 1 + kept_from(lines, end)]);
            }
        }
    }
}

/// Inserting an empty line keeps the lines free of breaks.
pub proof fn lemma_insert_line_keeps_no_breaks(lines: Seq<Seq<char>>, row: int)
    requires
        0 <= row <= lines.len(),
    ensures
        no_breaks(lines) ==> no_breaks(lines.insert(row, Seq::empty())),
{
    if no_breaks(lines) {
        let new = lines.insert(row, Seq::empty());
        assert forall|i: int| 0 <= i < new.len() implies has_no_break(#[trigger] new[i]) by {
            if i < row {
                assert(new[i] == lines[i]);
            } else if i > row {
                assert(new[i] == lines[i - 1]);
            }
        }
    }
}

/// Line starts grow with the row.
pub proof fn lemma_row_start_mono(lines: Seq<Seq<char>>, i: int, j: int)
    requires
        0 <= i <= j <= lines.len(),
    ensures
        row_start(lines, i) <= row_start(lines, j),
{
    assert(lines.take(j) =~= lines.take(i) + lines.subrange(i, j));
    lemma_full_text_concat(lines.take(i), lines.subrange(i, j));
}

/// On valid positions, a later position has a larger offset, and a valid
/// position lies within the text or on its end.
pub proof fn lemma_offset_order(lines: Seq<Seq<char>>, p: Pos, q: Pos)
    requires
        valid_pos(lines, p),
        valid_pos(lines, q),
    ensures
        offset(lines, p) <= offset(lines, q) <==> pos_le(p, q),
        offset(lines, p) <= joined(lines).len(),
        0 <= offset(lines, p),
{
    lemma_row_end_in_text(lines, p.row as int);
    lemma_full_text_len(lines);
    if q.row < p.row {
        lemma_row_end_in_text(lines, q.row as int);
        lemma_row_start_next(lines, q.row as int);
        lemma_row_start_mono(lines, q.row + 1, p.row as int);
    }
    if p.row < q.row {
        lemma_row_end_in_text(lines, p.row as int);
        lemma_row_start_next(lines, p.row as int);
        lemma_row_start_mono(lines, p.row + 1, q.row as int);
    }
}

/// The text of the lines `i..j` followed by line `j`.
pub proof fn lemma_full_text_range_push(lines: Seq<Seq<char>>, i: int, j: int)
    requires
        0 <= i <= j < lines.len(),
    ensures
        full_text(lines.subrange(i, j + 1)) == full_text(lines.subrange(i, j)) + lines[j].push(
            '\n',
        ),
{
    assert(lines.subrange(i, j + 1).drop_last() =~= lines.subrange(i, j));
}

/// The text of the lines `i..j` starts with line `i`.
pub proof fn lemma_full_text_range_first(lines: Seq<Seq<char>>, i: int, j: int)
    requires
        0 <= i < j <= lines.len(),
    ensures
        full_text(lines.subrange(i, j)) == lines[i].push('\n') + full_text(
            lines.subrange(i + 1, j),
        ),
{
    assert(lines.subrange(i, j) =~= seq![lines[i]] + lines.subrange(i + 1, j));
    lemma_full_text_concat(seq![lines[i]], lines.subrange(i + 1, j));
    lemma_full_text_single(lines[i]);
}

/// Opening a text and saving it unchanged gives the text back: the lines
/// that `from_content` cuts it into join to it again.
pub proof fn law_open_then_save(text: Seq<char>)
    ensures
        joined(split_lines(text)) == text,
{
    lemma_split_lines(text);
    assert(text.push('\n').drop_last() =~= text);
}

/// The text around an insertion: the lines before its row, the start of its
/// row, what is inserted, the rest of its row and the lines after it.
proof fn lemma_inserted_full_text(lines: Seq<Seq<char>>, pos: Pos, s: Seq<char>)
    requires
        valid_pos(lines, pos),
    ensures
        full_text(lines) == full_text(lines.take(pos.row as int)) + lines[pos.row as int].take(
            pos.col as int,
        ) + (lines[pos.row as int].skip(pos.col as int).push('\n') + full_text(
            lines.skip(pos.row + 1),
        )),
        full_text(inserted(lines, pos, s)) == full_text(lines.take(pos.row as int))
            + lines[pos.row as int].take(pos.col as int) + s + (lines[pos.row as int].skip(
            pos.col as int,
        ).push('\n') + full_text(lines.skip(pos.row + 1))),
        offset(lines, pos) == full_text(lines.take(pos.row as int)).len() + pos.col,
        inserted(lines, pos, s).len() > 0,
{
    let line = lines[pos.row as int];
    let prefix = line.take(pos.col as int);
    let rest = line.skip(pos.col as int);
    let parts = split_lines(s);
    lemma_split_lines(s);
    let m = spliced(prefix, parts, rest);
    let a = lines.take(pos.row as int);
    let b = lines.skip(pos.row + 1);
    let new = inserted(lines, pos, s);
    lemma_full_text_concat(a + m, b);
    lemma_full_text_concat(a, m);
    lemma_full_text_spliced(prefix, parts, rest);
    lemma_full_text_around(lines, pos.row as int);
    assert(prefix + rest =~= line);
    let x = full_text(a);
    let y = rest.push('\n') + full_text(b);
    assert(full_text(parts).drop_last() =~= s);
    assert(full_text(lines) =~= x + prefix + y);
    assert(full_text(new) =~= x + prefix + s + y);
    lemma_full_text_len(new);
}

/// Inserting `s` at `pos` puts `s` into the text at the offset of `pos`.
pub proof fn law_insert_text(lines: Seq<Seq<char>>, pos: Pos, s: Seq<char>)
    requires
        valid_pos(lines, pos),
    ensures
        joined(inserted(lines, pos, s)) == joined(lines).take(offset(lines, pos)) + s + joined(
            lines,
        ).skip(offset(lines, pos)),
{
    lemma_inserted_full_text(lines, pos, s);
    let line = lines[pos.row as int];
    let x = full_text(lines.take(pos.row as int)) + line.take(pos.col as int);
    let y = line.skip(pos.col as int).push('\n') + full_text(lines.skip(pos.row + 1));
    let t = joined(lines);
    assert(t =~= x + y.drop_last());
    assert(t.take(offset(lines, pos)) =~= x);
    assert(t.skip(offset(lines, pos)) =~= y.drop_last());
    assert(joined(inserted(lines, pos, s)) =~= x + s + y.drop_last());
}

/// The end of a deletion, as an offset in the text: one past the deleted
/// character, or the end of the text.
pub open spec fn deletion_stop(lines: Seq<Seq<char>>, end: Pos) -> int {
    let z = offset(lines, end) + 1;
    if z <= joined(lines).len() {
        z
    } else {
        joined(lines).len() as int
    }
}

/// The lines from the start row to the first kept line hold the kept start
/// of the first, the removed text, and the kept tail.
#[verifier::rlimit(30)]
proof fn lemma_delete_region(lines: Seq<Seq<char>>, start: Pos, end: Pos)
    requires
        deletable(lines, start, end),
        !deletion_is_void(lines, start, end),
    ensures
        full_text(lines.subrange(start.row as int, kept_from(lines, end))) == lines[start.row as int].take(
            start.col as int,
        ) + removed_text(lines, start, end) + kept_tail(lines, end).push('\n'),
        offset(lines, end) + 1 == offset(lines, start) + removed_text(lines, start, end).len() + (
        if deletes_break(lines, end) && end.row + 1 == lines.len() {
            1int
        } else {
            0
        }),
{
    let sr = start.row as int;
    let er = end.row as int;
    let sc = start.col as int;
    let ec = end.col as int;
    let ls = lines[sr];
    let le = lines[er];
    let big_k = kept_from(lines, end);
    let tail = kept_tail(lines, end);
    let r = removed_text(lines, start, end);
    let a = lines.take(sr);
    let del_end = deletes_break(lines, end);
    let stop = if del_end {
        le.len() as int
    } else {
        ec + 1
    };
    assert(le.take(stop) + le.skip(stop) =~= le);
    assert(ls.take(sc) + ls.skip(sc) =~= ls);
    assert(lines.take(er) =~= a + lines.subrange(sr, er));
    lemma_full_text_concat(a, lines.subrange(sr, er));
    if sr == er {
        assert(lines.subrange(sr, er + 1) =~= seq![ls]);
        lemma_full_text_single(ls);
        assert(lines.subrange(sr, er) =~= Seq::<Seq<char>>::empty());
        assert(ls.take(sc) + ls.subrange(sc, stop) + ls.skip(stop) =~= ls);
    } else {
        lemma_full_text_range_push(lines, sr, er);
        lemma_full_text_range_first(lines, sr, er);
    }
    if big_k == er + 2 {
        lemma_full_text_range_push(lines, sr, er + 1);
    }
    assert(full_text(lines.subrange(sr, big_k)) =~= ls.take(sc) + r + tail.push('\n'));
}

/// The text before a deletion: the lines before it and the kept start of its first line.
pub open spec fn kept_head(lines: Seq<Seq<char>>, start: Pos) -> Seq<char> {
    full_text(lines.take(start.row as int)) + lines[start.row as int].take(start.col as int)
}

/// The text after a deletion, each line with its break.
pub open spec fn kept_rest(lines: Seq<Seq<char>>, end: Pos) -> Seq<char> {
    kept_tail(lines, end).push('\n') + full_text(lines.skip(kept_from(lines, end)))
}

/// The text before a deletion: what is kept before it, what it removes, and
/// what is kept after it.
proof fn lemma_delete_old_text(lines: Seq<Seq<char>>, start: Pos, end: Pos)
    requires
        deletable(lines, start, end),
        !deletion_is_void(lines, start, end),
    ensures
        full_text(lines) == kept_head(lines, start) + removed_text(lines, start, end) + kept_rest(
            lines,
            end,
        ),
        offset(lines, start) == kept_head(lines, start).len(),
{
    let sr = start.row as int;
    let big_k = kept_from(lines, end);
    let a = lines.take(sr);
    let mid = lines.subrange(sr, big_k);
    let rest = lines.skip(big_k);
    lemma_delete_region(lines, start, end);
    assert(lines =~= a + mid + rest);
    lemma_full_text_concat(a + mid, rest);
    lemma_full_text_concat(a, mid);
    assert(full_text(lines) == full_text(a) + full_text(mid) + full_text(rest));
    let head = lines[sr].take(start.col as int);
    let r = removed_text(lines, start, end);
    let tail = kept_tail(lines, end).push('\n');
    assert(full_text(mid) == head + r + tail);
    assert(full_text(a) + (head + r + tail) + full_text(rest) =~= (full_text(a) + head) + r + (tail
        + full_text(rest)));
}

/// The text after a deletion: what is kept before it and after it.
proof fn lemma_delete_new_text(lines: Seq<Seq<char>>, start: Pos, end: Pos)
    requires
        deletable(lines, start, end),
        !deletion_is_void(lines, start, end),
    ensures
        full_text(deleted(lines, start, end)) == kept_head(lines, start) + kept_rest(lines, end),
{
    let sr = start.row as int;
    let big_k = kept_from(lines, end);
    let a = lines.take(sr);
    let new = deleted(lines, start, end);
    let merged = lines[sr].take(start.col as int) + kept_tail(lines, end);
    assert(new =~= a + seq![merged] + lines.skip(big_k));
    lemma_full_text_concat(a + seq![merged], lines.skip(big_k));
    lemma_full_text_concat(a, seq![merged]);
    lemma_full_text_single(merged);
    assert(full_text(new) =~= kept_head(lines, start) + kept_rest(lines, end));
}

/// The texts before and after a deletion.
proof fn lemma_delete_full_texts(lines: Seq<Seq<char>>, start: Pos, end: Pos)
    requires
        deletable(lines, start, end),
        !deletion_is_void(lines, start, end),
    ensures
        full_text(lines) == kept_head(lines, start) + removed_text(lines, start, end) + kept_rest(
            lines,
            end,
        ),
        full_text(deleted(lines, start, end)) == kept_head(lines, start) + kept_rest(lines, end),
        offset(lines, start) == kept_head(lines, start).len(),
{
    lemma_delete_old_text(lines, start, end);
    lemma_delete_new_text(lines, start, end);
}

/// Cutting `r` out of the text `p + r + q` without its last character.
proof fn lemma_cut(p: Seq<char>, r: Seq<char>, q: Seq<char>)
    requires
        q.len() >= 1,
    ensures
        (p + r + q).drop_last().take(p.len() as int) == p,
        (p + r + q).drop_last().skip((p.len() + r.len()) as int) == q.drop_last(),
        (p + r + q).drop_last().subrange(p.len() as int, (p.len() + r.len()) as int) == r,
        (p + q).drop_last() == p + q.drop_last(),
        (p + r + q).drop_last().len() == p.len() + r.len() + q.len() - 1,
{
    assert((p + r + q).drop_last().take(p.len() as int) =~= p);
    assert((p + r + q).drop_last().skip((p.len() + r.len()) as int) =~= q.drop_last());
    assert((p + r + q).drop_last().subrange(p.len() as int, (p.len() + r.len()) as int) =~= r);
    assert((p + q).drop_last() =~= p + q.drop_last());
}

/// Deleting from `start` to `end` cuts the text between their offsets (the
/// character at `end` included) out of the text, and returns that piece.
pub proof fn law_delete_text(lines: Seq<Seq<char>>, start: Pos, end: Pos)
    requires
        deletable(lines, start, end),
        !deletion_is_void(lines, start, end),
    ensures
        joined(deleted(lines, start, end)) == joined(lines).take(offset(lines, start)) + joined(
            lines,
        ).skip(deletion_stop(lines, end)),
        removed_text(lines, start, end) == joined(lines).subrange(
            offset(lines, start),
            deletion_stop(lines, end),
        ),
{
    let p = kept_head(lines, start);
    let q = kept_rest(lines, end);
    let r = removed_text(lines, start, end);
    let new = deleted(lines, start, end);
    lemma_delete_full_texts(lines, start, end);
    lemma_delete_region(lines, start, end);
    lemma_cut(p, r, q);
    lemma_full_text_len(lines);
    lemma_full_text_len(new);
    assert(lines.len() > 0 && new.len() > 0);
    assert(joined(lines) == (p + r + q).drop_last());
    assert(joined(new) == (p + q).drop_last());
    if deletes_break(lines, end) && end.row + 1 == lines.len() {
        assert(lines.skip(kept_from(lines, end)) =~= Seq::<Seq<char>>::empty());
        assert(q =~= seq!['\n']);
    }
    assert(deletion_stop(lines, end) == p.len() + r.len());
}

/// The place of an insertion is still at the same offset after it.
proof fn lemma_insert_keeps_start(lines: Seq<Seq<char>>, pos: Pos, s: Seq<char>)
    requires
        valid_pos(lines, pos),
    ensures
        valid_pos(inserted(lines, pos, s), pos),
        offset(inserted(lines, pos, s), pos) == offset(lines, pos),
{
    let l1 = inserted(lines, pos, s);
    let line = lines[pos.row as int];
    let parts = split_lines(s);
    lemma_split_lines(s);
    let m = spliced(line.take(pos.col as int), parts, line.skip(pos.col as int));
    let a = lines.take(pos.row as int);
    assert(l1 == a + m + lines.skip(pos.row + 1));
    assert(l1 =~= a + (m + lines.skip(pos.row + 1)));
    lemma_row_start_prefix(a, m + lines.skip(pos.row + 1), pos.row as int);
    lemma_row_start_prefix(a, lines.skip(pos.row as int), pos.row as int);
    assert(lines =~= a + lines.skip(pos.row as int));
    assert(l1[pos.row as int] == m[0]);
}

/// Two places of the text at the same offset are the same place.
proof fn lemma_same_offset(lines: Seq<Seq<char>>, r1: int, c1: int, r2: int, c2: int)
    requires
        0 <= r1 < lines.len(),
        0 <= r2 < lines.len(),
        0 <= c1 <= lines[r1].len(),
        0 <= c2 <= lines[r2].len(),
        row_start(lines, r1) + c1 == row_start(lines, r2) + c2,
    ensures
        r1 == r2,
        c1 == c2,
{
    if r1 < r2 {
        lemma_row_start_next(lines, r1);
        lemma_row_start_mono(lines, r1 + 1, r2);
    } else if r2 < r1 {
        lemma_row_start_next(lines, r2);
        lemma_row_start_mono(lines, r2 + 1, r1);
    }
}

/// The shape of the text around an insertion: the rows before it, the
/// inserted rows and the rows after, and where the inserted rows start.
proof fn lemma_insert_shape(lines: Seq<Seq<char>>, pos: Pos, s: Seq<char>)
    requires
        valid_pos(lines, pos),
        s.len() > 0,
    ensures
        ({
            let row = pos.row as int;
            let col = pos.col as int;
            let line = lines[row];
            let parts = split_lines(s);
            let k = parts.len() - 1;
            let m = spliced(line.take(col), parts, line.skip(col));
            let a = lines.take(row);
            let b = lines.skip(row + 1);
            let l1 = inserted(lines, pos, s);
            let fa = full_text(a).len() as int;
            &&& parts.len() >= 1
            &&& l1 == a + m + b
            &&& lines == a + seq![line] + b
            &&& l1.len() == a.len() + m.len() + b.len()
            &&& m.len() == parts.len()
            &&& offset(lines, pos) == fa + col
            &&& row_start(l1, row + k) == fa + full_text(m.take(k)).len()
            &&& full_text(m) == full_text(m.take(k)) + m[k].push('\n')
            &&& full_text(m).len() == col + s.len() + line.skip(col).len() + 1
            &&& l1.take(row) == a
            &&& l1.skip(row + k + 1) == b
            &&& l1[row] == m[0]
            &&& m[0].take(col) == line.take(col)
            &&& line.take(col) + line.skip(col) == line
            &&& forall|j: int| 0 <= j <= k ==> #[trigger] l1[row + j] == m[j]
        }),
{
    let row = pos.row as int;
    let col = pos.col as int;
    let line = lines[row];
    let prefix = line.take(col);
    let rest = line.skip(col);
    let parts = split_lines(s);
    lemma_split_lines(s);
    let k = parts.len() - 1;
    let m = spliced(prefix, parts, rest);
    let a = lines.take(row);
    let b = lines.skip(row + 1);
    let l1 = inserted(lines, pos, s);
    assert(l1 =~= a + (m + b));
    assert(lines =~= a + seq![line] + b);
    lemma_full_text_spliced(prefix, parts, rest);
    assert(full_text(parts).drop_last() =~= s);
    lemma_row_start_shift(a, m + b, 0);
    assert((m + b).take(0) =~= Seq::<Seq<char>>::empty());
    lemma_row_start_shift(a, m + b, k);
    assert((m + b).take(k) =~= m.take(k));
    assert(m.drop_last() =~= m.take(k));
    assert(l1.take(row) =~= a);
    assert(l1.skip(row + k + 1) =~= b);
    assert(m[0].take(col) =~= prefix);
    assert(prefix + rest =~= line);
}

/// Deleting from the place of an insertion to its last inserted character
/// gives back the lines, whatever the lines hold.
proof fn lemma_insert_then_delete_lines(lines: Seq<Seq<char>>, pos: Pos, s: Seq<char>, last: Pos)
    requires
        valid_pos(lines, pos),
        s.len() > 0,
        valid_pos(inserted(lines, pos, s), last),
        offset(inserted(lines, pos, s), last) == offset(lines, pos) + s.len() - 1,
    ensures
        deleted(inserted(lines, pos, s), pos, last) == lines,
{
    lemma_insert_shape(lines, pos, s);
    lemma_split_lines(s.drop_last());
    if s.last() == '\n' {
        lemma_insert_then_delete_break(lines, pos, s, last);
    } else {
        lemma_insert_then_delete_char(lines, pos, s, last);
    }
}

/// `lemma_insert_then_delete_lines` when the text ends with a line break.
proof fn lemma_insert_then_delete_break(lines: Seq<Seq<char>>, pos: Pos, s: Seq<char>, last: Pos)
    requires
        valid_pos(lines, pos),
        s.len() > 0,
        s.last() == '\n',
        valid_pos(inserted(lines, pos, s), last),
        offset(inserted(lines, pos, s), last) == offset(lines, pos) + s.len() - 1,
    ensures
        deleted(inserted(lines, pos, s), pos, last) == lines,
{
    lemma_insert_shape(lines, pos, s);
    lemma_split_lines(s.drop_last());
    let row = pos.row as int;
    let col = pos.col as int;
    let line = lines[row];
    let prefix = line.take(col);
    let rest = line.skip(col);
    let parts = split_lines(s);
    let k = parts.len() - 1;
    let m = spliced(prefix, parts, rest);
    let a = lines.take(row);
    let b = lines.skip(row + 1);
    let l1 = inserted(lines, pos, s);
    assert(parts == split_lines(s.drop_last()).push(Seq::empty()));
    assert(k >= 1);
    assert(m[k] =~= rest);
    assert(l1 =~= a + (m + b));
    assert(a.len() == row);
    lemma_row_start_shift(a, m + b, k - 1);
    assert((m + b).take(k - 1) =~= m.take(k - 1));
    assert(m.take(k).drop_last() =~= m.take(k - 1));
    assert(full_text(m.take(k)) == full_text(m.take(k - 1)) + m[k - 1].push('\n'));
    assert(l1[row + (k - 1)] == m[k - 1]);
    lemma_same_offset(l1, row + k - 1, m[k - 1].len() as int, last.row as int, last.col as int);
    assert(l1[row + k] == m[k]);
    assert(deleted(l1, pos, last) =~= a + seq![prefix + rest] + b);
}

/// `lemma_insert_then_delete_lines` when the text ends with a character.
proof fn lemma_insert_then_delete_char(lines: Seq<Seq<char>>, pos: Pos, s: Seq<char>, last: Pos)
    requires
        valid_pos(lines, pos),
        s.len() > 0,
        s.last() != '\n',
        valid_pos(inserted(lines, pos, s), last),
        offset(inserted(lines, pos, s), last) == offset(lines, pos) + s.len() - 1,
    ensures
        deleted(inserted(lines, pos, s), pos, last) == lines,
{
    lemma_insert_shape(lines, pos, s);
    lemma_split_lines(s.drop_last());
    let row = pos.row as int;
    let col = pos.col as int;
    let line = lines[row];
    let prefix = line.take(col);
    let rest = line.skip(col);
    let parts = split_lines(s);
    let k = parts.len() - 1;
    let m = spliced(prefix, parts, rest);
    let a = lines.take(row);
    let b = lines.skip(row + 1);
    let l1 = inserted(lines, pos, s);
    let p = split_lines(s.drop_last());
    assert(parts == p.update(p.len() - 1, p.last().push(s.last())));
    assert(parts[k].len() >= 1);
    let tc = m[k].len() - rest.len() - 1;
    assert(l1[row + k] == m[k]);
    lemma_same_offset(l1, row + k, tc, last.row as int, last.col as int);
    assert(m[k].skip(tc + 1) =~= rest);
    assert(deleted(l1, pos, last) =~= a + seq![prefix + rest] + b);
}

/// Inserting text and then deleting what was inserted gives back the lines,
/// and the deletion returns the inserted text.
pub proof fn law_insert_then_delete(lines: Seq<Seq<char>>, pos: Pos, s: Seq<char>, last: Pos)
    requires
        valid_pos(lines, pos),
        s.len() > 0,
        valid_pos(inserted(lines, pos, s), last),
        offset(inserted(lines, pos, s), last) == offset(lines, pos) + s.len() - 1,
    ensures
        deletable(inserted(lines, pos, s), pos, last),
        deleted(inserted(lines, pos, s), pos, last) == lines,
        removed_text(inserted(lines, pos, s), pos, last) == s,
{
    let l1 = inserted(lines, pos, s);
    lemma_insert_keeps_start(lines, pos, s);
    lemma_offset_order(l1, pos, last);
    lemma_offset_order(lines, pos, pos);
    law_insert_text(lines, pos, s);
    law_delete_text(l1, pos, last);
    let t = joined(lines);
    let k = offset(lines, pos);
    let t1 = joined(l1);
    assert(t1 =~= t.take(k) + s + t.skip(k));
    assert(deletion_stop(l1, last) == k + s.len());
    assert(t1.take(k) + t1.skip(k + s.len()) =~= t);
    assert(t1.subrange(k, k + s.len()) =~= s);
    lemma_insert_then_delete_lines(lines, pos, s, last);
}

/// Inserting keeps the lines free of breaks and keeps at least one line.
pub proof fn lemma_insert_keeps_no_breaks(lines: Seq<Seq<char>>, pos: Pos, s: Seq<char>)
    requires
        valid_pos(lines, pos),
    ensures
        no_breaks(lines) ==> no_breaks(inserted(lines, pos, s)),
        inserted(lines, pos, s).len() >= lines.len(),
{
    lemma_split_lines(s);
    if no_breaks(lines) {
        let new = inserted(lines, pos, s);
        let line = lines[pos.row as int];
        let prefix = line.take(pos.col as int);
        let rest = line.skip(pos.col as int);
        let parts = split_lines(s);
        let m = spliced(prefix, parts, rest);
        let a = lines.take(pos.row as int);
        assert(has_no_break(line));
        assert forall|i: int| 0 <= i < new.len() implies has_no_break(#[trigger] new[i]) by {
            if i < a.len() {
                assert(new[i] == lines[i]);
            } else if i < a.len() + m.len() {
                let j = i - a.len();
                assert(new[i] == m[j]);
                assert(has_no_break(parts[j]));
                let pre = if j == 0 {
                    prefix
                } else {
                    Seq::empty()
                };
                let post = if j == parts.len() - 1 {
                    rest
                } else {
                    Seq::empty()
                };
                assert forall|c: int| 0 <= c < m[j].len() implies m[j][c] != '\n' by {
                    if c < pre.len() {
                        assert(m[j][c] == line[c]);
                    } else if c < pre.len() + parts[j].len() {
                        assert(m[j][c] == parts[j][c - pre.len()]);
                    } else {
                        assert(m[j][c] == line[c - pre.len() - parts[j].len() + pos.col]);
                    }
                }
            } else {
                assert(new[i] == lines[i - a.len() - m.len() + pos.row + 1]);
            }
        }
    }
}

/// Deleting a piece of text and inserting it back where it started gives
/// back the lines.
pub proof fn law_delete_then_insert(lines: Seq<Seq<char>>, start: Pos, end: Pos)
    requires
        deletable(lines, start, end),
        no_breaks(lines),
    ensures
        valid_pos(deleted(lines, start, end), start),
        inserted(deleted(lines, start, end), start, removed_text(lines, start, end)) == lines,
{
    if deletion_is_void(lines, start, end) {
        lemma_void_reinsert(lines, start);
    } else {
        lemma_delete_then_insert(lines, start, end);
    }
}

/// Inserting nothing at the end of a line changes nothing.
proof fn lemma_void_reinsert(lines: Seq<Seq<char>>, start: Pos)
    requires
        valid_pos(lines, start),
    ensures
        inserted(lines, start, Seq::empty()) == lines,
{
    let line = lines[start.row as int];
    lemma_split_no_break(Seq::<char>::empty());
    let c = start.col as int;
    assert(line.take(c) + Seq::<char>::empty() + line.skip(c) =~= line);
    assert(spliced(line.take(start.col as int), seq![Seq::<char>::empty()], line.skip(
        start.col as int,
    )) =~= seq![line]);
    assert(lines.take(start.row as int) + seq![line] + lines.skip(start.row + 1) =~= lines);
}

/// Deleting a piece of text that is not void and inserting it back where
/// it started gives back the lines.
proof fn lemma_delete_then_insert(lines: Seq<Seq<char>>, start: Pos, end: Pos)
    requires
        deletable(lines, start, end),
        !deletion_is_void(lines, start, end),
        no_breaks(lines),
    ensures
        valid_pos(deleted(lines, start, end), start),
        inserted(deleted(lines, start, end), start, removed_text(lines, start, end)) == lines,
{
    let l2 = deleted(lines, start, end);
    let r = removed_text(lines, start, end);
    let a = lines.take(start.row as int);
    let merged = lines[start.row as int].take(start.col as int) + kept_tail(
        lines,
        end,
    );
    assert(l2 =~= a + (seq![merged] + lines.skip(kept_from(lines, end))));
    assert(lines =~= a + lines.skip(start.row as int));
    lemma_row_start_prefix(a, seq![merged] + lines.skip(kept_from(lines, end)), start.row as int);
    lemma_row_start_prefix(a, lines.skip(start.row as int), start.row as int);
    assert(valid_pos(l2, start));
    assert(offset(l2, start) == offset(lines, start));
    lemma_offset_order(lines, start, end);
    lemma_offset_order(lines, end, end);
    law_delete_text(lines, start, end);
    law_insert_text(l2, start, r);
    let t = joined(lines);
    let k = offset(lines, start);
    let z = deletion_stop(lines, end);
    let t2 = joined(l2);
    assert(k <= z <= t.len());
    assert(t2 =~= t.take(k) + t.skip(z));
    assert(t2.take(k) + r + t2.skip(k) =~= t);
    lemma_delete_keeps_no_breaks(lines, start, end);
    lemma_insert_keeps_no_breaks(l2, start, r);
    lemma_joined_injective(inserted(l2, start, r), lines);
}

} // verus!
