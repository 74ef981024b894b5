//! The editor's state and its key bindings.
//!
//! `App::handle_input` takes one key and gives back what the caller has to
//! do next: go on, quit, save the document, or read one more key.
use vstd::prelude::*;

use crate::cursor::{first_non_blank, min_int, Cursor};
use crate::document::{
    col_limit, deletable, deleted, insert_end, inserted, offset, removed_text, row_limit,
    lemma_delete_keeps_no_breaks, lemma_insert_keeps_no_breaks, lemma_insert_line_keeps_no_breaks,
    spliced, valid_pos, valid_at, char_pos, deletable_at, deleted_at, removed_at, inserted_at,
    insert_end_at, lemma_valid_at, lemma_deletable_at, void_at, lemma_line_edges_at, lemma_line_end_at,
    lemma_deleted_at_keeps, lemma_inserted_at_keeps, lemma_delete_one_keeps_place, Document, Pos,
};
use crate::columns::{byte_len, lemma_line_end, on_char};
use crate::motion::{next_word_offset, prev_word_offset, word_end_offset};
use crate::text::{
    has_no_break, joined, lemma_split_no_break, line_chars, no_breaks, push_char, push_chars,
    views,
};
use crate::undo::{Snapshot, UndoStack, MAX_SIZE};
use crate::viewport::Viewport;
use crate::{BACKSPACE, ENTER, ESC};

verus! {

/// Text that was copied or deleted, to be pasted: characters, or whole lines.
#[derive(Clone)]
pub enum Clipboard {
    Normal(String),
    Line(String),
    Empty,
}

/// What the editor does with the keys it is given.
#[derive(PartialEq, Eq, Structural, Clone, Copy, Debug)]
pub enum Mode {
    Normal,
    Replace,
    Delete,
    Insert,
    /// Selecting text from the position that is held (the landmark) to the cursor.
    Visual(Pos),
}

impl Mode {
    /// Switches to `mode` and returns it.
    pub fn set(&mut self, mode: Mode) -> (res: Mode)
        ensures
            *final(self) == mode,
            res == mode,
    {
        *self = mode;
        mode
    }
}

/// What the caller does after a key.
#[derive(PartialEq, Eq, Structural, Clone, Copy, Debug)]
pub enum Outcome {
    /// Go on reading keys.
    Continue,
    /// Stop the editor.
    Quit,
    /// Write the document to its file, then go on.
    Save,
    /// Read one more key and hand it to `App::handle_key_after_g`.
    AwaitKey,
}

/// The editor: the document, what is shown of it, the cursor, the mode, the
/// undo history and the clipboard.
pub struct App {
    pub doc: Document,
    pub viewport: Viewport,
    pub cursor: Cursor,
    pub mode: Mode,
    pub undo: UndoStack,
    pub clipboard: Clipboard,
}

/// The clipboard holds `text`, as lines when `line` holds.
pub open spec fn clip_holds(c: Clipboard, line: bool, text: Seq<char>) -> bool {
    match c {
        Clipboard::Normal(s) => !line && s@ == text,
        Clipboard::Line(s) => line && s@ == text,
        Clipboard::Empty => false,
    }
}

/// `hist` is the history of `old` with a snapshot of its lines and cursor,
/// taken in `mode`, pushed on it.
pub open spec fn recorded(old: App, hist: Seq<Snapshot>, mode: Mode) -> bool {
    &&& hist.len() > 0
    &&& hist.drop_last() == (if old.undo@.len() >= MAX_SIZE {
        old.undo@.skip(1)
    } else {
        old.undo@
    })
    &&& views(hist.last().0@) == old.doc@
    &&& hist.last().1 == old.cursor
    &&& hist.last().2 == mode
}

/// The cursor's position.
pub open spec fn pos_of(c: Cursor) -> Pos {
    Pos { row: c.row, col: c.col }
}

/// The cursor at `p`.
pub open spec fn cursor_at(p: Pos) -> Cursor {
    Cursor { row: p.row, col: p.col }
}

/// The cursor with its column held to what `mode` allows on its line.
pub open spec fn col_bounded(lines: Seq<Seq<char>>, c: Cursor, mode: Mode) -> Cursor {
    Cursor {
        row: c.row,
        col: min_int(c.col as int, col_limit(byte_len(lines[c.row as int]), mode)) as usize,
    }
}

/// The cursor with its row held to what the document allows.
pub open spec fn row_bounded(lines: Seq<Seq<char>>, c: Cursor) -> Cursor {
    Cursor { row: min_int(c.row as int, row_limit(lines.len() as int)) as usize, col: c.col }
}

/// The cursor one column left, unless on the first.
pub open spec fn left_of(c: Cursor) -> Cursor {
    Cursor {
        row: c.row,
        col: if c.col > 0 {
            (c.col - 1) as usize
        } else {
            0
        },
    }
}

/// The cursor one row up, unless on the first.
pub open spec fn up_of(c: Cursor) -> Cursor {
    Cursor {
        row: if c.row > 0 {
            (c.row - 1) as usize
        } else {
            0
        },
        col: c.col,
    }
}

/// The cursor one row down, held to the document.
pub open spec fn down_of(lines: Seq<Seq<char>>, c: Cursor) -> Cursor {
    row_bounded(lines, Cursor { row: (c.row + 1) as usize, col: c.col })
}

/// The cursor one column right, held to the line.
pub open spec fn right_of(lines: Seq<Seq<char>>, c: Cursor, mode: Mode) -> Cursor {
    col_bounded(lines, Cursor { row: c.row, col: (c.col + 1) as usize }, mode)
}

/// The cursor on the last column `mode` allows on its line.
pub open spec fn line_end_of(lines: Seq<Seq<char>>, c: Cursor, mode: Mode) -> Cursor {
    Cursor { row: c.row, col: col_limit(byte_len(lines[c.row as int]), mode) as usize }
}

/// The cursor `c` stands, on row `row`, on the first character that is not a space.
pub open spec fn at_line_start(lines: Seq<Seq<char>>, c: Cursor, row: int) -> bool {
    c.row == row && first_non_blank(lines[row], c.col as int)
}

/// The cursor stands at the place of the text at offset `o`.
pub open spec fn at_offset(lines: Seq<Seq<char>>, c: Cursor, o: int) -> bool {
    valid_at(lines, pos_of(c)) && offset(lines, char_pos(lines, pos_of(c))) == o
}

/// The earlier of two positions, the first when they are equal.
pub open spec fn pos_min(a: Pos, b: Pos) -> Pos {
    if a.row < b.row || (a.row == b.row && a.col <= b.col) {
        a
    } else {
        b
    }
}

/// `a` comes strictly before `b`.
pub open spec fn pos_lt(a: Pos, b: Pos) -> bool {
    a.row < b.row || (a.row == b.row && a.col < b.col)
}

/// The lines selected between the landmark and the cursor's place: from the
/// start of the first to the end of the last.
pub open spec fn line_range(lines: Seq<Seq<char>>, landmark: Pos, at: Pos) -> (Pos, Pos) {
    let (s, e) = if pos_lt(landmark, at) {
        (landmark, at)
    } else {
        (at, landmark)
    };
    (Pos { row: s.row, col: 0 }, Pos { row: e.row, col: byte_len(lines[e.row as int]) as usize })
}

/// The ends of a Visual selection do not depend on which end is held:
/// `pos_min` gives the earlier of the two positions, and the lines a
/// selection covers run from the start of the upper end's row to the end of
/// the lower end's row, whichever of the two ends is the landmark.
pub proof fn law_selection_ends(l: Seq<Seq<char>>, a: Pos, b: Pos)
    ensures
        pos_min(a, b) == pos_min(b, a),
        pos_min(a, b) == a || pos_min(a, b) == b,
        pos_min(a, b).row < a.row || (pos_min(a, b).row == a.row && pos_min(a, b).col <= a.col),
        pos_min(a, b).row < b.row || (pos_min(a, b).row == b.row && pos_min(a, b).col <= b.col),
        line_range(l, a, b) == line_range(l, b, a),
        line_range(l, a, b).0 == (Pos { row: min_int(a.row as int, b.row as int) as usize, col: 0 }),
        line_range(l, a, b).1.row == if a.row <= b.row {
            b.row
        } else {
            a.row
        },
        line_range(l, a, b).1.col == byte_len(l[line_range(l, a, b).1.row as int]) as usize,
{
}

/// The control characters (Unicode category Cc), as `char::is_control` reports them.
pub open spec fn control(c: char) -> bool {
    (c as u32) <= 0x1f || (0x7f <= (c as u32) && (c as u32) <= 0x9f)
}

/// The clipboard text without one final line break.
pub open spec fn trimmed(s: Seq<char>) -> Seq<char> {
    if s.len() > 0 && s.last() == '\n' {
        s.drop_last()
    } else {
        s
    }
}

/// The inputs on which `handle_input` is defined: those on which the editor
/// stays inside the document and its numbers.
pub open spec fn accepts(a: App, key: char) -> bool {
    let l = a.doc@;
    let c = a.cursor;
    let on_line = c.row < l.len();
    let valid = valid_at(l, pos_of(c));
    let cut = deletable_at(l, pos_of(c), pos_of(c));
    match a.mode {
        Mode::Normal => {
            if key == 'h' || key == 'i' || key == 'I' || key == 'A' || key == 'o' {
                on_line
            } else if key == 'j' {
                c.row < usize::MAX
            } else if key == 'l' || key == 'a' {
                on_line && c.col < usize::MAX
            } else if key == 'w' || key == 'b' || key == 'e' {
                valid
            } else if key == 's' || key == 'x' {
                cut
            } else if key == 'P' {
                match a.clipboard {
                    Clipboard::Normal(_) => valid,
                    Clipboard::Line(_) => on_line,
                    Clipboard::Empty => true,
                }
            } else if key == 'p' {
                match a.clipboard {
                    Clipboard::Normal(_) => on_line && c.col < usize::MAX && valid_at(
                        l,
                        pos_of(right_of(l, c, Mode::Insert)),
                    ),
                    Clipboard::Line(_) => on_line,
                    Clipboard::Empty => true,
                }
            } else if key == 'G' {
                l.len() > 0
            } else if key == ENTER {
                l.len() > 0 && c.row < usize::MAX
            } else if key == BACKSPACE {
                c.col == 0 ==> up_of(c).row < l.len()
            } else {
                true
            }
        },
        Mode::Visual(landmark) => {
            if key == 'h' {
                on_line
            } else if key == 'j' {
                c.row < usize::MAX
            } else if key == 'l' {
                on_line && c.col < usize::MAX
            } else if key == 'w' || key == 'b' || key == 'e' {
                valid
            } else if key == 'y' || key == 'd' {
                on_line && deletable_at(l, landmark, pos_of(col_bounded(l, c, a.mode)))
            } else if key == 'Y' || key == 'D' {
                on_line && landmark.row < l.len()
            } else if key == 'G' {
                l.len() > 0
            } else {
                true
            }
        },
        Mode::Replace => !control(key) ==> cut,
        Mode::Delete => {
            if key == 'd' {
                on_line
            } else if key == 'k' {
                c.row > 0 ==> on_line
            } else {
                true
            }
        },
        Mode::Insert => {
            if key == ESC {
                on_line
            } else if key == ENTER {
                valid
            } else if key == BACKSPACE {
                &&& (c.row > 0 && c.col == 0) ==> c.row - 1 < l.len()
                &&& c.col > 0 ==> on_line && {
                    let back = pos_of(left_of(col_bounded(l, c, Mode::Insert)));
                    deletable_at(l, back, back)
                }
            } else if control(key) {
                true
            } else {
                valid && c.col < usize::MAX
            }
        },
    }
}

/// `new` is `old` with only the cursor changed, to `c`.
pub open spec fn moved(old: App, new: App, c: Cursor) -> bool {
    new == App { cursor: c, ..old }
}

/// `new` is `old` with only the mode changed, to `m`.
pub open spec fn switched(old: App, new: App, m: Mode) -> bool {
    new == App { mode: m, ..old }
}

/// The document of `new` holds `lines`, for the same file, and the
/// viewport is unchanged.
pub open spec fn edited(old: App, new: App, lines: Seq<Seq<char>>) -> bool {
    new.doc@ == lines && new.doc.file_path == old.doc.file_path && new.viewport == old.viewport
}

/// What a key does in Normal mode.
pub open spec fn normal_step(old: App, key: char, new: App, out: Outcome) -> bool {
    let l = old.doc@;
    let c = old.cursor;
    let m = old.mode;
    if key == 'i' || key == 'A' || key == 'a' {
        &&& out == Outcome::Continue
        &&& recorded(old, new.undo@, m)
        &&& new.mode == Mode::Insert
        &&& new.doc == old.doc && new.viewport == old.viewport && new.clipboard == old.clipboard
        &&& new.cursor == (if key == 'i' {
            col_bounded(l, c, Mode::Insert)
        } else if key == 'A' {
            line_end_of(l, c, Mode::Insert)
        } else {
            right_of(l, c, Mode::Insert)
        })
    } else if key == 'I' {
        &&& out == Outcome::Continue
        &&& new == App { cursor: new.cursor, mode: Mode::Insert, ..old }
        &&& at_line_start(l, new.cursor, c.row as int)
    } else if key == 's' {
        &&& out == Outcome::Continue
        &&& recorded(old, new.undo@, m)
        &&& new.mode == Mode::Insert
        &&& edited(old, new, deleted_at(l, pos_of(c), pos_of(c)))
        &&& new.cursor == c && new.clipboard == old.clipboard
    } else if key == 'o' {
        &&& out == Outcome::Continue
        &&& recorded(old, new.undo@, m)
        &&& new.mode == Mode::Insert
        &&& edited(old, new, l.insert(c.row + 1, Seq::empty()))
        &&& new.cursor == down_of(new.doc@, c) && new.clipboard == old.clipboard
    } else if key == 'r' {
        out == Outcome::Continue && switched(old, new, Mode::Replace)
    } else if key == 'd' {
        out == Outcome::Continue && switched(old, new, Mode::Delete)
    } else if key == 'v' {
        out == Outcome::Continue && switched(old, new, Mode::Visual(pos_of(c)))
    } else if key == 'x' {
        &&& out == Outcome::Continue
        &&& recorded(old, new.undo@, m)
        &&& new.mode == m
        &&& edited(old, new, deleted_at(l, pos_of(c), pos_of(c)))
        &&& clip_holds(new.clipboard, false, removed_at(l, pos_of(c), pos_of(c)))
        &&& new.cursor == col_bounded(new.doc@, c, m)
    } else if key == 'P' || key == 'p' {
        &&& out == Outcome::Continue
        &&& recorded(old, new.undo@, Mode::Normal)
        &&& new.mode == m
        &&& match old.clipboard {
            Clipboard::Normal(s) => {
                let at = if key == 'P' {
                    pos_of(c)
                } else {
                    pos_of(right_of(l, c, Mode::Insert))
                };
                &&& edited(old, new, inserted_at(l, at, s@))
                &&& new.cursor == cursor_at(insert_end_at(l, at, s@))
                &&& new.clipboard == old.clipboard
            },
            Clipboard::Line(s) => if key == 'P' {
                &&& edited(old, new, inserted_at(l, Pos { row: c.row, col: 0 }, s@))
                &&& new.cursor == c && new.clipboard == old.clipboard
            } else {
                &&& edited(
                    old,
                    new,
                    inserted_at(l, pos_of(line_end_of(l, c, Mode::Insert)), seq!['\n'] + trimmed(s@)),
                )
                &&& new.cursor == down_of(new.doc@, c)
                &&& clip_holds(new.clipboard, true, trimmed(s@))
            },
            Clipboard::Empty => new.doc == old.doc && new.viewport == old.viewport && new.cursor
                == c && new.clipboard == old.clipboard,
        }
    } else if key == 'g' {
        out == Outcome::AwaitKey && new == old
    } else if key == ENTER {
        &&& out == Outcome::Continue
        &&& new == App { cursor: new.cursor, ..old }
        &&& at_line_start(l, new.cursor, down_of(l, c).row as int)
    } else if key == BACKSPACE {
        out == Outcome::Continue && moved(
            old,
            new,
            if c.col == 0 {
                line_end_of(l, up_of(c), m)
            } else {
                left_of(c)
            },
        )
    } else {
        out == Outcome::Continue && new == old
    }
}

/// What a key does in Normal or Visual mode, where both modes agree; `None`
/// when the key is handled by the mode alone.
pub open spec fn common_step(old: App, key: char, new: App, out: Outcome) -> Option<bool> {
    let l = old.doc@;
    let c = old.cursor;
    let m = old.mode;
    if key == 'Q' {
        Some(out == Outcome::Quit && new == old)
    } else if key == 'W' {
        Some(out == Outcome::Save && new == old)
    } else if key == 'h' {
        Some(out == Outcome::Continue && moved(old, new, left_of(col_bounded(l, c, m))))
    } else if key == 'j' {
        Some(out == Outcome::Continue && moved(old, new, down_of(l, c)))
    } else if key == 'k' {
        Some(out == Outcome::Continue && moved(old, new, up_of(c)))
    } else if key == 'l' {
        Some(out == Outcome::Continue && moved(old, new, right_of(l, c, m)))
    } else if key == 'u' {
        Some(
            out == Outcome::Continue && if old.undo@.len() == 0 {
                new == App { undo: new.undo, ..old } && new.undo@ == old.undo@
            } else {
                let snap = old.undo@.last();
                &&& new.doc.lines == snap.0 && new.doc.file_path == old.doc.file_path
                &&& new.cursor == snap.1 && new.mode == snap.2
                &&& new.undo@ == old.undo@.drop_last()
                &&& new.viewport == old.viewport && new.clipboard == old.clipboard
            },
        )
    } else if key == 'w' || key == 'b' || key == 'e' {
        let o = offset(l, char_pos(l, pos_of(c)));
        let t = joined(l);
        Some(
            out == Outcome::Continue && new == App { cursor: new.cursor, ..old } && at_offset(
                l,
                new.cursor,
                if key == 'w' {
                    next_word_offset(t, o)
                } else if key == 'b' {
                    prev_word_offset(t, o)
                } else {
                    word_end_offset(t, o)
                },
            ),
        )
    } else if key == 'G' {
        Some(
            out == Outcome::Continue && moved(
                old,
                new,
                Cursor {
                    row: row_limit(l.len() as int) as usize,
                    col: col_limit(byte_len(l[row_limit(l.len() as int)]), Mode::Normal) as usize,
                },
            ),
        )
    } else {
        None
    }
}

/// What a key does in Visual mode, beyond what it shares with Normal mode.
pub open spec fn visual_step(old: App, landmark: Pos, key: char, new: App, out: Outcome) -> bool {
    let l = old.doc@;
    let c = old.cursor;
    let m = old.mode;
    let at = pos_of(col_bounded(l, c, m));
    if key == ESC {
        out == Outcome::Continue && switched(old, new, Mode::Normal)
    } else if key == 'y' {
        &&& out == Outcome::Continue
        &&& new.doc == old.doc && new.viewport == old.viewport && new.undo == old.undo
        &&& new.mode == Mode::Normal
        &&& clip_holds(new.clipboard, false, removed_at(l, landmark, at))
        &&& new.cursor == col_bounded(l, row_bounded(l, cursor_at(pos_min(landmark, at))), m)
    } else if key == 'Y' {
        let (s, e) = line_range(l, landmark, at);
        &&& out == Outcome::Continue
        &&& new.doc == old.doc && new.viewport == old.viewport && new.undo == old.undo
        &&& new.mode == Mode::Normal
        &&& clip_holds(new.clipboard, true, removed_at(l, s, e))
        &&& new.cursor == col_bounded(l, row_bounded(l, cursor_at(s)), m)
    } else if key == 'D' || key == 'd' {
        let (s, e) = if key == 'D' {
            line_range(l, landmark, at)
        } else {
            (landmark, at)
        };
        let kept = deleted_at(l, s, e);
        &&& out == Outcome::Continue
        &&& recorded(old, new.undo@, m)
        &&& edited(old, new, kept)
        &&& new.mode == Mode::Normal
        &&& clip_holds(new.clipboard, key == 'D', removed_at(l, s, e))
        &&& new.cursor == col_bounded(
            kept,
            row_bounded(kept, cursor_at(if key == 'D' {
                s
            } else {
                pos_min(landmark, at)
            })),
            m,
        )
    } else {
        out == Outcome::Continue && new == old
    }
}

/// What a key does in Delete mode: `d` deletes the cursor's line, `j` also
/// the next one, `k` also the previous one; any key goes back to Normal mode.
pub open spec fn delete_step(old: App, key: char, new: App, out: Outcome) -> bool {
    let l = old.doc@;
    let c = old.cursor;
    if key == 'd' || key == 'j' || key == 'k' {
        if (key == 'j' && row_limit(l.len() as int) <= c.row) || (key == 'k' && c.row == 0) {
            &&& out == Outcome::Continue
            &&& recorded(old, new.undo@, Mode::Normal)
            &&& new.doc == old.doc && new.viewport == old.viewport && new.cursor == c
                && new.clipboard == old.clipboard
            &&& new.mode == Mode::Normal
        } else {
            let first = if key == 'k' {
                (c.row - 1) as usize
            } else {
                c.row
            };
            let last = if key == 'j' {
                (c.row + 1) as usize
            } else {
                c.row
            };
            let s = Pos { row: first, col: 0 };
            let e = Pos { row: last, col: byte_len(l[last as int]) as usize };
            let kept = deleted_at(l, s, e);
            &&& out == Outcome::Continue
            &&& recorded(old, new.undo@, Mode::Normal)
            &&& edited(old, new, kept)
            &&& clip_holds(new.clipboard, true, removed_at(l, s, e))
            &&& new.mode == Mode::Normal
            &&& new.cursor == row_bounded(kept, if key == 'k' {
                up_of(c)
            } else {
                c
            })
        }
    } else {
        out == Outcome::Continue && switched(old, new, Mode::Normal)
    }
}

/// What a key does in Insert mode.
pub open spec fn insert_step(old: App, key: char, new: App, out: Outcome) -> bool {
    let l = old.doc@;
    let c = old.cursor;
    let m = old.mode;
    &&& out == Outcome::Continue
    &&& if key == ESC {
        new == App { mode: Mode::Normal, cursor: col_bounded(l, c, Mode::Normal), ..old }
    } else if key == ENTER {
        let kept = inserted_at(l, pos_of(c), seq!['\n']);
        &&& edited(old, new, kept)
        &&& new.cursor == down_of(kept, c)
        &&& new.mode == m && new.undo == old.undo && new.clipboard == old.clipboard
    } else if key == BACKSPACE {
        if c.row == 0 && c.col == 0 {
            new == old
        } else {
            let at = if c.col == 0 {
                line_end_of(l, up_of(c), Mode::Insert)
            } else {
                left_of(col_bounded(l, c, m))
            };
            &&& edited(old, new, deleted_at(l, pos_of(at), pos_of(at)))
            &&& new.cursor == at
            &&& new.mode == m && new.undo == old.undo && new.clipboard == old.clipboard
        }
    } else if control(key) {
        new == old
    } else {
        let kept = inserted_at(l, pos_of(c), seq![key]);
        &&& edited(old, new, kept)
        &&& new.cursor == right_of(kept, c, m)
        &&& new.mode == m && new.undo == old.undo && new.clipboard == old.clipboard
    }
}

/// What a key does in Replace mode: a character that is not a control
/// replaces the one under the cursor; back to Normal mode in any case.
pub open spec fn replace_step(old: App, key: char, new: App, out: Outcome) -> bool {
    let l = old.doc@;
    let c = old.cursor;
    &&& out == Outcome::Continue
    &&& recorded(old, new.undo@, old.mode)
    &&& new.mode == Mode::Normal
    &&& new.cursor == c && new.clipboard == old.clipboard
    &&& if control(key) {
        new.doc == old.doc && new.viewport == old.viewport
    } else {
        edited(old, new, inserted_at(deleted_at(l, pos_of(c), pos_of(c)), pos_of(c), seq![key]))
    }
}

/// What the key `key` does to the editor `old`: `new` is the editor after it
/// and `out` what the caller does next.
pub open spec fn handled(old: App, key: char, new: App, out: Outcome) -> bool {
    match old.mode {
        Mode::Normal => match common_step(old, key, new, out) {
            Some(b) => b,
            None => normal_step(old, key, new, out),
        },
        Mode::Visual(landmark) => match common_step(old, key, new, out) {
            Some(b) => b,
            None => visual_step(old, landmark, key, new, out),
        },
        Mode::Replace => replace_step(old, key, new, out),
        Mode::Delete => delete_step(old, key, new, out),
        Mode::Insert => insert_step(old, key, new, out),
    }
}

/// Whether `c` is a control character, as `char::is_control` tells: one of
/// the Unicode category Cc, that is U+0000 to U+001F and U+007F to U+009F.
fn is_control(c: char) -> (res: bool)
    ensures
        res == control(c),
{
    let u = c as u32;
    u <= 0x1f || (0x7f <= u && u <= 0x9f)
}

/// A `String` of the single character `c`.
fn char_string(c: char) -> (s: String)
    ensures
        s@ == seq![c],
{
    let mut s = String::new();
    push_char(&mut s, c);
    s
}

/// Whether `a` comes strictly before `b`.
fn lt(a: Pos, b: Pos) -> (res: bool)
    ensures
        res == pos_lt(a, b),
{
    a.row < b.row || (a.row == b.row && a.col < b.col)
}

/// The earlier of two positions.
fn earlier(a: Pos, b: Pos) -> (res: Pos)
    ensures
        res == pos_min(a, b),
{
    if a.row < b.row || (a.row == b.row && a.col <= b.col) {
        a
    } else {
        b
    }
}

impl App {
    /// The editor on `doc`, shown in `viewport`, in Normal mode at the first
    /// character, with no history and an empty clipboard.
    pub fn new(doc: Document, viewport: Viewport) -> (app: App)
        ensures
            app.doc == doc,
            app.viewport == viewport,
            app.cursor == (Cursor { row: 0, col: 0 }),
            app.mode == Mode::Normal,
            app.undo@ == Seq::<Snapshot>::empty(),
            app.clipboard == Clipboard::Empty,
    {
        App {
            doc,
            viewport,
            cursor: Cursor::new(),
            mode: Mode::Normal,
            undo: UndoStack::new(),
            clipboard: Clipboard::Empty,
        }
    }

    /// Whether `handle_input` is defined for `key` in the present state.
    pub fn accepts_key(&self, key: char) -> (res: bool)
        ensures
            res == accepts(*self, key),
    {
        let n = self.doc.lines.len();
        let c = self.cursor;
        let on_line = c.row < n;
        let valid = self.doc.is_valid(c.to_pos());
        let cut = self.doc.can_delete(c.to_pos(), c.to_pos());
        match self.mode {
            Mode::Normal => {
                if key == 'h' || key == 'i' || key == 'I' || key == 'A' || key == 'o' {
                    on_line
                } else if key == 'j' {
                    c.row < usize::MAX
                } else if key == 'l' || key == 'a' {
                    on_line && c.col < usize::MAX
                } else if key == 'w' || key == 'b' || key == 'e' {
                    valid
                } else if key == 's' || key == 'x' {
                    cut
                } else if key == 'P' {
                    match self.clipboard {
                        Clipboard::Normal(_) => valid,
                        Clipboard::Line(_) => on_line,
                        Clipboard::Empty => true,
                    }
                } else if key == 'p' {
                    match self.clipboard {
                        Clipboard::Normal(_) => {
                            if on_line && c.col < usize::MAX {
                                let mut next = c;
                                let at = next.right(&self.doc, Mode::Insert).to_pos();
                                self.doc.is_valid(at)
                            } else {
                                false
                            }
                        },
                        Clipboard::Line(_) => on_line,
                        Clipboard::Empty => true,
                    }
                } else if key == 'G' {
                    n > 0
                } else if key == ENTER {
                    n > 0 && c.row < usize::MAX
                } else if key == BACKSPACE {
                    c.col != 0 || (if c.row > 0 {
                        c.row - 1
                    } else {
                        0
                    }) < n
                } else {
                    true
                }
            },
            Mode::Visual(landmark) => {
                if key == 'h' {
                    on_line
                } else if key == 'j' {
                    c.row < usize::MAX
                } else if key == 'l' {
                    on_line && c.col < usize::MAX
                } else if key == 'w' || key == 'b' || key == 'e' {
                    valid
                } else if key == 'y' || key == 'd' {
                    if on_line {
                        let mut held = c;
                        let at = held.bound_col(&self.doc, self.mode).to_pos();
                        self.doc.can_delete(landmark, at)
                    } else {
                        false
                    }
                } else if key == 'Y' || key == 'D' {
                    on_line && landmark.row < n
                } else if key == 'G' {
                    n > 0
                } else {
                    true
                }
            },
            Mode::Replace => is_control(key) || cut,
            Mode::Delete => {
                if key == 'd' {
                    on_line
                } else if key == 'k' {
                    c.row == 0 || on_line
                } else {
                    true
                }
            },
            Mode::Insert => {
                if key == ESC {
                    on_line
                } else if key == ENTER {
                    valid
                } else if key == BACKSPACE {
                    (!(c.row > 0 && c.col == 0) || c.row - 1 < n) && (c.col == 0 || (on_line && {
                        let mut held = c;
                        let back = held.bound_col(&self.doc, Mode::Insert).left().to_pos();
                        self.doc.can_delete(back, back)
                    }))
                } else if is_control(key) {
                    true
                } else {
                    valid && c.col < usize::MAX
                }
            },
        }
    }

    /// Pushes a snapshot of the lines and cursor, taken in `mode`, on the history.
    fn record(&mut self, mode: Mode)
        ensures
            recorded(*old(self), final(self).undo@, mode),
            *final(self) == (App { undo: final(self).undo, ..*old(self) }),
    {
        let lines = self.doc.snapshot();
        let ghost entry = (lines, self.cursor, mode);
        self.undo.push(lines, self.cursor, mode);
        proof {
            crate::undo::law_pop_after_push(old(self).undo@, entry);
        }
    }

    /// Handles one key.
    pub fn handle_input(&mut self, key: char) -> (out: Outcome)
        requires
            accepts(*old(self), key),
        ensures
            handled(*old(self), key, *final(self), out),
    {
        match self.mode {
            Mode::Normal => {
                if key == 'Q' || key == 'W' || key == 'h' || key == 'j' || key == 'k' || key
                    == 'l' || key == 'u' || key == 'w' || key == 'b' || key == 'e' || key == 'G' {
                    self.common_key(key)
                } else {
                    self.normal_key(key)
                }
            },
            Mode::Visual(landmark) => {
                if key == 'Q' || key == 'W' || key == 'h' || key == 'j' || key == 'k' || key
                    == 'l' || key == 'u' || key == 'w' || key == 'b' || key == 'e' || key == 'G' {
                    self.common_key(key)
                } else {
                    self.visual_key(landmark, key)
                }
            },
            Mode::Replace => self.replace_key(key),
            Mode::Delete => self.delete_key(key),
            Mode::Insert => self.insert_key(key),
        }
    }

    /// Handles the key read after `g` in Normal mode: a second `g` goes to
    /// the first line, any other key is handled as usual.
    pub fn handle_key_after_g(&mut self, key: char) -> (out: Outcome)
        requires
            key != 'g' ==> accepts(*old(self), key),
        ensures
            key == 'g' ==> out == Outcome::Continue && moved(
                *old(self),
                *final(self),
                Cursor { row: 0, col: old(self).cursor.col },
            ),
            key != 'g' ==> handled(*old(self), key, *final(self), out),
    {
        if key != 'g' {
            return self.handle_input(key);
        }
        self.cursor.go_to_first_line();
        Outcome::Continue
    }

    /// The keys that Normal and Visual mode share.
    fn common_key(&mut self, key: char) -> (out: Outcome)
        requires
            accepts(*old(self), key),
            old(self).mode is Normal || old(self).mode is Visual,
            key == 'Q' || key == 'W' || key == 'h' || key == 'j' || key == 'k' || key == 'l'
                || key == 'u' || key == 'w' || key == 'b' || key == 'e' || key == 'G',
        ensures
            common_step(*old(self), key, *final(self), out) == Some(true),
    {
        let mode = self.mode;
        if key == 'Q' {
            return Outcome::Quit;
        } else if key == 'W' {
            return Outcome::Save;
        } else if key == 'h' {
            self.cursor.bound_col(&self.doc, mode).left();
        } else if key == 'j' {
            self.cursor.down(&self.doc);
        } else if key == 'k' {
            self.cursor.up();
        } else if key == 'l' {
            self.cursor.right(&self.doc, mode);
        } else if key == 'u' {
            if let Some(snapshot) = self.undo.pop() {
                self.doc.restore(snapshot.0);
                self.cursor = snapshot.1;
                self.mode.set(snapshot.2);
            }
        } else if key == 'w' {
            let p = self.doc.next_word(self.cursor.to_pos());
            self.cursor.go_to_pos(p);
        } else if key == 'b' {
            let p = self.doc.prev_word(self.cursor.to_pos());
            self.cursor.go_to_pos(p);
        } else if key == 'e' {
            let p = self.doc.last_char_of_next_word(self.cursor.to_pos());
            self.cursor.go_to_pos(p);
        } else {
            self.cursor.go_to_last_char(&self.doc);
        }
        Outcome::Continue
    }

    /// The keys of Normal mode that Visual mode does not share.
    fn normal_key(&mut self, key: char) -> (out: Outcome)
        requires
            accepts(*old(self), key),
            old(self).mode is Normal,
            !(key == 'Q' || key == 'W' || key == 'h' || key == 'j' || key == 'k' || key == 'l'
                || key == 'u' || key == 'w' || key == 'b' || key == 'e' || key == 'G'),
        ensures
            normal_step(*old(self), key, *final(self), out),
    {
        let mode = self.mode;
        assert(self.doc@.len() == self.doc.lines.len());
        if key == 'i' || key == 'A' || key == 'a' {
            self.record(mode);
            self.mode.set(Mode::Insert);
            if key == 'i' {
                self.cursor.bound_col(&self.doc, Mode::Insert);
            } else if key == 'A' {
                self.cursor.go_to_end_of_line(&self.doc, Mode::Insert);
            } else {
                self.cursor.right(&self.doc, Mode::Insert);
            }
        } else if key == 'I' {
            self.mode.set(Mode::Insert);
            self.cursor.go_to_start_of_line(&self.doc);
        } else if key == 's' {
            self.record(mode);
            self.mode.set(Mode::Insert);
            self.doc.delete(self.cursor.to_pos(), self.cursor.to_pos());
        } else if key == 'o' {
            self.record(mode);
            self.mode.set(Mode::Insert);
            self.doc.insert_line(self.cursor.row + 1);
            self.cursor.down(&self.doc);
        } else if key == 'r' {
            self.mode.set(Mode::Replace);
        } else if key == 'd' {
            self.mode.set(Mode::Delete);
        } else if key == 'v' {
            self.mode.set(Mode::Visual(self.cursor.to_pos()));
        } else if key == 'x' {
            self.record(mode);
            let removed = self.doc.delete(self.cursor.to_pos(), self.cursor.to_pos());
            self.clipboard = Clipboard::Normal(removed);
            self.cursor.bound_col(&self.doc, mode);
        } else if key == 'P' || key == 'p' {
            self.paste(key == 'P');
        } else if key == 'g' {
            return Outcome::AwaitKey;
        } else if key == ENTER {
            self.cursor.down(&self.doc).go_to_start_of_line(&self.doc);
        } else if key == BACKSPACE {
            if self.cursor.col == 0 {
                self.cursor.up().go_to_end_of_line(&self.doc, mode);
            } else {
                self.cursor.left();
            }
        }
        Outcome::Continue
    }

    /// Pastes the clipboard: before the cursor, or after it when `before`
    /// does not hold.
    fn paste(&mut self, before: bool)
        requires
            accepts(*old(self), if before {
                'P'
            } else {
                'p'
            }),
            old(self).mode is Normal,
        ensures
            normal_step(
                *old(self),
                if before {
                    'P'
                } else {
                    'p'
                },
                *final(self),
                Outcome::Continue,
            ),
    {
        self.record(Mode::Normal);
        assert(self.doc@.len() == self.doc.lines.len());
        match &self.clipboard {
            Clipboard::Normal(s) => {
                let at = if before {
                    self.cursor.to_pos()
                } else {
                    {
                        let mut next = self.cursor;
                        next.right(&self.doc, Mode::Insert).to_pos()
                    }
                };
                let end = self.doc.insert(at, s.as_str());
                self.cursor.go_to_pos(end);
            },
            Clipboard::Line(s) => {
                if before {
                    proof {
                        lemma_line_end(self.doc@[self.cursor.row as int]);
                    }
                    self.doc.insert(Pos { row: self.cursor.row, col: 0 }, s.as_str());
                } else {
                    let chars = line_chars(s);
                    let keep = if chars.len() > 0 && chars[chars.len() - 1] == '\n' {
                        chars.len() - 1
                    } else {
                        chars.len()
                    };
                    let mut text = String::new();
                    push_chars(&mut text, &chars, 0, keep);
                    let mut pasted = String::new();
                    push_char(&mut pasted, '\n');
                    push_chars(&mut pasted, &chars, 0, keep);
                    proof {
                        assert(chars@.subrange(0, keep as int) =~= trimmed(chars@));
                        assert(Seq::<char>::empty() + chars@.subrange(0, keep as int) =~= trimmed(
                            chars@,
                        ));
                    }
                    let mut line_end = self.cursor;
                    let at = line_end.go_to_end_of_line(&self.doc, Mode::Insert).to_pos();
                    let line_bytes = self.doc.line_len(at.row);
                    proof {
                        assert(at.col == line_bytes);
                        lemma_line_end_at(self.doc@, at);
                    }
                    self.doc.insert(at, pasted.as_str());
                    self.cursor.down(&self.doc);
                    self.clipboard = Clipboard::Line(text);
                }
            },
            Clipboard::Empty => {},
        }
    }

    /// The keys of Visual mode that Normal mode does not share.
    fn visual_key(&mut self, landmark: Pos, key: char) -> (out: Outcome)
        requires
            accepts(*old(self), key),
            old(self).mode == Mode::Visual(landmark),
            !(key == 'Q' || key == 'W' || key == 'h' || key == 'j' || key == 'k' || key == 'l'
                || key == 'u' || key == 'w' || key == 'b' || key == 'e' || key == 'G'),
        ensures
            visual_step(*old(self), landmark, key, *final(self), out),
    {
        let mode = self.mode;
        if key == ESC {
            self.mode.set(Mode::Normal);
        } else if key == 'y' || key == 'Y' || key == 'D' || key == 'd' {
            if key == 'D' || key == 'd' {
                self.record(mode);
            }
            let mut held = self.cursor;
            let at = held.bound_col(&self.doc, mode).to_pos();
            let (start, end) = if key == 'y' || key == 'd' {
                (landmark, at)
            } else {
                let (mut s, mut e) = if lt(landmark, at) {
                    (landmark, at)
                } else {
                    (at, landmark)
                };
                s.col = 0;
                e.col = self.doc.col_bound(e.row, mode);
                proof {
                    lemma_line_edges_at(self.doc@, s, e);
                }
                (s, e)
            };
            let removed = if key == 'y' || key == 'Y' {
                self.doc.copy(start, end)
            } else {
                self.doc.delete(start, end)
            };
            self.clipboard = if key == 'y' || key == 'd' {
                Clipboard::Normal(removed)
            } else {
                Clipboard::Line(removed)
            };
            let target = if key == 'y' || key == 'd' {
                earlier(landmark, at)
            } else {
                start
            };
            self.cursor.go_to_pos(target).bound_row(&self.doc).bound_col(&self.doc, mode);
            self.mode.set(Mode::Normal);
        }
        Outcome::Continue
    }

    /// The keys of Delete mode.
    fn delete_key(&mut self, key: char) -> (out: Outcome)
        requires
            accepts(*old(self), key),
            old(self).mode is Delete,
        ensures
            delete_step(*old(self), key, *final(self), out),
    {
        if key == 'd' || key == 'j' || key == 'k' {
            self.record(Mode::Normal);
            if (key == 'j' && self.doc.row_bound() <= self.cursor.row) || (key == 'k'
                && self.cursor.row == 0) {
                self.mode.set(Mode::Normal);
                return Outcome::Continue;
            }
            let first = if key == 'k' {
                self.cursor.row - 1
            } else {
                self.cursor.row
            };
            let last = if key == 'j' {
                self.cursor.row + 1
            } else {
                self.cursor.row
            };
            let start = Pos { row: first, col: 0 };
            let end = Pos { row: last, col: self.doc.col_bound(last, Mode::Insert) };
            proof {
                lemma_line_edges_at(self.doc@, start, end);
            }
            let removed = self.doc.delete(start, end);
            self.clipboard = Clipboard::Line(removed);
            if key == 'k' {
                self.cursor.up().bound_row(&self.doc);
            } else {
                self.cursor.bound_row(&self.doc);
            }
        }
        self.mode.set(Mode::Normal);
        Outcome::Continue
    }

    /// The keys of Insert mode.
    fn insert_key(&mut self, key: char) -> (out: Outcome)
        requires
            accepts(*old(self), key),
            old(self).mode is Insert,
        ensures
            insert_step(*old(self), key, *final(self), out),
    {
        let mode = self.mode;
        assert(self.doc@.len() == self.doc.lines.len());
        if key == ESC {
            self.mode.set(Mode::Normal);
            self.cursor.bound_col(&self.doc, Mode::Normal);
        } else if key == ENTER {
            let s = char_string('\n');
            self.doc.insert(self.cursor.to_pos(), s.as_str());
            self.cursor.down(&self.doc);
        } else if key == BACKSPACE {
            if self.cursor.row == 0 && self.cursor.col == 0 {
                return Outcome::Continue;
            }
            if self.cursor.col == 0 {
                self.cursor.up().go_to_end_of_line(&self.doc, Mode::Insert);
                let line_bytes = self.doc.line_len(self.cursor.row);
                proof {
                    assert(self.cursor.col == line_bytes);
                    lemma_line_end_at(self.doc@, pos_of(self.cursor));
                }
            } else {
                self.cursor.bound_col(&self.doc, mode).left();
            }
            self.doc.delete(self.cursor.to_pos(), self.cursor.to_pos());
        } else if !is_control(key) {
            let s = char_string(key);
            self.doc.insert(self.cursor.to_pos(), s.as_str());
            self.cursor.right(&self.doc, mode);
        }
        Outcome::Continue
    }

    /// A character replaces the one under the cursor.
    fn replace_key(&mut self, key: char) -> (out: Outcome)
        requires
            accepts(*old(self), key),
            old(self).mode is Replace,
        ensures
            replace_step(*old(self), key, *final(self), out),
    {
        let mode = self.mode;
        self.record(mode);
        if !is_control(key) {
            proof {
                lemma_delete_one_keeps_place(self.doc@, pos_of(self.cursor));
            }
            self.doc.delete(self.cursor.to_pos(), self.cursor.to_pos());
            let s = char_string(key);
            self.doc.insert(self.cursor.to_pos(), s.as_str());
        }
        self.mode.set(Mode::Normal);
        Outcome::Continue
    }
}

/// The keys that take a snapshot for the history and leave the editor in
/// Normal mode, so that `u` may come right after them.
pub open spec fn undoable(a: App, key: char) -> bool {
    match a.mode {
        Mode::Normal => key == 'x' || key == 'P' || key == 'p',
        Mode::Visual(_) => key == 'd' || key == 'D',
        Mode::Replace => true,
        Mode::Delete => key == 'd' || key == 'j' || key == 'k',
        Mode::Insert => false,
    }
}

/// `u` right after a key that changes the document from Normal, Visual,
/// Replace or Delete mode gives back the document and the cursor from before
/// that key, the mode it was pressed in (Normal for Delete mode), and the
/// history from before it (without its oldest snapshot when it was full).
pub proof fn law_undo_restores(a: App, key: char, b: App, out: Outcome, c: App, out_u: Outcome)
    requires
        undoable(a, key),
        handled(a, key, b, out),
        handled(b, 'u', c, out_u),
    ensures
        out == Outcome::Continue,
        out_u == Outcome::Continue,
        c.doc@ == a.doc@,
        c.doc.file_path == a.doc.file_path,
        c.cursor == a.cursor,
        c.mode == (if a.mode is Delete {
            Mode::Normal
        } else {
            a.mode
        }),
        c.undo@ == (if a.undo@.len() >= MAX_SIZE {
            a.undo@.skip(1)
        } else {
            a.undo@
        }),
        c.viewport == a.viewport,
{
    assert(b.mode == Mode::Normal);
    assert(b.undo@.len() > 0);
}

/// In Insert mode, typing an ASCII character and deleting it with
/// backspace gives back the editor as it was, the document's lines included.
pub proof fn law_type_then_backspace(
    a: App,
    key: char,
    b: App,
    out: Outcome,
    c: App,
    out_b: Outcome,
)
    requires
        a.mode == Mode::Insert,
        !control(key),
        (key as u32) < 0x80,
        accepts(a, key),
        handled(a, key, b, out),
        handled(b, BACKSPACE, c, out_b),
    ensures
        out == Outcome::Continue,
        out_b == Outcome::Continue,
        c.doc@ == a.doc@,
        c.doc.file_path == a.doc.file_path,
        c == (App { doc: c.doc, ..a }),
{
    let l = a.doc@;
    let p = pos_of(a.cursor);
    let r = p.row as int;
    let line = l[r];
    lemma_valid_at(l, p);
    let cp = char_pos(l, p);
    let n = cp.col as int;
    crate::columns::lemma_on_char(line, p.col as int);
    assert(key != '\n');
    assert(has_no_break(seq![key]));
    lemma_split_no_break(seq![key]);
    let k = inserted_at(l, p, seq![key]);
    let typed = line.take(n) + seq![key] + line.skip(n);
    assert(spliced(line.take(n), seq![seq![key]], line.skip(n)) =~= seq![typed]);
    assert(k =~= l.update(r, typed));
    crate::columns::lemma_byte_len_char(key);
    crate::columns::lemma_byte_len_concat(line.take(n) + seq![key], line.skip(n));
    crate::columns::lemma_byte_len_concat(line.take(n), seq![key]);
    crate::columns::lemma_byte_len_concat(line.take(n), line.skip(n));
    assert(line.take(n) + line.skip(n) =~= line);
    assert(byte_len(typed) == byte_len(line) + 1);
    crate::columns::lemma_byte_len_mono(line, n, line.len() as int);
    assert(line.take(line.len() as int) =~= line);
    assert(b.cursor == Cursor { row: a.cursor.row, col: (a.cursor.col + 1) as usize });
    let at = Pos { row: p.row, col: p.col };
    assert(typed.take(n) =~= line.take(n));
    crate::columns::lemma_char_col(typed, n);
    assert(!void_at(k, at, at));
    assert(char_pos(k, at) == cp);
    assert(typed.skip(n + 1) =~= line.skip(n));
    assert(deleted(k, cp, cp) =~= l);
}

/// No line of the document, nor of any snapshot in the history, holds a
/// line break.
pub open spec fn lines_whole(a: App) -> bool {
    &&& no_breaks(a.doc@)
    &&& forall|i: int| 0 <= i < a.undo@.len() ==> no_breaks(#[trigger] views(a.undo@[i].0@))
}

/// Each line is no longer, in bytes, than a `String` can be.
pub open spec fn lines_fit(lines: Seq<Seq<char>>) -> bool {
    forall|r: int| 0 <= r < lines.len() ==> #[trigger] byte_len(lines[r]) <= usize::MAX
}

/// A history with a snapshot of a whole document pushed on it stays whole.
proof fn lemma_recorded_whole(a: App, hist: Seq<Snapshot>, m: Mode)
    requires
        lines_whole(a),
        recorded(a, hist, m),
    ensures
        forall|i: int| 0 <= i < hist.len() ==> no_breaks(#[trigger] views(hist[i].0@)),
{
    let before = hist.drop_last();
    assert forall|i: int| 0 <= i < hist.len() implies no_breaks(#[trigger] views(hist[i].0@)) by {
        if i < hist.len() - 1 {
            assert(hist[i] == before[i]);
            if a.undo@.len() >= MAX_SIZE {
                let u = a.undo@;
                assert(before == u.skip(1));
                assert(before.len() == u.len() - 1);
                assert(0 <= i && i + 1 < u.len());
                assert(u.skip(1)[i] == u[i + 1]);
                assert(no_breaks(views(a.undo@[i + 1].0@)));
            } else {
                assert(before[i] == a.undo@[i]);
            }
        } else {
            assert(hist[i] == hist.last());
        }
    }
}

/// The keys that Normal and Visual mode share keep the editor whole.
proof fn lemma_common_whole(a: App, key: char, b: App, out: Outcome)
    requires
        lines_whole(a),
        common_step(a, key, b, out) == Some(true),
    ensures
        lines_whole(b),
{
    if key == 'u' && a.undo@.len() > 0 {
        let n = a.undo@.len() - 1;
        assert(no_breaks(views(a.undo@[n].0@)));
        assert(b.doc@ == views(a.undo@.last().0@));
        assert forall|i: int| 0 <= i < b.undo@.len() implies no_breaks(
            #[trigger] views(b.undo@[i].0@),
        ) by {
            assert(b.undo@[i] == a.undo@[i]);
        }
    }
}

/// The keys of Normal mode keep the editor whole.
proof fn lemma_normal_whole(a: App, key: char, b: App, out: Outcome)
    requires
        lines_whole(a),
        lines_fit(a.doc@),
        accepts(a, key),
        a.mode is Normal,
        normal_step(a, key, b, out),
    ensures
        lines_whole(b),
{
    let l = a.doc@;
    let c = a.cursor;
    let p = pos_of(c);
    if key == 'i' || key == 'A' || key == 'a' {
        lemma_recorded_whole(a, b.undo@, a.mode);
    } else if key == 's' || key == 'x' {
        lemma_recorded_whole(a, b.undo@, a.mode);
        lemma_deleted_at_keeps(l, p, p);
    } else if key == 'o' {
        lemma_recorded_whole(a, b.undo@, a.mode);
        lemma_insert_line_keeps_no_breaks(l, c.row + 1);
    } else if key == 'P' || key == 'p' {
        lemma_recorded_whole(a, b.undo@, Mode::Normal);
        match a.clipboard {
            Clipboard::Normal(t) => {
                let at = if key == 'P' {
                    p
                } else {
                    pos_of(right_of(l, c, Mode::Insert))
                };
                lemma_inserted_at_keeps(l, at, t@);
            },
            Clipboard::Line(t) => {
                lemma_line_end(l[c.row as int]);
                assert(byte_len(l[c.row as int]) <= usize::MAX);
                if key == 'P' {
                    lemma_inserted_at_keeps(l, Pos { row: c.row, col: 0 }, t@);
                } else {
                    lemma_inserted_at_keeps(
                        l,
                        pos_of(line_end_of(l, c, Mode::Insert)),
                        seq!['\n'] + trimmed(t@),
                    );
                }
            },
            Clipboard::Empty => {},
        }
    }
}

/// The keys of Visual mode beyond the shared ones keep the editor whole.
proof fn lemma_visual_whole(a: App, landmark: Pos, key: char, b: App, out: Outcome)
    requires
        lines_whole(a),
        lines_fit(a.doc@),
        accepts(a, key),
        a.mode == Mode::Visual(landmark),
        visual_step(a, landmark, key, b, out),
    ensures
        lines_whole(b),
{
    let l = a.doc@;
    let at = pos_of(col_bounded(l, a.cursor, a.mode));
    if key == 'd' || key == 'D' {
        lemma_recorded_whole(a, b.undo@, a.mode);
        let (s, e) = if key == 'D' {
            line_range(l, landmark, at)
        } else {
            (landmark, at)
        };
        if key == 'D' {
            assert(byte_len(l[e.row as int]) <= usize::MAX);
            lemma_line_edges_at(l, s, e);
        }
        lemma_deleted_at_keeps(l, s, e);
    }
}

/// The keys of Delete mode keep the editor whole.
proof fn lemma_delete_mode_whole(a: App, key: char, b: App, out: Outcome)
    requires
        lines_whole(a),
        lines_fit(a.doc@),
        accepts(a, key),
        a.mode is Delete,
        delete_step(a, key, b, out),
    ensures
        lines_whole(b),
{
    let l = a.doc@;
    let c = a.cursor;
    assert(l.len() == a.doc.lines.len());
    if key == 'd' || key == 'j' || key == 'k' {
        lemma_recorded_whole(a, b.undo@, Mode::Normal);
        if !((key == 'j' && row_limit(l.len() as int) <= c.row) || (key == 'k' && c.row == 0)) {
            let first = if key == 'k' {
                (c.row - 1) as usize
            } else {
                c.row
            };
            let last = if key == 'j' {
                (c.row + 1) as usize
            } else {
                c.row
            };
            let s = Pos { row: first, col: 0 };
            let e = Pos { row: last, col: byte_len(l[last as int]) as usize };
            assert(byte_len(l[last as int]) <= usize::MAX);
            lemma_line_edges_at(l, s, e);
            lemma_deleted_at_keeps(l, s, e);
        }
    }
}

/// The keys of Insert and Replace mode keep the editor whole.
proof fn lemma_typing_whole(a: App, key: char, b: App, out: Outcome)
    requires
        lines_whole(a),
        lines_fit(a.doc@),
        accepts(a, key),
        a.mode is Insert || a.mode is Replace,
        handled(a, key, b, out),
    ensures
        lines_whole(b),
{
    let l = a.doc@;
    let c = a.cursor;
    let p = pos_of(c);
    if a.mode is Replace {
        lemma_recorded_whole(a, b.undo@, a.mode);
        if !control(key) {
            lemma_deleted_at_keeps(l, p, p);
            lemma_delete_one_keeps_place(l, p);
            lemma_inserted_at_keeps(deleted_at(l, p, p), p, seq![key]);
        }
    } else if key == ENTER {
        lemma_inserted_at_keeps(l, p, seq!['\n']);
    } else if key == BACKSPACE {
        if !(c.row == 0 && c.col == 0) {
            let at = if c.col == 0 {
                line_end_of(l, up_of(c), Mode::Insert)
            } else {
                left_of(col_bounded(l, c, a.mode))
            };
            if c.col == 0 {
                assert(byte_len(l[c.row - 1]) <= usize::MAX);
                lemma_line_end_at(l, pos_of(at));
            }
            lemma_deleted_at_keeps(l, pos_of(at), pos_of(at));
        }
    } else if key != ESC && !control(key) {
        lemma_inserted_at_keeps(l, p, seq![key]);
    }
}

/// Every key keeps the lines of the document, and of every snapshot in the
/// history, free of line breaks (for lines as long as a `String` can be).
pub proof fn law_lines_stay_whole(a: App, key: char, b: App, out: Outcome)
    requires
        lines_whole(a),
        lines_fit(a.doc@),
        accepts(a, key),
        handled(a, key, b, out),
    ensures
        lines_whole(b),
{
    match a.mode {
        Mode::Normal => {
            if common_step(a, key, b, out) is Some {
                lemma_common_whole(a, key, b, out);
            } else {
                lemma_normal_whole(a, key, b, out);
            }
        },
        Mode::Visual(landmark) => {
            if common_step(a, key, b, out) is Some {
                lemma_common_whole(a, key, b, out);
            } else {
                lemma_visual_whole(a, landmark, key, b, out);
            }
        },
        Mode::Delete => lemma_delete_mode_whole(a, key, b, out),
        _ => lemma_typing_whole(a, key, b, out),
    }
}

} // verus!
