//! A simpler editing context: the lines of a file, each kept with its line
//! ending, and a cursor moved by terminal control sequences.
//!
//! Each move returns the control sequence that moves the terminal's cursor
//! the same way, or nothing when the move is refused; the caller prints it.
use vstd::prelude::*;

use crate::text::{decimal, line_chars, push_char, push_chars, push_decimal, push_text, split_lines, split_text, views};

verus! {

/// The modes of the context.
#[derive(PartialEq, Eq, Structural, Clone, Copy, Debug)]
pub enum Mode {
    Normal,
    Insert,
}

/// The lines of a file, each ending with `\r\n`, its path, the mode and the cursor.
pub struct Ctx {
    pub mode: Mode,
    pub content: Vec<String>,
    pub path: String,
    pub x: usize,
    pub y: usize,
}

/// The control sequence `ESC [ n letter`.
pub open spec fn move_code(n: nat, letter: char) -> Seq<char> {
    seq!['\x1b', '['] + decimal(n) + seq![letter]
}

/// The lines of `text` that the context holds: each line of the text
/// followed by `\r\n`.
pub open spec fn terminal_lines(text: Seq<char>) -> Seq<Seq<char>> {
    split_lines(text).map_values(|l: Seq<char>| l + seq!['\r', '\n'])
}

/// The characters of `lines`, one line after the other.
pub open spec fn concat(lines: Seq<Seq<char>>) -> Seq<char>
    decreases lines.len(),
{
    if lines.len() == 0 {
        Seq::empty()
    } else {
        concat(lines.drop_last()) + lines.last()
    }
}

/// `s` without its carriage returns.
pub open spec fn without_cr(s: Seq<char>) -> Seq<char> {
    s.filter(|c: char| c != '\r')
}

/// Appends `ESC [ n letter`.
fn push_move_code(s: &mut String, n: usize, letter: char)
    ensures
        final(s)@ == old(s)@ + move_code(n as nat, letter),
{
    push_char(s, '\x1b');
    push_char(s, '[');
    push_decimal(s, n);
    push_char(s, letter);
    assert(final(s)@ =~= old(s)@ + move_code(n as nat, letter)) by {
        assert(s@ =~= old(s)@ + move_code(n as nat, letter));
    }
}

impl Ctx {
    /// The context for the file at `path` holding `text`, in Normal mode at
    /// the start.
    pub fn from_text(path: &str, text: &str) -> (ctx: Ctx)
        ensures
            views(ctx.content@) == terminal_lines(text@),
            ctx.path@ == path@,
            ctx.mode == Mode::Normal,
            ctx.x == 0 && ctx.y == 0,
    {
        let parts = split_text(text);
        let mut content: Vec<String> = Vec::new();
        for i in 0..parts.len()
            invariant
                views(content@) == views(parts@).take(i as int).map_values(
                    |l: Seq<char>| l + seq!['\r', '\n'],
                ),
        {
            let mut line = String::new();
            push_text(&mut line, parts[i].as_str());
            push_char(&mut line, '\r');
            push_char(&mut line, '\n');
            let ghost before = content@;
            assert(line@ =~= parts@[i as int]@ + seq!['\r', '\n']);
            content.push(line);
            assert(views(content@) =~= views(before).push(line@));
            assert(views(content@) =~= views(parts@).take(i + 1).map_values(
                |l: Seq<char>| l + seq!['\r', '\n'],
            ));
        }
        assert(views(parts@).take(parts.len() as int) =~= views(parts@));
        let mut owned = String::new();
        push_text(&mut owned, path);
        assert(owned@ =~= path@);
        Ctx { mode: Mode::Normal, content, path: owned, x: 0, y: 0 }
    }

    /// Moves `n` rows up when that stays at or below the first row (the
    /// test is made on both numbers taken as `i32`).
    pub fn up(&mut self, n: usize) -> (code: String)
        requires
            i32::MIN <= (old(self).y as i32) - (n as i32) <= i32::MAX,
            (old(self).y as i32) - (n as i32) >= 0 ==> old(self).y >= n,
        ensures
            if (old(self).y as i32) - (n as i32) >= 0 {
                &&& *final(self) == (Ctx { y: (old(self).y - n) as usize, ..*old(self) })
                &&& code@ == move_code(n as nat, 'A')
            } else {
                *final(self) == *old(self) && code@ == Seq::<char>::empty()
            },
    {
        let mut code = String::new();
        if (self.y as i32) - (n as i32) >= 0 {
            self.y -= n;
            push_move_code(&mut code, n, 'A');
            assert(code@ =~= move_code(n as nat, 'A'));
        }
        code
    }

    /// Moves `n` rows down when that stays on a line.
    pub fn down(&mut self, n: usize) -> (code: String)
        requires
            old(self).y + n <= usize::MAX,
        ensures
            if old(self).y + n < old(self).content@.len() {
                &&& *final(self) == (Ctx { y: (old(self).y + n) as usize, ..*old(self) })
                &&& code@ == move_code(n as nat, 'B')
            } else {
                *final(self) == *old(self) && code@ == Seq::<char>::empty()
            },
    {
        let mut code = String::new();
        if self.y + n < self.content.len() {
            self.y += n;
            push_move_code(&mut code, n, 'B');
            assert(code@ =~= move_code(n as nat, 'B'));
        }
        code
    }

    /// Moves `n` columns right.
    pub fn right(&mut self, n: usize) -> (code: String)
        requires
            old(self).x + n <= usize::MAX,
        ensures
            *final(self) == (Ctx { x: (old(self).x + n) as usize, ..*old(self) }),
            code@ == move_code(n as nat, 'C'),
    {
        self.x += n;
        let mut code = String::new();
        push_move_code(&mut code, n, 'C');
        assert(code@ =~= move_code(n as nat, 'C'));
        code
    }

    /// Moves `n` columns left when that stays at or right of the first
    /// column (the test is made on both numbers taken as `i32`).
    pub fn left(&mut self, n: usize) -> (code: String)
        requires
            i32::MIN <= (old(self).x as i32) - (n as i32) <= i32::MAX,
            (old(self).x as i32) - (n as i32) >= 0 ==> old(self).x >= n,
        ensures
            if (old(self).x as i32) - (n as i32) >= 0 {
                &&& *final(self) == (Ctx { x: (old(self).x - n) as usize, ..*old(self) })
                &&& code@ == move_code(n as nat, 'D')
            } else {
                *final(self) == *old(self) && code@ == Seq::<char>::empty()
            },
    {
        let mut code = String::new();
        if (self.x as i32) - (n as i32) >= 0 {
            self.x -= n;
            push_move_code(&mut code, n, 'D');
            assert(code@ =~= move_code(n as nat, 'D'));
        }
        code
    }

    /// Moves to column `x` of row `y`.
    pub fn go_to(&mut self, x: usize, y: usize) -> (code: String)
        ensures
            *final(self) == (Ctx { x, y, ..*old(self) }),
            code@ == seq!['\x1b', '['] + decimal(y as nat) + seq![';'] + decimal(x as nat) + seq![
                'H',
            ],
    {
        self.x = x;
        self.y = y;
        let mut code = String::new();
        push_char(&mut code, '\x1b');
        push_char(&mut code, '[');
        push_decimal(&mut code, y);
        push_char(&mut code, ';');
        push_decimal(&mut code, x);
        push_char(&mut code, 'H');
        assert(code@ =~= seq!['\x1b', '['] + decimal(y as nat) + seq![';'] + decimal(x as nat)
            + seq!['H']);
        code
    }

    /// The control sequence for a bar cursor.
    pub fn thin_cursor(&self) -> (code: String)
        ensures
            code@ == seq!['\x1b', '[', '6', ' ', 'q'],
    {
        let mut code = String::new();
        push_char(&mut code, '\x1b');
        push_char(&mut code, '[');
        push_char(&mut code, '6');
        push_char(&mut code, ' ');
        push_char(&mut code, 'q');
        assert(code@ =~= seq!['\x1b', '[', '6', ' ', 'q']);
        code
    }

    /// The control sequence for a block cursor.
    pub fn block_cursor(&self) -> (code: String)
        ensures
            code@ == seq!['\x1b', '[', '2', ' ', 'q'],
    {
        let mut code = String::new();
        push_char(&mut code, '\x1b');
        push_char(&mut code, '[');
        push_char(&mut code, '2');
        push_char(&mut code, ' ');
        push_char(&mut code, 'q');
        assert(code@ =~= seq!['\x1b', '[', '2', ' ', 'q']);
        code
    }

    /// All the lines, one after the other, as they are printed.
    pub fn print_all(&self) -> (text: String)
        ensures
            text@ == concat(views(self.content@)),
    {
        let mut text = String::new();
        for i in 0..self.content.len()
            invariant
                text@ == concat(views(self.content@).take(i as int)),
        {
            push_text(&mut text, self.content[i].as_str());
            assert(views(self.content@).take(i + 1).drop_last() =~= views(self.content@).take(
                i as int,
            ));
        }
        assert(views(self.content@).take(self.content.len() as int) =~= views(self.content@));
        text
    }

    /// The text to write back to the file: all the lines, one after the
    /// other, without their carriage returns.
    pub fn saved_text(&self) -> (text: String)
        ensures
            text@ == without_cr(concat(views(self.content@))),
    {
        let all = self.print_all();
        let chars = line_chars(&all);
        let mut text = String::new();
        for i in 0..chars.len()
            invariant
                text@ == without_cr(chars@.take(i as int)),
        {
            if chars[i] != '\r' {
                push_char(&mut text, chars[i]);
            }
            proof {
                let t = chars@.take(i + 1);
                assert(t.drop_last() =~= chars@.take(i as int));
                reveal(Seq::filter);
                assert(without_cr(t) == {
                    let f = without_cr(t.drop_last());
                    if t.last() != '\r' { f.push(t.last()) } else { f }
                });
            }
        }
        assert(chars@.take(chars.len() as int) =~= chars@);
        text
    }
}

} // verus!
