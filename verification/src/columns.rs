//! Columns counted in bytes: a column of a line is an offset into the
//! line's UTF-8 encoding, as `String` indexes it. A column between two
//! characters stands for the number of characters before it.
use vstd::prelude::*;

use vstd::utf8::{encode_utf8, encode_scalar};

verus! {

/// The number of bytes of the UTF-8 encoding of `s` (`String::len`).
pub open spec fn byte_len(s: Seq<char>) -> int {
    encode_utf8(s).len() as int
}

/// Byte column `col` of `line` falls between two characters (or at an end).
pub open spec fn on_char(line: Seq<char>, col: int) -> bool {
    exists|k: int| 0 <= k <= line.len() && #[trigger] byte_len(line.take(k)) == col
}

/// The number of characters before byte column `col` of `line`.
pub open spec fn char_col(line: Seq<char>, col: int) -> int {
    choose|k: int| 0 <= k <= line.len() && #[trigger] byte_len(line.take(k)) == col
}

/// The encoding of two texts one after the other is theirs one after the other.
pub proof fn lemma_byte_len_concat(a: Seq<char>, b: Seq<char>)
    ensures
        byte_len(a + b) == byte_len(a) + byte_len(b),
    decreases a.len(),
{
    if a.len() == 0 {
        assert(a + b =~= b);
    } else {
        lemma_byte_len_concat(a.drop_first(), b);
        assert((a + b).drop_first() =~= a.drop_first() + b);
        assert((a + b)[0] == a[0]);
    }
}

/// A character takes one to four bytes, one when it is ASCII.
pub proof fn lemma_byte_len_char(c: char)
    ensures
        1 <= byte_len(seq![c]) <= 4,
        byte_len(seq![c]) == 1 <==> (c as u32) < 0x80,
{
    assert(seq![c].drop_first() =~= Seq::<char>::empty());
    assert(encode_utf8(seq![c]) == encode_scalar(c as u32) + encode_utf8(Seq::<char>::empty()));
    vstd::utf8::char_is_scalar(c);
}

/// One more character adds its bytes.
pub proof fn lemma_byte_len_step(s: Seq<char>, k: int)
    requires
        0 <= k < s.len(),
    ensures
        byte_len(s.take(k + 1)) == byte_len(s.take(k)) + byte_len(seq![s[k]]),
{
    assert(s.take(k + 1) =~= s.take(k) + seq![s[k]]);
    lemma_byte_len_concat(s.take(k), seq![s[k]]);
}

/// A text has at least as many bytes as characters.
pub proof fn lemma_byte_len_bound(s: Seq<char>)
    ensures
        byte_len(s) >= s.len(),
    decreases s.len(),
{
    if s.len() > 0 {
        lemma_byte_len_bound(s.drop_first());
        assert(s =~= seq![s[0]] + s.drop_first());
        lemma_byte_len_concat(seq![s[0]], s.drop_first());
        lemma_byte_len_char(s[0]);
    }
}

/// More characters take more bytes.
pub proof fn lemma_byte_len_mono(s: Seq<char>, i: int, j: int)
    requires
        0 <= i <= j <= s.len(),
    ensures
        byte_len(s.take(i)) + (j - i) <= byte_len(s.take(j)),
{
    assert(s.take(j) =~= s.take(i) + s.subrange(i, j));
    lemma_byte_len_concat(s.take(i), s.subrange(i, j));
    lemma_byte_len_bound(s.subrange(i, j));
}

/// The column after `k` characters falls between characters, and stands for `k`.
pub proof fn lemma_char_col(line: Seq<char>, k: int)
    requires
        0 <= k <= line.len(),
    ensures
        on_char(line, byte_len(line.take(k))),
        char_col(line, byte_len(line.take(k))) == k,
{
    let col = byte_len(line.take(k));
    assert(on_char(line, col));
    let j = char_col(line, col);
    if j < k {
        lemma_byte_len_mono(line, j, k);
    } else if k < j {
        lemma_byte_len_mono(line, k, j);
    }
}

/// A column between characters stands for a number of characters whose
/// bytes reach it.
pub proof fn lemma_on_char(line: Seq<char>, col: int)
    requires
        on_char(line, col),
    ensures
        0 <= char_col(line, col) <= line.len(),
        byte_len(line.take(char_col(line, col))) == col,
        char_col(line, col) <= col,
{
    let k = char_col(line, col);
    lemma_byte_len_bound(line.take(k));
}

/// Columns between characters are ordered as the characters before them.
pub proof fn lemma_char_col_order(line: Seq<char>, a: int, b: int)
    requires
        on_char(line, a),
        on_char(line, b),
    ensures
        a <= b <==> char_col(line, a) <= char_col(line, b),
        a == b <==> char_col(line, a) == char_col(line, b),
{
    let i = char_col(line, a);
    let j = char_col(line, b);
    if i < j {
        lemma_byte_len_mono(line, i, j);
    } else if j < i {
        lemma_byte_len_mono(line, j, i);
    }
}

/// The end of a line is between characters, and stands for its length.
pub proof fn lemma_line_end(line: Seq<char>)
    ensures
        on_char(line, byte_len(line)),
        char_col(line, byte_len(line)) == line.len(),
        on_char(line, 0),
        char_col(line, 0) == 0,
{
    assert(line.take(line.len() as int) =~= line);
    lemma_char_col(line, line.len() as int);
    assert(line.take(0) =~= Seq::<char>::empty());
    lemma_char_col(line, 0);
}

/// The number of bytes of `c` in UTF-8 (`char::len_utf8`).
pub fn char_width(c: char) -> (w: usize)
    ensures
        w == byte_len(seq![c]),
{
    proof {
        lemma_byte_len_char(c);
        assert(seq![c].drop_first() =~= Seq::<char>::empty());
        vstd::utf8::char_is_scalar(c);
    }
    let u = c as u32;
    proof {
        assert(seq![c][0] == c);
        assert(encode_utf8(Seq::<char>::empty()) =~= Seq::<u8>::empty());
        assert(encode_utf8(seq![c]) == encode_scalar(seq![c][0] as u32) + encode_utf8(
            seq![c].drop_first(),
        ));
        assert(encode_utf8(seq![c]) =~= encode_scalar(u));
        assert(encode_scalar(u).len() == (if u < 0x80 {
            1int
        } else if u < 0x800 {
            2int
        } else if u < 0x10000 {
            3int
        } else {
            4int
        }));
    }
    if u < 0x80 {
        1
    } else if u < 0x800 {
        2
    } else if u < 0x10000 {
        3
    } else {
        4
    }
}

/// The number of characters of `chars` before byte column `col`, when the
/// column falls between characters.
pub fn char_col_of(chars: &Vec<char>, col: usize) -> (res: Option<usize>)
    ensures
        res is Some <==> on_char(chars@, col as int),
        res is Some ==> res->0 == char_col(chars@, col as int),
{
    let ghost s = chars@;
    let mut b: usize = 0;
    let mut k: usize = 0;
    assert(s.take(0) =~= Seq::<char>::empty());
    while k < chars.len() && b < col
        invariant
            s == chars@,
            k <= s.len(),
            b == byte_len(s.take(k as int)),
            forall|j: int| 0 <= j < k ==> #[trigger] byte_len(s.take(j)) < col,
        decreases s.len() - k,
    {
        let w = char_width(chars[k]);
        proof {
            lemma_byte_len_step(s, k as int);
        }
        if w > col - b {
            proof {
                assert forall|j: int| 0 <= j <= s.len() implies #[trigger] byte_len(s.take(j))
                    != col by {
                    if j > k {
                        lemma_byte_len_mono(s, k + 1, j);
                    }
                }
            }
            return None;
        }
        b = b + w;
        k = k + 1;
    }
    if b == col {
        proof {
            lemma_char_col(s, k as int);
        }
        Some(k)
    } else {
        proof {
            assert forall|j: int| 0 <= j <= s.len() implies #[trigger] byte_len(s.take(j)) != col by {
                if j > k {
                    lemma_byte_len_mono(s, k as int, j);
                }
            }
        }
        None
    }
}

/// The byte column after the first `k` characters of `chars`.
pub fn byte_col_of(chars: &Vec<char>, k: usize) -> (b: usize)
    requires
        k <= chars@.len(),
        byte_len(chars@) <= usize::MAX,
    ensures
        b == byte_len(chars@.take(k as int)),
{
    let ghost s = chars@;
    let mut b: usize = 0;
    let mut i: usize = 0;
    assert(s.take(0) =~= Seq::<char>::empty());
    assert(s.take(s.len() as int) =~= s);
    while i < k
        invariant
            s == chars@,
            i <= k <= s.len(),
            b == byte_len(s.take(i as int)),
            byte_len(s) <= usize::MAX,
            s.take(s.len() as int) == s,
        decreases k - i,
    {
        proof {
            lemma_byte_len_step(s, i as int);
            lemma_byte_len_mono(s, i + 1, s.len() as int);
        }
        let w = char_width(chars[i]);
        b = b + w;
        i = i + 1;
    }
    b
}

} // verus!
