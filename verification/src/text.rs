//! The mathematical model of text: lines, line breaks, and the conversions
//! between a `String` and its characters.
use vstd::prelude::*;

verus! {

/// The line break that separates the lines of a document.
pub open spec fn is_break(c: char) -> bool {
    c == '\n'
}

/// `s` holds no line break.
pub open spec fn has_no_break(s: Seq<char>) -> bool {
    forall|i: int| 0 <= i < s.len() ==> s[i] != '\n'
}

/// No line of `lines` holds a line break.
pub open spec fn no_breaks(lines: Seq<Seq<char>>) -> bool {
    forall|i: int| 0 <= i < lines.len() ==> has_no_break(#[trigger] lines[i])
}

/// The characters of each `String` of `v`.
pub open spec fn views(v: Seq<String>) -> Seq<Seq<char>> {
    v.map_values(|s: String| s@)
}

/// The characters of `lines`, each line followed by a line break.
pub open spec fn full_text(lines: Seq<Seq<char>>) -> Seq<char>
    decreases lines.len(),
{
    if lines.len() == 0 {
        Seq::empty()
    } else {
        full_text(lines.drop_last()) + lines.last().push('\n')
    }
}

/// The text that `lines` stand for: the lines joined by line breaks.
pub open spec fn joined(lines: Seq<Seq<char>>) -> Seq<char> {
    if lines.len() == 0 {
        Seq::empty()
    } else {
        full_text(lines).drop_last()
    }
}

/// The offset in the text of the first character of line `row`.
pub open spec fn row_start(lines: Seq<Seq<char>>, row: int) -> int {
    full_text(lines.take(row)).len() as int
}

/// The lines of `s`, cut at each line break (as `str::split('\n')` does).
pub open spec fn split_lines(s: Seq<char>) -> Seq<Seq<char>>
    decreases s.len(),
{
    if s.len() == 0 {
        seq![Seq::empty()]
    } else {
        let p = split_lines(s.drop_last());
        if s.last() == '\n' {
            p.push(Seq::empty())
        } else {
            p.update(p.len() - 1, p.last().push(s.last()))
        }
    }
}

/// The text is the concatenation of the texts of the two halves.
pub proof fn lemma_full_text_concat(a: Seq<Seq<char>>, b: Seq<Seq<char>>)
    ensures
        full_text(a + b) == full_text(a) + full_text(b),
    decreases b.len(),
{
    if b.len() == 0 {
        assert(a + b =~= a);
        assert(full_text(a) + full_text(b) =~= full_text(a));
    } else {
        lemma_full_text_concat(a, b.drop_last());
        assert((a + b).drop_last() =~= a + b.drop_last());
        assert((a + b).last() == b.last());
    }
}

/// The text of a single line.
pub proof fn lemma_full_text_single(x: Seq<char>)
    ensures
        full_text(seq![x]) == x.push('\n'),
{
    assert(seq![x].drop_last() =~= Seq::<Seq<char>>::empty());
    assert(full_text(Seq::<Seq<char>>::empty()) == Seq::<char>::empty());
    assert(seq![x].last() == x);
    assert(Seq::<char>::empty() + x.push('\n') =~= x.push('\n'));
}

/// The text of `lines` seen around line `r`.
pub proof fn lemma_full_text_around(lines: Seq<Seq<char>>, r: int)
    requires
        0 <= r < lines.len(),
    ensures
        full_text(lines) == full_text(lines.take(r)) + lines[r].push('\n') + full_text(
            lines.skip(r + 1),
        ),
{
    let a = lines.take(r);
    let b = lines.skip(r + 1);
    assert(lines =~= a + seq![lines[r]] + b);
    lemma_full_text_concat(a + seq![lines[r]], b);
    lemma_full_text_concat(a, seq![lines[r]]);
    lemma_full_text_single(lines[r]);
}

/// A text has at least one character per line: its line break.
pub proof fn lemma_full_text_len(lines: Seq<Seq<char>>)
    ensures
        full_text(lines).len() >= lines.len(),
        lines.len() > 0 ==> full_text(lines).last() == '\n',
    decreases lines.len(),
{
    if lines.len() > 0 {
        lemma_full_text_len(lines.drop_last());
    }
}

/// Splitting always gives at least one line, none of which holds a break,
/// and joining them back gives the text again.
pub proof fn lemma_split_lines(s: Seq<char>)
    ensures
        split_lines(s).len() >= 1,
        no_breaks(split_lines(s)),
        full_text(split_lines(s)) == s.push('\n'),
    decreases s.len(),
{
    if s.len() == 0 {
        lemma_full_text_single(Seq::empty());
        assert(Seq::<char>::empty().push('\n') =~= s.push('\n'));
    } else {
        let t = s.drop_last();
        let p = split_lines(t);
        lemma_split_lines(t);
        assert(t.push(s.last()) =~= s);
        if s.last() == '\n' {
            lemma_full_text_concat(p, seq![Seq::<char>::empty()]);
            lemma_full_text_single(Seq::empty());
            assert(p.push(Seq::empty()) =~= p + seq![Seq::<char>::empty()]);
            assert(t.push('\n') + Seq::<char>::empty().push('\n') =~= s.push('\n'));
        } else {
            let q = p.update(p.len() - 1, p.last().push(s.last()));
            assert(q.drop_last() =~= p.drop_last());
            assert(full_text(p) == full_text(p.drop_last()) + p.last().push('\n'));
            let x = full_text(p.drop_last()) + p.last();
            assert(x.push('\n') =~= full_text(p.drop_last()) + p.last().push('\n'));
            assert(x =~= x.push('\n').drop_last());
            assert(t =~= t.push('\n').drop_last());
            assert(x == t);
            assert(full_text(q) =~= s.push('\n'));
            assert forall|i: int| 0 <= i < q.len() implies has_no_break(#[trigger] q[i]) by {
                if i == q.len() - 1 {
                    assert(has_no_break(p[i]));
                }
            }
        }
    }
}

/// A text without a break is a single line.
pub proof fn lemma_split_no_break(y: Seq<char>)
    requires
        has_no_break(y),
    ensures
        split_lines(y) == seq![y],
    decreases y.len(),
{
    if y.len() > 0 {
        assert(has_no_break(y.drop_last())) by {
            assert forall|i: int| 0 <= i < y.drop_last().len() implies y.drop_last()[i] != '\n' by {
                assert(y.drop_last()[i] == y[i]);
            }
        }
        assert(y.last() != '\n');
        lemma_split_no_break(y.drop_last());
        let p = split_lines(y.drop_last());
        assert(p.len() == 1 && p.last() == y.drop_last());
        assert(split_lines(y) == p.update(0, p.last().push(y.last())));
        assert(y.drop_last().push(y.last()) =~= y);
        assert(seq![y.drop_last()].update(0, y.drop_last().push(y.last())) =~= seq![y]);
    } else {
        assert(y =~= Seq::<char>::empty());
    }
}

/// Splitting at a break splits the two sides independently.
pub proof fn lemma_split_at_break(a: Seq<char>, b: Seq<char>)
    ensures
        split_lines(a + seq!['\n'] + b) == split_lines(a) + split_lines(b),
    decreases b.len(),
{
    let ab = a + seq!['\n'] + b;
    if b.len() == 0 {
        assert(ab.drop_last() =~= a);
        assert(ab.last() == '\n');
        assert(split_lines(a).push(Seq::empty()) =~= split_lines(a) + split_lines(b));
    } else {
        let b2 = b.drop_last();
        lemma_split_at_break(a, b2);
        lemma_split_lines(b2);
        lemma_split_lines(a);
        assert(ab.drop_last() =~= a + seq!['\n'] + b2);
        assert(ab.last() == b.last());
        let pa = split_lines(a);
        let pb = split_lines(b2);
        if b.last() == '\n' {
            assert((pa + pb).push(Seq::empty()) =~= pa + pb.push(Seq::empty()));
        } else {
            assert((pa + pb).update((pa + pb).len() - 1, (pa + pb).last().push(b.last())) =~= pa
                + pb.update(pb.len() - 1, pb.last().push(b.last())));
        }
    }
}

/// Lines without breaks keep having none when the last one is left out.
proof fn lemma_no_breaks_drop_last(lines: Seq<Seq<char>>)
    requires
        lines.len() >= 1,
        no_breaks(lines),
    ensures
        no_breaks(lines.drop_last()),
        has_no_break(lines.last()),
{
    assert(has_no_break(lines[lines.len() - 1]));
    assert forall|i: int| 0 <= i < lines.drop_last().len() implies has_no_break(
        #[trigger] lines.drop_last()[i],
    ) by {
        assert(lines.drop_last()[i] == lines[i]);
    }
}

/// The joined text of lines is that of all but the last, a break, and the last.
proof fn lemma_joined_last(lines: Seq<Seq<char>>)
    requires
        lines.len() >= 2,
    ensures
        joined(lines) == joined(lines.drop_last()) + seq!['\n'] + lines.last(),
{
    let init = lines.drop_last();
    lemma_full_text_len(init);
    let t = joined(init);
    assert(full_text(init) =~= t.push('\n'));
    assert(joined(lines) =~= t + seq!['\n'] + lines.last());
}

/// Lines without breaks are recovered by splitting their joined text.
pub proof fn lemma_split_joined(lines: Seq<Seq<char>>)
    requires
        lines.len() >= 1,
        no_breaks(lines),
    ensures
        split_lines(joined(lines)) == lines,
    decreases lines.len(),
{
    let init = lines.drop_last();
    let y = lines.last();
    lemma_no_breaks_drop_last(lines);
    lemma_split_no_break(y);
    if lines.len() == 1 {
        lemma_full_text_single(y);
        assert(lines =~= seq![y]);
        assert(y.push('\n').drop_last() =~= y);
    } else {
        lemma_split_joined(init);
        lemma_joined_last(lines);
        lemma_split_at_break(joined(init), y);
        assert(init + seq![y] =~= lines);
    }
}

/// Lines that join to the same text, and hold no break, are the same lines.
pub proof fn lemma_joined_injective(a: Seq<Seq<char>>, b: Seq<Seq<char>>)
    requires
        a.len() >= 1,
        b.len() >= 1,
        no_breaks(a),
        no_breaks(b),
        joined(a) == joined(b),
    ensures
        a == b,
{
    lemma_split_joined(a);
    lemma_split_joined(b);
}

/// The offset of the start of a line only depends on the lines before it.
pub proof fn lemma_row_start_prefix(a: Seq<Seq<char>>, b: Seq<Seq<char>>, r: int)
    requires
        0 <= r <= a.len(),
    ensures
        row_start(a + b, r) == row_start(a, r),
{
    assert((a + b).take(r) =~= a.take(r));
}

/// Appending lines after a prefix moves the line starts by the prefix's text.
pub proof fn lemma_row_start_shift(a: Seq<Seq<char>>, b: Seq<Seq<char>>, r: int)
    requires
        0 <= r <= b.len(),
    ensures
        row_start(a + b, a.len() + r) == full_text(a).len() + row_start(b, r),
{
    assert((a + b).take(a.len() + r) =~= a + b.take(r));
    lemma_full_text_concat(a, b.take(r));
}

/// Each line starts one character after the previous one ends.
pub proof fn lemma_row_start_next(lines: Seq<Seq<char>>, r: int)
    requires
        0 <= r < lines.len(),
    ensures
        row_start(lines, r + 1) == row_start(lines, r) + lines[r].len() + 1,
{
    assert(lines.take(r + 1).drop_last() =~= lines.take(r));
}

/// A line ends before the text does.
pub proof fn lemma_row_end_in_text(lines: Seq<Seq<char>>, r: int)
    requires
        0 <= r < lines.len(),
    ensures
        row_start(lines, r) + lines[r].len() < full_text(lines).len(),
        full_text(lines)[row_start(lines, r) + lines[r].len()] == '\n',
        forall|c: int|
            0 <= c < lines[r].len() ==> full_text(lines)[row_start(lines, r) + c] == lines[r][c],
{
    lemma_full_text_around(lines, r);
}

/// The characters of a `String`.
pub fn line_chars(s: &String) -> (res: Vec<char>)
    ensures
        res@ == s@,
{
    str_chars(s.as_str())
}

/// The characters of a `str`.
pub fn str_chars(s: &str) -> (res: Vec<char>)
    ensures
        res@ == s@,
{
    let mut res: Vec<char> = Vec::new();
    for c in it: s.chars()
        invariant
            res@ == it.seq().take(it.index() as int),
    {
        res.push(c);
    }
    res
}

/// Appends one character to a `String` (`String::push`).
#[verifier::external_body]
pub(crate) fn push_char(s: &mut String, c: char)
    ensures
        final(s)@ == old(s)@.push(c),
{
    s.push(c);
}

/// Appends the characters `v[lo..hi]` to `s`.
pub fn push_chars(s: &mut String, v: &Vec<char>, lo: usize, hi: usize)
    requires
        lo <= hi <= v.len(),
    ensures
        final(s)@ == old(s)@ + v@.subrange(lo as int, hi as int),
{
    let ghost start = s@;
    for i in lo..hi
        invariant
            s@ == start + v@.subrange(lo as int, i as int),
            hi <= v.len(),
    {
        push_char(s, v[i]);
        assert(start + v@.subrange(lo as int, i + 1) =~= (start + v@.subrange(
            lo as int,
            i as int,
        )).push(v@[i as int]));
    }
}

/// A `String` made of the characters `v[lo..hi]`.
pub fn string_of(v: &Vec<char>, lo: usize, hi: usize) -> (res: String)
    requires
        lo <= hi <= v.len(),
    ensures
        res@ == v@.subrange(lo as int, hi as int),
{
    let mut res = String::new();
    push_chars(&mut res, v, lo, hi);
    assert(Seq::<char>::empty() + v@.subrange(lo as int, hi as int) =~= v@.subrange(
        lo as int,
        hi as int,
    ));
    res
}

/// Appends the characters of `t` to `s`.
pub fn push_text(s: &mut String, t: &str)
    ensures
        final(s)@ == old(s)@ + t@,
{
    let v = str_chars(t);
    push_chars(s, &v, 0, v.len());
    assert(v@.subrange(0, v@.len() as int) =~= v@);
}

/// The lines of `s`, cut at each line break.
pub fn split_text(s: &str) -> (res: Vec<String>)
    ensures
        views(res@) == split_lines(s@),
{
    let chars = str_chars(s);
    let mut res: Vec<String> = Vec::new();
    let mut cur_start: usize = 0;
    let mut i: usize = 0;
    assert(chars@.take(0) =~= Seq::<char>::empty());
    assert(views(res@).push(chars@.subrange(0, 0)) =~= seq![Seq::<char>::empty()]);
    while i < chars.len()
        invariant
            chars@ == s@,
            cur_start <= i <= chars.len(),
            views(res@).push(chars@.subrange(cur_start as int, i as int)) == split_lines(
                chars@.take(i as int),
            ),
        decreases chars.len() - i,
    {
        let ghost before = views(res@);
        assert(chars@.take(i + 1).drop_last() =~= chars@.take(i as int));
        if chars[i] == '\n' {
            let line = string_of(&chars, cur_start, i);
            res.push(line);
            cur_start = i + 1;
            assert(views(res@) =~= before.push(line@));
            assert(chars@.subrange(cur_start as int, i + 1) =~= Seq::<char>::empty());
        } else {
            assert(chars@.subrange(cur_start as int, i + 1) =~= chars@.subrange(
                cur_start as int,
                i as int,
            ).push(chars[i as int]));
            assert(views(res@).push(chars@.subrange(cur_start as int, i + 1)) =~= before.push(
                chars@.subrange(cur_start as int, i as int),
            ).update(before.len() as int, chars@.subrange(cur_start as int, i + 1)));
        }
        i = i + 1;
    }
    let last = string_of(&chars, cur_start, i);
    let ghost before = views(res@);
    res.push(last);
    assert(views(res@) =~= before.push(last@));
    assert(chars@.take(i as int) =~= s@);
    res
}

/// The character of the decimal digit `d`.
pub open spec fn digit_char(d: int) -> char {
    (d + 48) as char
}

/// The decimal digits of `n`, most significant first, without leading zeros.
pub open spec fn decimal(n: nat) -> Seq<char>
    decreases n,
{
    if n < 10 {
        seq![digit_char(n as int)]
    } else {
        decimal(n / 10).push(digit_char((n % 10) as int))
    }
}

/// Appends the decimal digits of `n` to `s`.
pub fn push_decimal(s: &mut String, n: usize)
    ensures
        final(s)@ == old(s)@ + decimal(n as nat),
    decreases n,
{
    if n >= 10 {
        push_decimal(s, n / 10);
    }
    let d = (n % 10) as u8;
    let c = (d + 48) as char;
    push_char(s, c);
    proof {
        assert(c == digit_char((n % 10) as int));
        if n < 10 {
            assert(old(s)@ + decimal(n as nat) =~= old(s)@.push(c));
        } else {
            assert(old(s)@ + decimal(n as nat) =~= (old(s)@ + decimal((n / 10) as nat)).push(c));
        }
    }
}

/// The number that the decimal digits `s` spell, most significant first.
pub open spec fn digits_value(s: Seq<char>) -> int
    decreases s.len(),
{
    if s.len() == 0 {
        0
    } else {
        digits_value(s.drop_last()) * 10 + (s.last() as int - '0' as int)
    }
}

/// The digits of `n` are decimal digits, they spell `n`, and only `0` itself
/// starts with a zero.
pub proof fn law_decimal(n: nat)
    ensures
        decimal(n).len() > 0,
        forall|k: int| 0 <= k < decimal(n).len() ==> '0' <= #[trigger] decimal(n)[k] <= '9',
        digits_value(decimal(n)) == n,
        decimal(n)[0] == '0' ==> n == 0,
    decreases n,
{
    if n >= 10 {
        law_decimal(n / 10);
        let d = decimal(n);
        assert(d.drop_last() =~= decimal(n / 10));
        assert(d[0] == decimal(n / 10)[0]);
        assert((n / 10) * 10 + n % 10 == n);
    } else {
        assert(digits_value(decimal(n).drop_last()) == 0) by {
            assert(decimal(n).drop_last() =~= Seq::<char>::empty());
        }
    }
}

} // verus!
