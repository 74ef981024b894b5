//! What the word motions do, stated directly over the characters of the
//! text: runs of alphanumeric characters and runs of other signs, with
//! blanks between them.
use vstd::prelude::*;

use crate::motion::{
    alphanumeric, back_scan, blank, class, ends_run, fwd_scan, lemma_fwd_scan_runs,
    lemma_non_blank_first, lemma_run_end_first, next_word_offset, non_blank_from, prev_word_offset,
    run_end, run_stops, word_end_offset,
};

verus! {

/// No blank of `t` counts as alphanumeric (true of `char::is_alphanumeric`
/// on space, tab and line break).
pub open spec fn blanks_apart(t: Seq<char>) -> bool {
    forall|k: int| 0 <= k < t.len() && blank(#[trigger] t[k]) ==> !alphanumeric(t[k])
}

/// `c` is of the same kind as the non-blank `a`: not a blank, and
/// alphanumeric exactly when `a` is.
pub open spec fn same_kind(a: char, c: char) -> bool {
    !blank(c) && alphanumeric(c) == alphanumeric(a)
}

/// A run of the class of the non-blank `a` ends at `c` exactly when `c` is
/// not of the kind of `a`.
proof fn lemma_stops_kind(a: char, c: char)
    requires
        !blank(a),
        blank(c) ==> !alphanumeric(c),
    ensures
        class(a) != 1,
        run_stops(class(a), c) <==> !same_kind(a, c),
{
}

/// Scanning back through a run that is not of blanks stops just after the
/// first character before it that ends the run, or at 0.
proof fn lemma_back_scan_run(t: Seq<char>, j: int, s: int)
    requires
        s == 0 || s == 2,
        -1 <= j < t.len(),
    ensures
        0 <= back_scan(t, j, s) <= j + 1,
        forall|k: int| back_scan(t, j, s) <= k <= j ==> !run_stops(s, #[trigger] t[k]),
        back_scan(t, j, s) == 0 || run_stops(s, t[back_scan(t, j, s) - 1]),
    decreases j + 1,
{
    if j >= 0 && !ends_run(s, t[j]) {
        lemma_back_scan_run(t, j - 1, s);
    }
}

/// Scanning back through blanks: -1 when only blanks are left, else the
/// last character that is not a blank, from which the scan goes on.
proof fn lemma_back_scan_blanks(t: Seq<char>, j: int) -> (q: int)
    requires
        -1 <= j < t.len(),
    ensures
        -1 <= q <= j,
        q == -1 ==> back_scan(t, j, 1) == 0 && forall|k: int| 0 <= k <= j ==> blank(#[trigger] t[k]),
        q >= 0 ==> !blank(t[q]) && back_scan(t, j, 1) == back_scan(t, q - 1, class(t[q])),
        forall|k: int| q < k <= j ==> blank(#[trigger] t[k]),
    decreases j + 1,
{
    if j < 0 {
        -1
    } else if blank(t[j]) {
        lemma_back_scan_blanks(t, j - 1)
    } else {
        j
    }
}

/// `b` goes back to the start of the run (of alphanumerics, or of other
/// signs) that holds the last character before offset `i` that is not a
/// blank: every character from there to it is of its kind, and the one
/// before is a blank or of the other kind. With only blanks before `i`, it
/// goes to 0.
pub proof fn law_prev_word(t: Seq<char>, i: int)
    requires
        0 < i <= t.len(),
        blanks_apart(t),
    ensures
        0 <= prev_word_offset(t, i) < i,
        (forall|k: int| 0 <= k < i ==> blank(#[trigger] t[k])) ==> prev_word_offset(t, i) == 0,
        (exists|k: int| 0 <= k < i && !blank(#[trigger] t[k])) ==> exists|q: int|
            #![trigger t[q]]
            {
                let p = prev_word_offset(t, i);
                &&& p <= q < i
                &&& !blank(t[q])
                &&& forall|k: int| q < k < i ==> blank(#[trigger] t[k])
                &&& forall|k: int| p <= k <= q ==> same_kind(t[q], #[trigger] t[k])
                &&& (p == 0 || !same_kind(t[q], t[p - 1]))
            },
{
    let p = prev_word_offset(t, i);
    let last = t[i - 1];
    if blank(last) && !alphanumeric(last) {
        let q = lemma_back_scan_blanks(t, i - 2);
        assert(class(last) == 1);
        if q >= 0 {
            let a = t[q];
            lemma_stops_kind(a, a);
            lemma_back_scan_run(t, q - 1, class(a));
            assert forall|k: int| p <= k <= q implies same_kind(a, #[trigger] t[k]) by {
                lemma_stops_kind(a, t[k]);
            }
            if p > 0 {
                lemma_stops_kind(a, t[p - 1]);
            }
            assert(forall|k: int| q < k < i ==> blank(#[trigger] t[k]));
        } else {
            assert(forall|k: int| 0 <= k < i ==> blank(#[trigger] t[k]));
        }
    } else {
        assert(!blank(last));
        let q = i - 1;
        lemma_stops_kind(last, last);
        lemma_back_scan_run(t, i - 2, class(last));
        assert forall|k: int| p <= k <= q implies same_kind(last, #[trigger] t[k]) by {
            lemma_stops_kind(last, t[k]);
        }
        if p > 0 {
            lemma_stops_kind(last, t[p - 1]);
        }
        assert(!blank(t[q]));
    }
}

/// `e` goes to the last character of the first run (of alphanumerics, or of
/// other signs) that starts after offset `i`, past any blanks: every
/// character from the run's start to it is of the run's kind, and the next
/// one is a blank or of the other kind. It stays at `i` only when no such
/// run ends before the text does.
pub proof fn law_word_end(t: Seq<char>, i: int)
    requires
        0 <= i,
        i + 1 < t.len(),
        blanks_apart(t),
    ensures
        word_end_offset(t, i) != i ==> {
            let r = word_end_offset(t, i);
            &&& i < r
            &&& r + 1 < t.len()
            &&& exists|s: int|
                #![trigger t[s]]
                {
                    &&& i < s <= r
                    &&& forall|k: int| i < k < s ==> blank(#[trigger] t[k])
                    &&& forall|k: int| s <= k <= r ==> same_kind(t[s], #[trigger] t[k])
                    &&& !same_kind(t[s], t[r + 1])
                }
        },
        word_end_offset(t, i) == i ==> {
            ||| forall|k: int| i < k < t.len() ==> blank(#[trigger] t[k])
            ||| exists|s: int|
                #![trigger t[s]]
                {
                    &&& i < s < t.len()
                    &&& forall|k: int| i < k < s ==> blank(#[trigger] t[k])
                    &&& forall|k: int| s <= k < t.len() ==> same_kind(t[s], #[trigger] t[k])
                }
        },
{
    let first = t[i + 1];
    let st = class(first);
    lemma_fwd_scan_runs(t, i + 1, st);
    let s: int = if st == 1 {
        lemma_non_blank_first(t, i + 1);
        non_blank_from(t, i + 1)
    } else {
        i + 1
    };
    if s < 0 {
        assert(forall|k: int| i < k < t.len() ==> blank(#[trigger] t[k])) by {
            assert forall|k: int| i < k < t.len() implies blank(#[trigger] t[k]) by {
                assert(i + 1 <= k);
            }
        }
    } else {
        let a = t[s];
        assert(!blank(a));
        lemma_stops_kind(a, a);
        lemma_run_end_first(t, class(a), s + 1);
        if st != 1 {
            lemma_run_end_first(t, st, i + 1);
            assert(!run_stops(st, first));
            assert(run_end(t, st, i + 1) == run_end(t, class(a), s + 1));
        }
        let e = run_end(t, class(a), s + 1);
        assert forall|k: int| i < k < s implies blank(#[trigger] t[k]) by {}
        if e < 0 {
            assert forall|k: int| s <= k < t.len() implies same_kind(a, #[trigger] t[k]) by {
                lemma_stops_kind(a, t[k]);
            }
        } else {
            let r = e - 1;
            assert forall|k: int| s <= k <= r implies same_kind(a, #[trigger] t[k]) by {
                lemma_stops_kind(a, t[k]);
            }
            lemma_stops_kind(a, t[e]);
        }
    }
}

/// `w` goes from offset `i` past the rest of the run that holds it (of
/// alphanumerics, or of other signs), then past the blanks after it, to the
/// first character that is not a blank: the start of the next word. Where
/// only blanks follow the run it stops at the run's end; where the run goes
/// on to the end of the text it stays. From a blank, it goes to the first
/// character after it that is not a blank, and stays when there is none.
pub proof fn law_next_word(t: Seq<char>, i: int)
    requires
        0 <= i < t.len(),
        blanks_apart(t),
    ensures
        i <= next_word_offset(t, i) < t.len(),
        !blank(t[i]) && (forall|k: int| i <= k < t.len() ==> same_kind(t[i], #[trigger] t[k]))
            ==> next_word_offset(t, i) == i,
        !blank(t[i]) && (exists|k: int| i <= k < t.len() && !same_kind(t[i], #[trigger] t[k]))
            ==> exists|e: int|
            #![trigger t[e]]
            {
                let n = next_word_offset(t, i);
                &&& i < e <= n
                &&& forall|k: int| i <= k < e ==> same_kind(t[i], #[trigger] t[k])
                &&& !same_kind(t[i], t[e])
                &&& forall|k: int| e <= k < n ==> blank(#[trigger] t[k])
                &&& (!blank(t[n]) || (n == e && forall|k: int| e <= k < t.len() ==> blank(#[trigger] t[k])))
            },
        blank(t[i]) ==> {
            let n = next_word_offset(t, i);
            &&& forall|k: int| i <= k < n ==> blank(#[trigger] t[k])
            &&& (!blank(t[n]) || (n == i && forall|k: int| i <= k < t.len() ==> blank(#[trigger] t[k])))
        },
{
    let a = t[i];
    let st = class(a);
    lemma_run_end_first(t, st, i);
    let j0 = run_end(t, st, i);
    if !blank(a) {
        lemma_stops_kind(a, a);
        assert forall|k: int| i <= k < t.len() implies (run_stops(st, #[trigger] t[k]) <==> !same_kind(a, t[k])) by {
            lemma_stops_kind(a, t[k]);
        }
        if j0 >= 0 {
            let e = j0;
            lemma_non_blank_first(t, e);
            assert(!same_kind(a, t[e]));
            assert(forall|k: int| i <= k < e ==> same_kind(a, #[trigger] t[k]));
        } else {
            assert(forall|k: int| i <= k < t.len() ==> same_kind(a, #[trigger] t[k]));
        }
    } else {
        assert(st == 1);
        if j0 >= 0 {
            lemma_non_blank_first(t, j0);
        } else {
            lemma_non_blank_first(t, i);
        }
    }
}

} // verus!
