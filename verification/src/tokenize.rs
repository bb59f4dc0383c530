//! Segmentation and candidate-form generation.
//!
//! Spans here are character indices into the text; byte offsets are derived
//! from them only when a match is reported, so derived forms (leet, collapsed
//! repeats) never change a span.
use vstd::prelude::*;
use crate::text::{
    char_is_alphabetic, char_is_alphanumeric, char_is_whitespace, is_alphabetic, is_alphanumeric,
    chars_eq, is_ascii_digit, is_ascii_digit_spec, is_whitespace,
};

verus! {

/// The character class a run is made of: alphanumeric characters, or
/// anything but whitespace.
pub open spec fn in_class(c: char, alnum: bool) -> bool {
    if alnum {
        char_is_alphanumeric(c)
    } else {
        !char_is_whitespace(c)
    }
}

/// Maximal runs of characters of one class, as half-open index intervals,
/// left to right.
pub open spec fn runs(t: Seq<char>, alnum: bool) -> Seq<(int, int)>
    decreases t.len(),
{
    if t.len() == 0 {
        seq![]
    } else {
        let prev = runs(t.drop_last(), alnum);
        let n = t.len() - 1;
        if !in_class(t[n], alnum) {
            prev
        } else if n > 0 && in_class(t[n - 1], alnum) {
            prev.update(prev.len() - 1, (prev.last().0, n + 1))
        } else {
            prev.push((n, n + 1))
        }
    }
}

/// Every run lies inside `t`, is non-empty, and runs come in order.
pub open spec fn runs_wf(r: Seq<(int, int)>, len: int) -> bool {
    &&& forall|k: int| 0 <= k < r.len() ==> 0 <= #[trigger] r[k].0 < r[k].1 <= len
    &&& forall|k: int| 0 <= k < r.len() - 1 ==> #[trigger] r[k].1 < r[k + 1].0
}

pub proof fn lemma_runs_wf(t: Seq<char>, alnum: bool)
    ensures
        runs_wf(runs(t, alnum), t.len() as int),
        runs(t, alnum).len() > 0 ==> runs(t, alnum).last().1 <= t.len(),
        t.len() > 0 && in_class(t.last(), alnum) ==> runs(t, alnum).len() > 0 && runs(t, alnum).last().1 == t.len(),
        t.len() > 0 && !in_class(t.last(), alnum) ==> runs(t, alnum).len() == 0 || runs(t, alnum).last().1 < t.len(),
    decreases t.len(),
{
    if t.len() > 0 {
        lemma_runs_wf(t.drop_last(), alnum);
    }
}

/// Index of the first alphanumeric character in `t[s..e]`, or `e`.
pub open spec fn first_alnum(t: Seq<char>, s: int, e: int) -> int
    decreases e - s,
{
    if s >= e {
        e
    } else if char_is_alphanumeric(t[s]) {
        s
    } else {
        first_alnum(t, s + 1, e)
    }
}

/// One past the last alphanumeric character in `t[s..e]`, or `s`.
pub open spec fn last_alnum_end(t: Seq<char>, s: int, e: int) -> int
    decreases e - s,
{
    if e <= s {
        s
    } else if char_is_alphanumeric(t[e - 1]) {
        e
    } else {
        last_alnum_end(t, s, e - 1)
    }
}

/// A whitespace-delimited piece of the input, plus its alphanumeric core.
///
/// The core is what a match reports by default, so that punctuation around a
/// word survives censoring.
#[derive(Debug, Clone, Copy, PartialEq, Eq)]
pub struct Segment {
    pub start: usize,
    pub end: usize,
    pub core_start: usize,
    pub core_end: usize,
}

/// The segment made of `t[s..e]` and its alphanumeric core.
pub open spec fn segment_of(t: Seq<char>, s: int, e: int) -> (int, int, int, int) {
    let cs = first_alnum(t, s, e);
    let ce = if cs == e { cs } else { last_alnum_end(t, s, e) };
    (s, e, cs, ce)
}

pub open spec fn segment_view(g: Segment) -> (int, int, int, int) {
    (g.start as int, g.end as int, g.core_start as int, g.core_end as int)
}

/// The whitespace-delimited segments of `t`.
pub open spec fn segments_spec(t: Seq<char>) -> Seq<(int, int, int, int)> {
    runs(t, false).map_values(|r: (int, int)| segment_of(t, r.0, r.1))
}

proof fn lemma_first_alnum_bounds(t: Seq<char>, s: int, e: int)
    requires
        s <= e,
    ensures
        s <= first_alnum(t, s, e) <= e,
        first_alnum(t, s, e) < e ==> char_is_alphanumeric(t[first_alnum(t, s, e)]),
        forall|k: int| s <= k < first_alnum(t, s, e) ==> !char_is_alphanumeric(#[trigger] t[k]),
    decreases e - s,
{
    if s < e && !char_is_alphanumeric(t[s]) {
        lemma_first_alnum_bounds(t, s + 1, e);
    }
}

proof fn lemma_last_alnum_bounds(t: Seq<char>, s: int, e: int)
    requires
        s <= e,
    ensures
        s <= last_alnum_end(t, s, e) <= e,
        forall|k: int| last_alnum_end(t, s, e) <= k < e ==> !char_is_alphanumeric(#[trigger] t[k]),
        last_alnum_end(t, s, e) > s ==> char_is_alphanumeric(t[last_alnum_end(t, s, e) - 1]),
    decreases e - s,
{
    if s < e && !char_is_alphanumeric(t[e - 1]) {
        lemma_last_alnum_bounds(t, s, e - 1);
    }
}

/// The segment `t[start..end]` with its alphanumeric core.
fn with_core(t: &[char], start: usize, end: usize) -> (g: Segment)
    requires
        start <= end <= t@.len(),
    ensures
        segment_view(g) == segment_of(t@, start as int, end as int),
        start <= g.core_start <= g.core_end <= end,
{
    let mut cs = start;
    while cs < end && !is_alphanumeric(t[cs])
        invariant
            start <= cs <= end <= t@.len(),
            first_alnum(t@, cs as int, end as int) == first_alnum(t@, start as int, end as int),
        decreases end - cs,
    {
        cs += 1;
    }
    let mut ce = cs;
    if cs < end {
        ce = end;
        while ce > start && !is_alphanumeric(t[ce - 1])
            invariant
                start <= ce <= end <= t@.len(),
                last_alnum_end(t@, start as int, ce as int) == last_alnum_end(t@, start as int, end as int),
            decreases ce,
        {
            ce -= 1;
        }
        proof {
            lemma_last_alnum_bounds(t@, start as int, end as int);
            lemma_first_alnum_bounds(t@, start as int, end as int);
        }
    }
    Segment { start, end, core_start: cs, core_end: ce }
}

/// Segments lie inside the text in order, are non-empty, and contain their
/// cores.
pub proof fn lemma_segments_wf(t: Seq<char>)
    ensures
        forall|k: int| 0 <= k < segments_spec(t).len() ==> {
            let g = #[trigger] segments_spec(t)[k];
            0 <= g.0 <= g.2 <= g.3 <= g.1 <= t.len() && g.0 < g.1
        },
        forall|k: int| 0 <= k < segments_spec(t).len() - 1 ==> #[trigger] segments_spec(t)[k].1 < segments_spec(t)[k + 1].0,
{
    lemma_runs_wf(t, false);
    let r = runs(t, false);
    assert forall|k: int| 0 <= k < segments_spec(t).len() implies {
        let g = #[trigger] segments_spec(t)[k];
        0 <= g.0 <= g.2 <= g.3 <= g.1 <= t.len() && g.0 < g.1
    } by {
        let (s, e) = r[k];
        lemma_first_alnum_bounds(t, s, e);
        lemma_last_alnum_bounds(t, s, e);
        let cs = first_alnum(t, s, e);
        if cs < e {
            assert(char_is_alphanumeric(t[cs]));
        }
    }
    assert forall|k: int| 0 <= k < segments_spec(t).len() - 1 implies #[trigger] segments_spec(t)[k].1 < segments_spec(t)[k + 1].0 by {
        assert(r[k].1 < r[k + 1].0);
    }
}

/// Earlier segments end before later ones start.
pub proof fn lemma_segments_ordered(t: Seq<char>, i: int, j: int)
    requires
        0 <= i < j < segments_spec(t).len(),
    ensures
        segments_spec(t)[i].1 < segments_spec(t)[j].0,
    decreases j - i,
{
    lemma_segments_wf(t);
    if j > i + 1 {
        lemma_segments_ordered(t, i, j - 1);
        assert(segments_spec(t)[j - 1].0 < segments_spec(t)[j - 1].1);
    }
}

/// Pieces lie inside the span in order and are non-empty.
pub proof fn lemma_subtokens_wf(t: Seq<char>, start: int, end: int)
    requires
        0 <= start <= end <= t.len(),
    ensures
        forall|k: int| 0 <= k < subtokens_spec(t, start, end).len() ==> start <= (#[trigger] subtokens_spec(t, start, end)[k]).0
            < subtokens_spec(t, start, end)[k].1 <= end,
        forall|k: int| 0 <= k < subtokens_spec(t, start, end).len() - 1 ==> #[trigger] subtokens_spec(t, start, end)[k].1
            < subtokens_spec(t, start, end)[k + 1].0,
{
    lemma_runs_wf(t.subrange(start, end), true);
}

/// Split on whitespace and trim each piece to its alphanumeric core.
pub fn segments(t: &[char]) -> (out: Vec<Segment>)
    ensures
        out@.len() == segments_spec(t@).len(),
        forall|k: int| 0 <= k < out@.len() ==> segment_view(#[trigger] out@[k]) == segments_spec(t@)[k],
{
    let mut out: Vec<Segment> = Vec::new();
    let mut start: usize = 0;
    let mut in_word = false;
    let mut i: usize = 0;
    while i < t.len()
        invariant
            i <= t@.len(),
            start <= i,
            in_word ==> start < i && runs(t@.take(i as int), false).len() == out@.len() + 1
                && runs(t@.take(i as int), false).last() == (start as int, i as int),
            !in_word ==> runs(t@.take(i as int), false).len() == out@.len(),
            forall|k: int| 0 <= k < out@.len() ==> #[trigger] runs(t@.take(i as int), false)[k].1 <= i
                && segment_view(out@[k]) == segment_of(
                t@,
                runs(t@.take(i as int), false)[k].0,
                runs(t@.take(i as int), false)[k].1,
            ),
            in_word == (i > 0 && !char_is_whitespace(t@[i - 1])),
        decreases t@.len() - i,
    {
        let c = t[i];
        let ws = is_whitespace(c);
        let ghost prev = runs(t@.take(i as int), false);
        proof {
            assert(t@.take(i + 1).drop_last() =~= t@.take(i as int));
            lemma_runs_wf(t@.take(i as int), false);
        }
        if ws {
            if in_word {
                let g = with_core(t, start, i);
                out.push(g);
                in_word = false;
            }
        } else if !in_word {
            start = i;
            in_word = true;
        }
        i += 1;
        proof {
            let cur = runs(t@.take(i as int), false);
            assert(t@.take(i as int)[i - 1] == c);
            if i >= 2 {
                assert(t@.take(i as int)[i - 2] == t@[i - 2]);
            }
            assert forall|k: int| 0 <= k < out@.len() implies #[trigger] cur[k].1 <= i
                && segment_view(out@[k]) == segment_of(t@, cur[k].0, cur[k].1) by {
                assert(k < prev.len());
                if k < prev.len() - 1 || !in_word {
                    assert(cur[k] == prev[k]);
                }
            }
        }
    }
    let ghost fin = runs(t@.take(i as int), false);
    if in_word {
        let g = with_core(t, start, t.len());
        out.push(g);
    }
    proof {
        assert(t@.take(t@.len() as int) =~= t@);
        assert forall|k: int| 0 <= k < out@.len() implies segment_view(#[trigger] out@[k])
            == segments_spec(t@)[k] by {
        }
    }
    out
}


/// Pieces of `t[start..end]` separated by runs of non-alphanumeric
/// characters, as absolute intervals; empty when there are fewer than two.
pub open spec fn subtokens_spec(t: Seq<char>, start: int, end: int) -> Seq<(int, int)> {
    let r = runs(t.subrange(start, end), true);
    if r.len() < 2 {
        seq![]
    } else {
        r.map_values(|p: (int, int)| (p.0 + start, p.1 + start))
    }
}

/// Pieces of `t[start..end]` separated by runs of non-alphanumeric chars.
///
/// A single piece is the glued form again, so it yields nothing.
pub fn subtokens(t: &[char], start: usize, end: usize) -> (out: Vec<(usize, usize)>)
    requires
        start <= end <= t@.len(),
    ensures
        out@.len() == subtokens_spec(t@, start as int, end as int).len(),
        forall|k: int| 0 <= k < out@.len() ==> (#[trigger] out@[k].0 as int, out@[k].1 as int)
            == subtokens_spec(t@, start as int, end as int)[k],
{
    let ghost sub = t@.subrange(start as int, end as int);
    let mut out: Vec<(usize, usize)> = Vec::new();
    let mut piece: usize = start;
    let mut in_piece = false;
    let mut i: usize = start;
    while i < end
        invariant
            start <= i <= end <= t@.len(),
            sub == t@.subrange(start as int, end as int),
            start <= piece <= i,
            in_piece ==> piece < i && runs(sub.take(i - start), true).len() == out@.len() + 1
                && runs(sub.take(i - start), true).last() == (piece - start, i - start),
            !in_piece ==> runs(sub.take(i - start), true).len() == out@.len(),
            forall|k: int| 0 <= k < out@.len() ==> (#[trigger] out@[k].0 as int, out@[k].1 as int) == (
            runs(sub.take(i - start), true)[k].0 + start,
            runs(sub.take(i - start), true)[k].1 + start,
            ),
            in_piece == (i > start && char_is_alphanumeric(t@[i - 1])),
        decreases end - i,
    {
        let c = t[i];
        let a = is_alphanumeric(c);
        let ghost prev = runs(sub.take(i - start), true);
        proof {
            assert(sub.take(i - start + 1).drop_last() =~= sub.take(i - start));
            assert(sub.take(i - start + 1)[i - start] == c);
            if i - start >= 1 {
                assert(sub.take(i - start + 1)[i - start - 1] == t@[i - 1]);
            }
        }
        if a {
            if !in_piece {
                piece = i;
                in_piece = true;
            }
        } else if in_piece {
            out.push((piece, i));
            in_piece = false;
        }
        i += 1;
        proof {
            let cur = runs(sub.take(i - start), true);
            assert forall|k: int| 0 <= k < out@.len() implies (#[trigger] out@[k].0 as int, out@[k].1 as int) == (
            cur[k].0 + start, cur[k].1 + start) by {
                if k < prev.len() - 1 || !in_piece {
                    assert(cur[k] == prev[k]);
                }
            }
        }
    }
    if in_piece {
        out.push((piece, end));
    }
    proof {
        assert(sub.take(end - start) =~= sub);
    }
    if out.len() < 2 {
        out = Vec::new();
    }
    out
}

/// `4 -> a`, `3 -> e`, ... for the characters leetspeak substitutes.
pub open spec fn leet_char_spec(c: char) -> Option<char> {
    if c == '4' {
        Some('a')
    } else if c == '3' {
        Some('e')
    } else if c == '1' {
        Some('i')
    } else if c == '0' {
        Some('o')
    } else if c == '5' {
        Some('s')
    } else if c == '7' {
        Some('t')
    } else if c == '@' {
        Some('a')
    } else if c == '$' {
        Some('s')
    } else {
        None
    }
}

/// `4 -> a`, `3 -> e`, ... Applied to the raw token before normalization,
/// because `@` and `$` are dropped by the alphanumeric filter.
pub fn leet_char(c: char) -> (r: Option<char>)
    ensures
        r == leet_char_spec(c),
{
    if c == '4' {
        Some('a')
    } else if c == '3' {
        Some('e')
    } else if c == '1' {
        Some('i')
    } else if c == '0' {
        Some('o')
    } else if c == '5' {
        Some('s')
    } else if c == '7' {
        Some('t')
    } else if c == '@' {
        Some('a')
    } else if c == '$' {
        Some('s')
    } else {
        None
    }
}

/// Number of leading ASCII digits.
pub open spec fn leading_digits(r: Seq<char>) -> nat
    decreases r.len(),
{
    if r.len() > 0 && is_ascii_digit_spec(r[0]) {
        1 + leading_digits(r.drop_first())
    } else {
        0
    }
}

/// `123`, `1st`, `2nd`, `100k`: one or more digits followed by at most two
/// alphabetic characters, and nothing else.
pub open spec fn number_like(r: Seq<char>) -> bool {
    let k = leading_digits(r) as int;
    &&& k > 0
    &&& r.len() <= k + 2
    &&& forall|i: int| k <= i < r.len() ==> !is_ascii_digit_spec(#[trigger] r[i]) && char_is_alphabetic(r[i])
}

proof fn lemma_leading_digits(r: Seq<char>, i: int)
    requires
        0 <= i <= r.len(),
        forall|j: int| 0 <= j < i ==> is_ascii_digit_spec(#[trigger] r[j]),
    ensures
        leading_digits(r) == i + leading_digits(r.skip(i)),
    decreases i,
{
    if i > 0 {
        lemma_leading_digits(r.drop_first(), i - 1);
        assert(r.drop_first().skip(i - 1) =~= r.skip(i));
    } else {
        assert(r.skip(0) =~= r);
    }
}

/// Whether the token is number-like (`123`, `1st`, `100k`).
pub fn is_number_like(r: &[char]) -> (b: bool)
    ensures
        b == number_like(r@),
{
    let n = r.len();
    let mut digits: usize = 0;
    let mut letters: usize = 0;
    let mut i: usize = 0;
    while i < n
        invariant
            n == r@.len(),
            i <= n,
            letters == 0 ==> digits == i && forall|j: int| 0 <= j < i ==> is_ascii_digit_spec(#[trigger] r@[j]),
            letters > 0 ==> digits + letters == i && digits < i
                && (forall|j: int| 0 <= j < digits ==> is_ascii_digit_spec(#[trigger] r@[j]))
                && !is_ascii_digit_spec(r@[digits as int])
                && (forall|j: int| digits <= j < i ==> !is_ascii_digit_spec(#[trigger] r@[j]) && char_is_alphabetic(r@[j])),
        decreases n - i,
    {
        let c = r[i];
        if is_ascii_digit(c) {
            if letters > 0 {
                proof {
                    lemma_leading_digits(r@, digits as int);
                    assert(r@.skip(digits as int)[0] == r@[digits as int]);
                    assert(leading_digits(r@) == digits);
                }
                return false;
            }
            digits += 1;
        } else if is_alphabetic(c) {
            letters += 1;
        } else {
            proof {
                if letters == 0 {
                    lemma_leading_digits(r@, i as int);
                    assert(r@.skip(i as int)[0] == r@[i as int]);
                    assert(leading_digits(r@) == i);
                } else {
                    lemma_leading_digits(r@, digits as int);
                    assert(r@.skip(digits as int)[0] == r@[digits as int]);
                    assert(leading_digits(r@) == digits);
                }
            }
            return false;
        }
        i += 1;
    }
    proof {
        if letters == 0 {
            lemma_leading_digits(r@, n as int);
        } else {
            lemma_leading_digits(r@, digits as int);
            assert(r@.skip(digits as int)[0] == r@[digits as int]);
        }
    }
    digits > 0 && letters <= 2
}

/// Whether some character of `r` is alphabetic.
pub open spec fn has_alphabetic(r: Seq<char>) -> bool {
    exists|i: int| 0 <= i < r.len() && char_is_alphabetic(#[trigger] r[i])
}

/// `r` with every leet character read as its letter.
pub open spec fn leet_decode(r: Seq<char>) -> Seq<char> {
    r.map_values(|c: char| match leet_char_spec(c) {
        Some(m) => m,
        None => c,
    })
}

/// The leet-decoded form of a raw token, or `None` when the guards reject
/// it or nothing would change.
pub open spec fn leet_form_spec(r: Seq<char>) -> Option<Seq<char>> {
    if !has_alphabetic(r) || number_like(r) {
        None
    } else if exists|i: int| 0 <= i < r.len() && (#[trigger] leet_char_spec(r[i])).is_some() {
        Some(leet_decode(r))
    } else {
        None
    }
}

/// Leet-decoded form of a raw token, or `None` when the guards reject it.
///
/// A token with no letters is skipped (else `455` reads as `ass`), as are
/// number-like tokens; the literal form is still tested separately, so
/// dictionary entries that are themselves leet keep matching.
pub fn leet_form(r: &[char]) -> (out: Option<Vec<char>>)
    ensures
        out matches Some(v) ==> leet_form_spec(r@) == Some(v@),
        out is None ==> leet_form_spec(r@) is None,
{
    let n = r.len();
    let mut any_alpha = false;
    let mut i: usize = 0;
    while i < n
        invariant
            n == r@.len(),
            i <= n,
            !any_alpha ==> forall|j: int| 0 <= j < i ==> !char_is_alphabetic(#[trigger] r@[j]),
            any_alpha ==> has_alphabetic(r@),
        decreases n - i,
    {
        if is_alphabetic(r[i]) {
            any_alpha = true;
        }
        i += 1;
    }
    if !any_alpha {
        return None;
    }
    if is_number_like(r) {
        return None;
    }
    let mut changed = false;
    let mut decoded: Vec<char> = Vec::new();
    let mut i: usize = 0;
    while i < n
        invariant
            n == r@.len(),
            i <= n,
            decoded@ == leet_decode(r@).take(i as int),
            !changed ==> forall|j: int| 0 <= j < i ==> (#[trigger] leet_char_spec(r@[j])) is None,
            changed ==> exists|j: int| 0 <= j < r@.len() && (#[trigger] leet_char_spec(r@[j])).is_some(),
        decreases n - i,
    {
        let c = r[i];
        match leet_char(c) {
            Some(m) => {
                changed = true;
                decoded.push(m);
            },
            None => {
                decoded.push(c);
            },
        }
        i += 1;
        assert(decoded@ =~= leet_decode(r@).take(i as int));
    }
    assert(leet_decode(r@).take(n as int) =~= leet_decode(r@));
    if changed {
        Some(decoded)
    } else {
        None
    }
}


/// Length of the run of characters equal to `s[0]` that starts `s`.
pub open spec fn run_len(s: Seq<char>) -> nat
    decreases s.len(),
{
    if s.len() == 0 {
        0
    } else if s.len() > 1 && s[1] == s[0] {
        1 + run_len(s.drop_first())
    } else {
        1
    }
}

/// Every run of three or more identical characters cut down to `keep`;
/// shorter runs stay as they are.
pub open spec fn collapse(s: Seq<char>, keep: nat) -> Seq<char>
    decreases s.len(),
{
    if s.len() == 0 {
        seq![]
    } else {
        let r = run_len(s);
        let emit = if r >= 3 {
            if keep < r {
                keep
            } else {
                r
            }
        } else {
            r
        };
        proof {
            lemma_run_len_bounds(s);
        }
        Seq::new(emit, |_i: int| s[0]) + collapse(s.skip(r as int), keep)
    }
}

pub proof fn lemma_run_len_bounds(s: Seq<char>)
    requires
        s.len() > 0,
    ensures
        1 <= run_len(s) <= s.len(),
    decreases s.len(),
{
    if s.len() > 1 && s[1] == s[0] {
        lemma_run_len_bounds(s.drop_first());
    }
}

proof fn lemma_run_len(s: Seq<char>, r: int)
    requires
        0 < r <= s.len(),
        forall|k: int| 0 <= k < r ==> #[trigger] s[k] == s[0],
        r == s.len() || s[r] != s[0],
    ensures
        run_len(s) == r,
    decreases r,
{
    if r > 1 {
        lemma_run_len(s.drop_first(), r - 1);
    }
}

/// Collapse every run of three or more identical chars down to `keep`.
pub fn collapse_runs(chars: &[char], keep: usize) -> (out: Vec<char>)
    ensures
        out@ == collapse(chars@, keep as nat),
{
    let n = chars.len();
    let mut out: Vec<char> = Vec::new();
    let mut i: usize = 0;
    assert(chars@.skip(0) =~= chars@);
    while i < n
        invariant
            n == chars@.len(),
            i <= n,
            collapse(chars@, keep as nat) == out@ + collapse(chars@.skip(i as int), keep as nat),
        decreases n - i,
    {
        let c = chars[i];
        let mut run: usize = 1;
        while i + run < n && chars[i + run] == c
            invariant
                n == chars@.len(),
                i < n,
                1 <= run <= n - i,
                c == chars@[i as int],
                forall|k: int| i <= k < i + run ==> #[trigger] chars@[k] == c,
            decreases n - i - run,
        {
            run += 1;
        }
        let ghost rest = chars@.skip(i as int);
        proof {
            assert forall|k: int| 0 <= k < run implies #[trigger] rest[k] == rest[0] by {
                assert(rest[k] == chars@[i + k]);
            }
            lemma_run_len(rest, run as int);
            assert(rest.skip(run as int) =~= chars@.skip(i + run));
        }
        let emit = if run >= 3 {
            if keep < run {
                keep
            } else {
                run
            }
        } else {
            run
        };
        let mut j: usize = 0;
        let ghost before = out@;
        while j < emit
            invariant
                j <= emit,
                out@ == before + Seq::new(j as nat, |_k: int| c),
            decreases emit - j,
        {
            out.push(c);
            j += 1;
            assert(out@ =~= before + Seq::new(j as nat, |_k: int| c));
        }
        proof {
            assert(Seq::new(emit as nat, |_k: int| rest[0]) =~= Seq::new(emit as nat, |_k: int| c));
            assert(collapse(rest, keep as nat) == Seq::new(emit as nat, |_k: int| c) + collapse(
                chars@.skip(i + run),
                keep as nat,
            ));
            assert(out@ + collapse(chars@.skip(i + run), keep as nat) =~= before + collapse(rest, keep as nat));
        }
        i += run;
    }
    proof {
        assert(chars@.skip(n as int) =~= Seq::<char>::empty());
        assert(out@ + Seq::<char>::empty() =~= out@);
    }
    out
}

/// The extra forms that collapsing repeats can produce, in the order they
/// are tried, without duplicates and without `b` itself.
pub open spec fn collapse_forms_spec(b: Seq<char>) -> Seq<Seq<char>> {
    if b.len() == 0 {
        seq![]
    } else {
        let c1 = collapse(b, 1);
        let o1: Seq<Seq<char>> = if c1 != b {
            seq![c1]
        } else {
            seq![]
        };
        let c2 = collapse(b, 2);
        let o2 = if c2 != b && !o1.contains(c2) {
            o1.push(c2)
        } else {
            o1
        };
        if b.len() >= 3 && b[0] == b[1] && b[1] != b[2] && !o2.contains(b.skip(1)) {
            o2.push(b.skip(1))
        } else {
            o2
        }
    }
}

/// Whether `v` holds a vector equal to `x`.
fn contains_chars(v: &Vec<Vec<char>>, x: &[char]) -> (r: bool)
    ensures
        r == v@.map_values(|e: Vec<char>| e@).contains(x@),
{
    let mut i: usize = 0;
    while i < v.len()
        invariant
            i <= v@.len(),
            forall|k: int| 0 <= k < i ==> v@[k]@ != x@,
        decreases v@.len() - i,
    {
        if chars_eq(v[i].as_slice(), x) {
            assert(v@.map_values(|e: Vec<char>| e@)[i as int] == x@);
            return true;
        }
        i += 1;
    }
    proof {
        if v@.map_values(|e: Vec<char>| e@).contains(x@) {
            let m = v@.map_values(|e: Vec<char>| e@);
            let k = choose|k: int| 0 <= k < m.len() && #[trigger] m[k] == x@;
            assert(v@[k]@ == x@);
        }
    }
    false
}

/// Forms with runs of repeated characters collapsed.
///
/// Runs of exactly two are only touched at the start of the word: collapsing
/// every doubled letter would make `book`, `cook` and `assess` match.
pub fn collapse_forms(base: &[char]) -> (out: Vec<Vec<char>>)
    ensures
        out@.map_values(|e: Vec<char>| e@) == collapse_forms_spec(base@),
{
    let mut out: Vec<Vec<char>> = Vec::new();
    if base.len() == 0 {
        assert(out@.map_values(|e: Vec<char>| e@) =~= collapse_forms_spec(base@));
        return out;
    }
    let ghost b = base@;
    let c1 = collapse_runs(base, 1);
    if !chars_eq(c1.as_slice(), base) {
        out.push(c1);
    }
    let ghost o1 = out@.map_values(|e: Vec<char>| e@);
    assert(o1 =~= (if collapse(b, 1) != b { seq![collapse(b, 1)] } else { Seq::<Seq<char>>::empty() }));
    let c2 = collapse_runs(base, 2);
    if !chars_eq(c2.as_slice(), base) && !contains_chars(&out, c2.as_slice()) {
        out.push(c2);
        assert(out@.map_values(|e: Vec<char>| e@) =~= o1.push(c2@));
    }
    let ghost o2 = out@.map_values(|e: Vec<char>| e@);
    if base.len() >= 3 && base[0] == base[1] && base[1] != base[2] {
        let mut c3: Vec<char> = Vec::new();
        let mut i: usize = 1;
        while i < base.len()
            invariant
                1 <= i <= base@.len(),
                c3@ == base@.subrange(1, i as int),
            decreases base@.len() - i,
        {
            c3.push(base[i]);
            i += 1;
            assert(c3@ =~= base@.subrange(1, i as int));
        }
        assert(c3@ =~= base@.skip(1));
        if !contains_chars(&out, c3.as_slice()) {
            out.push(c3);
            assert(out@.map_values(|e: Vec<char>| e@) =~= o2.push(b.skip(1)));
        }
    }
    assert(out@.map_values(|e: Vec<char>| e@) =~= collapse_forms_spec(base@));
    out
}

/// The leetspeak table: `4` and `@` read as `a`, `3` as `e`, `1` as `i`, `0`
/// as `o`, `5` and `$` as `s`, `7` as `t`; every other character is read as
/// itself.
pub proof fn law_leet_table()
    ensures
        leet_char_spec('4') == Some('a'),
        leet_char_spec('3') == Some('e'),
        leet_char_spec('1') == Some('i'),
        leet_char_spec('0') == Some('o'),
        leet_char_spec('5') == Some('s'),
        leet_char_spec('7') == Some('t'),
        leet_char_spec('@') == Some('a'),
        leet_char_spec('$') == Some('s'),
        forall|c: char|
            c != '4' && c != '3' && c != '1' && c != '0' && c != '5' && c != '7' && c != '@' && c != '$' ==> #[trigger] leet_char_spec(
                c,
            ) is None,
{
}

} // verus!
