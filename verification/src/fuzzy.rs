//! Fuzzy matching: Jaro-Winkler similarity in exact rational arithmetic.
//!
//! The similarity of two strings is computed from integers only: the
//! greedy match count `m`, the transposition count `t`, the lengths and the
//! common prefix. Scores are kept as fractions, so comparisons against a
//! threshold and between candidates are exact.
use vstd::prelude::*;
use crate::options::Threshold;
use crate::dict::Dictionary;
use crate::text::to_chars;
use crate::bignum::{big_lt, big_sum_prods, prod, sum_prods, terms_view};

verus! {

/// A Jaro-Winkler similarity, kept as the counts it is computed from so that
/// strings of any length have an exact value: see [`Score::frac`].
#[derive(Debug, Clone, Copy, PartialEq, Eq)]
pub struct Score {
    /// Characters matched within the window.
    pub matches: u64,
    /// Half the matched characters that are out of order.
    pub transpositions: u64,
    /// Length of the first string.
    pub len_a: u64,
    /// Length of the second string.
    pub len_b: u64,
    /// Common prefix, counted up to four characters.
    pub prefix: u64,
}

/// Half-width of the window in which a character may match.
pub open spec fn search_range(a_len: int, b_len: int) -> int {
    let m = if a_len > b_len { a_len } else { b_len };
    if m / 2 >= 1 { m / 2 - 1 } else { 0 }
}

/// First unflagged `j` in `[j, hi)` with `b[j] == c`.
pub open spec fn first_free(c: char, b: Seq<char>, bf: Seq<bool>, j: int, hi: int) -> Option<int>
    decreases hi - j,
{
    if j >= hi {
        None
    } else if b[j] == c && !bf[j] {
        Some(j)
    } else {
        first_free(c, b, bf, j + 1, hi)
    }
}

/// Greedy matching of `a[..i]` against `b`: the flags of matched positions
/// in both, and the number of matches.
pub open spec fn greedy(a: Seq<char>, b: Seq<char>, i: int) -> (Seq<bool>, Seq<bool>, nat)
    decreases i,
{
    if i <= 0 {
        (Seq::new(a.len(), |_k: int| false), Seq::new(b.len(), |_k: int| false), 0)
    } else {
        let (af, bf, m) = greedy(a, b, i - 1);
        let r = search_range(a.len() as int, b.len() as int);
        let lo = if i - 1 > r { i - 1 - r } else { 0 };
        let hi = if b.len() < i + r { b.len() as int } else { i + r };
        match first_free(a[i - 1], b, bf, lo, hi) {
            Some(j) => (af.update(i - 1, true), bf.update(j, true), m + 1),
            None => (af, bf, m),
        }
    }
}

/// The characters of `s` whose flag is set, in order.
pub open spec fn flagged(s: Seq<char>, f: Seq<bool>) -> Seq<char>
    decreases s.len(),
{
    if s.len() == 0 || f.len() < s.len() {
        seq![]
    } else if f[s.len() - 1] {
        flagged(s.drop_last(), f).push(s.last())
    } else {
        flagged(s.drop_last(), f)
    }
}

/// Positions below both lengths where `x` and `y` differ.
pub open spec fn mismatches(x: Seq<char>, y: Seq<char>) -> nat
    decreases x.len(),
{
    if x.len() == 0 || y.len() == 0 {
        0
    } else {
        mismatches(x.drop_first(), y.drop_first()) + if x[0] != y[0] {
            1nat
        } else {
            0nat
        }
    }
}

/// Matches and transpositions of the Jaro similarity.
pub open spec fn jaro_counts(a: Seq<char>, b: Seq<char>) -> (nat, nat) {
    let (af, bf, m) = greedy(a, b, a.len() as int);
    (m, mismatches(flagged(a, af), flagged(b, bf)) / 2)
}

/// Length of the common prefix of `a` and `b`.
pub open spec fn common_prefix(a: Seq<char>, b: Seq<char>) -> nat
    decreases a.len(),
{
    if a.len() == 0 || b.len() == 0 || a[0] != b[0] {
        0
    } else {
        1 + common_prefix(a.drop_first(), b.drop_first())
    }
}

/// Length of the common prefix, capped at four characters.
pub open spec fn prefix4(a: Seq<char>, b: Seq<char>) -> nat {
    let c = common_prefix(a, b);
    if c > 4 {
        4
    } else {
        c
    }
}

/// Jaro similarity from its counts, as `(num, den)`:
/// `(m/|a| + m/|b| + (m-t)/m) / 3`; `1` for two empty strings and `0`
/// when nothing matches.
pub open spec fn jaro_parts(m: int, t: int, al: int, bl: int) -> (int, int) {
    if al == 0 && bl == 0 {
        (1, 1)
    } else if m <= 0 || al <= 0 || bl <= 0 {
        (0, 1)
    } else {
        let mt = if t > m { 0 } else { m - t };
        (m * m * bl + m * m * al + mt * al * bl, 3 * al * bl * m)
    }
}

/// Jaro-Winkler similarity from its counts, as `(num, den)`: above 0.7 the
/// common prefix of up to four characters earns `0.1 * prefix * (1 - jaro)`.
pub open spec fn jw_parts(m: int, t: int, al: int, bl: int, p: int) -> (int, int) {
    let (n, d) = jaro_parts(m, t, al, bl);
    if 10 * n > 7 * d {
        let pc = if p > 4 { 4 } else if p < 0 { 0 } else { p };
        (n * (10 - pc) + pc * d, 10 * d)
    } else {
        (10 * n, 10 * d)
    }
}

/// Jaro similarity of `a` and `b` as `(num, den)`.
pub open spec fn jaro_frac(a: Seq<char>, b: Seq<char>) -> (int, int) {
    jaro_parts(jaro_counts(a, b).0 as int, jaro_counts(a, b).1 as int, a.len() as int, b.len() as int)
}

/// Jaro-Winkler similarity of `a` and `b` as `(num, den)`.
pub open spec fn jw_frac(a: Seq<char>, b: Seq<char>) -> (int, int) {
    jw_parts(
        jaro_counts(a, b).0 as int,
        jaro_counts(a, b).1 as int,
        a.len() as int,
        b.len() as int,
        prefix4(a, b) as int,
    )
}

/// The score of `a` against `b`.
pub open spec fn jw_score(a: Seq<char>, b: Seq<char>) -> Score {
    Score {
        matches: jaro_counts(a, b).0 as u64,
        transpositions: jaro_counts(a, b).1 as u64,
        len_a: a.len() as u64,
        len_b: b.len() as u64,
        prefix: prefix4(a, b) as u64,
    }
}

/// `x.0 / x.1 > y.0 / y.1`, for positive denominators.
pub open spec fn frac_gt(x: (int, int), y: (int, int)) -> bool {
    x.0 * y.1 > y.0 * x.1
}

/// `x.0 / x.1 == y.0 / y.1`, for positive denominators.
pub open spec fn frac_eq(x: (int, int), y: (int, int)) -> bool {
    x.0 * y.1 == y.0 * x.1
}

impl Score {
    /// The similarity as a pair `(num, den)`.
    pub open spec fn frac(&self) -> (int, int) {
        jw_parts(self.matches as int, self.transpositions as int, self.len_a as int, self.len_b as int, self.prefix as int)
    }
}

proof fn lemma_first_free_bounds(c: char, b: Seq<char>, bf: Seq<bool>, j: int, hi: int)
    ensures
        first_free(c, b, bf, j, hi) matches Some(k) ==> j <= k < hi,
    decreases hi - j,
{
    if j < hi {
        lemma_first_free_bounds(c, b, bf, j + 1, hi);
    }
}

proof fn lemma_flagged_congruent(s: Seq<char>, f1: Seq<bool>, f2: Seq<bool>)
    requires
        f1.len() >= s.len(),
        f2.len() >= s.len(),
        forall|k: int| 0 <= k < s.len() ==> f1[k] == f2[k],
    ensures
        flagged(s, f1) == flagged(s, f2),
    decreases s.len(),
{
    if s.len() > 0 {
        lemma_flagged_congruent(s.drop_last(), f1, f2);
    }
}

/// The greedy pass keeps flag lengths, flags only what it has scanned, and
/// counts exactly the flagged characters of `a`.
proof fn lemma_greedy(a: Seq<char>, b: Seq<char>, i: int)
    requires
        0 <= i <= a.len(),
    ensures
        greedy(a, b, i).0.len() == a.len(),
        greedy(a, b, i).1.len() == b.len(),
        forall|k: int| i <= k < a.len() ==> !greedy(a, b, i).0[k],
        flagged(a.take(i), greedy(a, b, i).0).len() == greedy(a, b, i).2,
        greedy(a, b, i).2 <= i,
    decreases i,
{
    if i <= 0 {
        assert(a.take(0).len() == 0);
    } else {
        lemma_greedy(a, b, i - 1);
        let (af, bf, m) = greedy(a, b, i - 1);
        let r = search_range(a.len() as int, b.len() as int);
        let lo = if i - 1 > r { i - 1 - r } else { 0 };
        let hi = if b.len() < i + r { b.len() as int } else { i + r };
        assert(a.take(i).drop_last() =~= a.take(i - 1));
        assert(a.take(i).last() == a[i - 1]);
        lemma_first_free_bounds(a[i - 1], b, bf, lo, hi);
        match first_free(a[i - 1], b, bf, lo, hi) {
            Some(j) => {
                let af2 = af.update(i - 1, true);
                lemma_flagged_congruent(a.take(i - 1), af, af2);
                assert(greedy(a, b, i).0 == af2);
            },
            None => {
                assert(greedy(a, b, i).0 == af);
            },
        }
    }
}

proof fn lemma_mismatches_le(x: Seq<char>, y: Seq<char>)
    ensures
        mismatches(x, y) <= x.len(),
    decreases x.len(),
{
    if x.len() > 0 && y.len() > 0 {
        lemma_mismatches_le(x.drop_first(), y.drop_first());
    }
}

/// The Jaro counts of non-empty strings: at least one match per
/// transposition pair, and no more matches than characters of `a`.
proof fn lemma_jaro_counts(a: Seq<char>, b: Seq<char>)
    ensures
        jaro_counts(a, b).0 <= a.len(),
        jaro_counts(a, b).1 <= jaro_counts(a, b).0,
{
    lemma_greedy(a, b, a.len() as int);
    assert(a.take(a.len() as int) =~= a);
    let (af, bf, m) = greedy(a, b, a.len() as int);
    lemma_mismatches_le(flagged(a, af), flagged(b, bf));
}

// -- the bound that lets a search skip entries --------------------------------

/// Bit of the 64-wide character-set mask that `c` falls into.
pub open spec fn char_bit_spec(c: char) -> u64 {
    1u64 << ((c as u32) & 63u32)
}

/// Character-set mask of `s`: the bits of all its characters. Characters
/// sharing a bit only widen the set.
pub open spec fn charset_of(s: Seq<char>) -> u64
    decreases s.len(),
{
    if s.len() == 0 {
        0
    } else {
        charset_of(s.drop_last()) | char_bit_spec(s.last())
    }
}

/// Positions of `s` whose character's bit is in `mask`.
pub open spec fn count_in(s: Seq<char>, mask: u64) -> nat
    decreases s.len(),
{
    if s.len() == 0 {
        0
    } else {
        count_in(s.drop_last(), mask) + if mask & char_bit_spec(s.last()) != 0 {
            1nat
        } else {
            0nat
        }
    }
}

/// Upper bound on the Jaro-Winkler similarity of strings of lengths `ql`
/// and `el` with at most `mu` matching characters:
/// `0.4 + 0.6 * (mu/ql + mu/el + 1) / 3`, and `0` when nothing can match.
pub open spec fn jw_bound(mu: int, ql: int, el: int) -> (int, int) {
    if mu <= 0 {
        (0, 1)
    } else {
        (6 * ql * el + 2 * mu * (ql + el), 10 * ql * el)
    }
}

proof fn lemma_bit_nonzero(c: char)
    ensures
        char_bit_spec(c) != 0,
{
    let x: u32 = c as u32;
    let k: u32 = x & 63u32;
    assert(k < 64) by (bit_vector)
        requires
            k == x & 63u32,
    ;
    assert((1u64 << k) != 0) by (bit_vector)
        requires
            k < 64,
    ;
}

proof fn lemma_or_keeps(a: u64, b: u64, x: u64)
    ensures
        a & x != 0 ==> (a | b) & x != 0,
        b != 0 ==> (a | b) & b != 0,
{
    assert(a & x != 0 ==> (a | b) & x != 0) by (bit_vector);
    assert(b != 0 ==> (a | b) & b != 0) by (bit_vector);
}

/// Every character of `s` has its bit in the mask of `s`.
proof fn lemma_charset_has(s: Seq<char>, i: int)
    requires
        0 <= i < s.len(),
    ensures
        charset_of(s) & char_bit_spec(s[i]) != 0,
    decreases s.len(),
{
    let init = s.drop_last();
    lemma_bit_nonzero(s.last());
    if i == s.len() - 1 {
        lemma_or_keeps(charset_of(init), char_bit_spec(s.last()), char_bit_spec(s[i]));
    } else {
        lemma_charset_has(init, i);
        assert(init[i] == s[i]);
        lemma_or_keeps(charset_of(init), char_bit_spec(s.last()), char_bit_spec(s[i]));
    }
}

proof fn lemma_count_in_le(s: Seq<char>, mask: u64)
    ensures
        count_in(s, mask) <= s.len(),
    decreases s.len(),
{
    if s.len() > 0 {
        lemma_count_in_le(s.drop_last(), mask);
    }
}

/// Flagged positions whose characters all have their bit in `mask` are no
/// more than the positions with the bit.
proof fn lemma_flagged_le_count(s: Seq<char>, f: Seq<bool>, mask: u64)
    requires
        f.len() >= s.len(),
        forall|k: int| 0 <= k < s.len() && f[k] ==> mask & char_bit_spec(#[trigger] s[k]) != 0,
    ensures
        flagged(s, f).len() <= count_in(s, mask),
    decreases s.len(),
{
    if s.len() > 0 {
        let init = s.drop_last();
        assert forall|k: int| 0 <= k < init.len() && f[k] implies mask & char_bit_spec(#[trigger] init[k]) != 0 by {
            assert(init[k] == s[k]);
        }
        lemma_flagged_le_count(init, f, mask);
        assert(s.last() == s[s.len() - 1]);
    }
}

proof fn lemma_flagged_le_len(s: Seq<char>, f: Seq<bool>)
    ensures
        flagged(s, f).len() <= s.len(),
    decreases s.len(),
{
    if s.len() > 0 && f.len() >= s.len() {
        lemma_flagged_le_len(s.drop_last(), f);
    }
}

/// Setting one more flag flags one more character.
proof fn lemma_flagged_update(s: Seq<char>, f: Seq<bool>, j: int)
    requires
        0 <= j < s.len(),
        f.len() >= s.len(),
        !f[j],
    ensures
        flagged(s, f.update(j, true)).len() == flagged(s, f).len() + 1,
    decreases s.len(),
{
    let g = f.update(j, true);
    let init = s.drop_last();
    if j == s.len() - 1 {
        lemma_flagged_congruent(init, f, g);
    } else {
        lemma_flagged_update(init, f, j);
    }
}

proof fn lemma_first_free_found(c: char, b: Seq<char>, bf: Seq<bool>, j: int, hi: int)
    requires
        0 <= j,
        hi <= b.len(),
        bf.len() == b.len(),
    ensures
        first_free(c, b, bf, j, hi) matches Some(k) ==> j <= k < hi && b[k] == c && !bf[k],
    decreases hi - j,
{
    if j < hi {
        lemma_first_free_found(c, b, bf, j + 1, hi);
    }
}

/// What greedy matching pairs up: a flagged character of either string
/// occurs in the other, and each string has exactly as many flagged
/// characters as there are matches.
proof fn lemma_greedy_pairs(a: Seq<char>, b: Seq<char>, i: int)
    requires
        0 <= i <= a.len(),
    ensures
        forall|k: int| 0 <= k < a.len() && greedy(a, b, i).0[k] ==> b.contains(#[trigger] a[k]),
        forall|k: int| 0 <= k < b.len() && greedy(a, b, i).1[k] ==> a.contains(#[trigger] b[k]),
        flagged(b, greedy(a, b, i).1).len() == greedy(a, b, i).2,
    decreases i,
{
    lemma_greedy(a, b, i);
    if i <= 0 {
        let bf = greedy(a, b, i).1;
        lemma_flagged_none(b, bf);
    } else {
        lemma_greedy_pairs(a, b, i - 1);
        lemma_greedy(a, b, i - 1);
        let (af, bf, m) = greedy(a, b, i - 1);
        let r = search_range(a.len() as int, b.len() as int);
        let lo = if i - 1 > r { i - 1 - r } else { 0 };
        let hi = if b.len() < i + r { b.len() as int } else { i + r };
        lemma_first_free_found(a[i - 1], b, bf, lo, hi);
        match first_free(a[i - 1], b, bf, lo, hi) {
            Some(j) => {
                let af2 = af.update(i - 1, true);
                let bf2 = bf.update(j, true);
                assert(greedy(a, b, i) == (af2, bf2, m + 1));
                assert forall|k: int| 0 <= k < a.len() && af2[k] implies b.contains(#[trigger] a[k]) by {
                    if k == i - 1 {
                        assert(b[j] == a[k]);
                    }
                }
                assert forall|k: int| 0 <= k < b.len() && bf2[k] implies a.contains(#[trigger] b[k]) by {
                    if k == j {
                        assert(a[i - 1] == b[k]);
                    }
                }
                lemma_flagged_update(b, bf, j);
            },
            None => {},
        }
    }
}

proof fn lemma_flagged_none(s: Seq<char>, f: Seq<bool>)
    requires
        f.len() >= s.len(),
        forall|k: int| 0 <= k < s.len() ==> !f[k],
    ensures
        flagged(s, f).len() == 0,
    decreases s.len(),
{
    if s.len() > 0 {
        lemma_flagged_none(s.drop_last(), f);
    }
}

/// The matches of `a` against `b` are at most the characters of either,
/// at most the characters of `a` that `b`'s mask admits, and at most the
/// characters of `b` that `a`'s mask admits.
proof fn lemma_matches_ceiling(a: Seq<char>, b: Seq<char>)
    ensures
        jaro_counts(a, b).0 <= a.len(),
        jaro_counts(a, b).0 <= b.len(),
        jaro_counts(a, b).0 <= count_in(a, charset_of(b)),
        jaro_counts(a, b).0 <= count_in(b, charset_of(a)),
{
    lemma_greedy(a, b, a.len() as int);
    lemma_greedy_pairs(a, b, a.len() as int);
    lemma_jaro_counts(a, b);
    assert(a.take(a.len() as int) =~= a);
    let (af, bf, m) = greedy(a, b, a.len() as int);
    lemma_flagged_le_len(b, bf);
    assert forall|k: int| 0 <= k < a.len() && af[k] implies charset_of(b) & char_bit_spec(#[trigger] a[k]) != 0 by {
        assert(b.contains(a[k]));
        let j = choose|j: int| 0 <= j < b.len() && b[j] == a[k];
        lemma_charset_has(b, j);
    }
    lemma_flagged_le_count(a, af, charset_of(b));
    assert forall|k: int| 0 <= k < b.len() && bf[k] implies charset_of(a) & char_bit_spec(#[trigger] b[k]) != 0 by {
        assert(a.contains(b[k]));
        let j = choose|j: int| 0 <= j < a.len() && a[j] == b[k];
        lemma_charset_has(a, j);
    }
    lemma_flagged_le_count(b, bf, charset_of(a));
}

/// Jaro-Winkler never exceeds the bound for any ceiling at least the number
/// of matches and at most both lengths.
proof fn lemma_jw_bound(a: Seq<char>, b: Seq<char>, mu: int)
    requires
        a.len() > 0,
        b.len() > 0,
        jaro_counts(a, b).0 <= mu,
        mu <= a.len(),
        mu <= b.len(),
    ensures
        !frac_gt(jw_frac(a, b), jw_bound(mu, a.len() as int, b.len() as int)),
{
    lemma_jaro_counts(a, b);
    let (m0, t0) = jaro_counts(a, b);
    let m = m0 as int;
    let t = t0 as int;
    let q = a.len() as int;
    let e = b.len() as int;
    if m == 0 {
        assert(jaro_frac(a, b) == (0int, 1int));
        assert(jw_frac(a, b) == (0int, 10int));
        if mu > 0 {
            assert(6 * q * e + 2 * mu * (q + e) >= 0) by (nonlinear_arith)
                requires
                    q > 0,
                    e > 0,
                    mu > 0,
            ;
        }
        assert(!frac_gt(jw_frac(a, b), jw_bound(mu, q, e)));
    } else {
        let n = m * m * e + m * m * q + (m - t) * q * e;
        let d = 3 * q * e * m;
        assert(jaro_frac(a, b) == (n, d));
        let bn = 6 * q * e + 2 * mu * (q + e);
        let bd = 10 * q * e;
        // n / d <= (mu (q + e) + q e) / (3 q e) <= 1
        assert(n <= m * (mu * (q + e) + q * e)) by (nonlinear_arith)
            requires
                0 < m <= mu,
                0 <= t <= m,
                q > 0,
                e > 0,
                n == m * m * e + m * m * q + (m - t) * q * e,
        ;
        assert(n <= d) by (nonlinear_arith)
            requires
                n <= m * (mu * (q + e) + q * e),
                mu <= q,
                mu <= e,
                m > 0,
                q > 0,
                e > 0,
                d == 3 * q * e * m,
        {
            assert(mu * q <= q * e) by (nonlinear_arith)
                requires
                    mu <= e,
                    q > 0,
            ;
            assert(mu * e <= q * e) by (nonlinear_arith)
                requires
                    mu <= q,
                    e > 0,
            ;
            assert(mu * (q + e) + q * e <= 3 * q * e);
            assert(m * (mu * (q + e) + q * e) <= m * (3 * q * e)) by (nonlinear_arith)
                requires
                    mu * (q + e) + q * e <= 3 * q * e,
                    m > 0,
            ;
        }
        // 0.4 + 0.6 * n / d <= bound
        assert((6 * n + 4 * d) * q * e <= bn * d) by (nonlinear_arith)
            requires
                n <= m * (mu * (q + e) + q * e),
                d == 3 * q * e * m,
                bn == 6 * q * e + 2 * mu * (q + e),
                q > 0,
                e > 0,
                m > 0,
        {
            assert(6 * n * q * e <= 6 * m * (mu * (q + e) + q * e) * q * e) by (nonlinear_arith)
                requires
                    n <= m * (mu * (q + e) + q * e),
                    q > 0,
                    e > 0,
            ;
        }
        assert(n >= 0) by (nonlinear_arith)
            requires
                n == m * m * e + m * m * q + (m - t) * q * e,
                m > 0,
                t <= m,
                q > 0,
                e > 0,
        ;
        assert(d > 0) by (nonlinear_arith)
            requires
                d == 3 * q * e * m,
                m > 0,
                q > 0,
                e > 0,
        ;
        assert(q * e > 0) by (nonlinear_arith)
            requires
                q > 0,
                e > 0,
        ;
        let (wn, wd) = jw_frac(a, b);
        if 10 * n > 7 * d {
            let p = prefix4(a, b) as int;
            assert(wn == n * (10 - p) + p * d && wd == 10 * d);
            assert(n * (10 - p) + p * d <= 6 * n + 4 * d) by (nonlinear_arith)
                requires
                    0 <= p <= 4,
                    n <= d,
            ;
            assert(wn * bd <= bn * wd) by (nonlinear_arith)
                requires
                    wn <= 6 * n + 4 * d,
                    wn >= 0,
                    (6 * n + 4 * d) * q * e <= bn * d,
                    bd == 10 * q * e,
                    wd == 10 * d,
                    q * e > 0,
            {
                assert(wn * (q * e) <= (6 * n + 4 * d) * (q * e)) by (nonlinear_arith)
                    requires
                        wn <= 6 * n + 4 * d,
                        q * e > 0,
                ;
            }
        } else {
            assert(wn == 10 * n && wd == 10 * d);
            assert(wn * bd <= bn * wd) by (nonlinear_arith)
                requires
                    wn == 10 * n,
                    wd == 10 * d,
                    bd == 10 * q * e,
                    n <= d,
                    n >= 0,
                    (6 * n + 4 * d) * q * e <= bn * d,
                    q * e > 0,
            {
                assert(10 * n * (q * e) <= (6 * n + 4 * d) * (q * e)) by (nonlinear_arith)
                    requires
                        n <= d,
                        n >= 0,
                        q * e > 0,
                ;
            }
        }
        assert(jw_bound(mu, q, e) == (bn, bd));
        assert(!frac_gt(jw_frac(a, b), jw_bound(mu, q, e)));
    }
}

/// Bit of the 64-wide character-set mask that `c` falls into.
pub fn char_bit(c: char) -> (r: u64)
    ensures
        r == char_bit_spec(c),
{
    let x: u32 = c as u32;
    let k: u32 = x & 63;
    assert(k < 64) by (bit_vector)
        requires
            k == x & 63u32,
    ;
    1u64 << k
}

/// Character-set mask of `chars`.
pub fn charset_mask_chars(chars: &[char]) -> (r: u64)
    ensures
        r == charset_of(chars@),
{
    let mut mask: u64 = 0;
    let mut i: usize = 0;
    while i < chars.len()
        invariant
            i <= chars@.len(),
            mask == charset_of(chars@.take(i as int)),
        decreases chars@.len() - i,
    {
        proof {
            assert(chars@.take(i + 1).drop_last() =~= chars@.take(i as int));
            assert(chars@.take(i + 1).last() == chars@[i as int]);
        }
        mask = mask | char_bit(chars[i]);
        i += 1;
    }
    assert(chars@.take(chars@.len() as int) =~= chars@);
    mask
}

/// Character-set mask of `s`.
pub fn charset_mask(s: &str) -> (r: u64)
    ensures
        r == charset_of(s@),
{
    let chars = to_chars(s);
    charset_mask_chars(chars.as_slice())
}

/// Positions of `s` whose character's bit is in `mask`.
fn count_in_mask(s: &[char], mask: u64) -> (n: usize)
    ensures
        n == count_in(s@, mask),
{
    let mut n: usize = 0;
    let mut i: usize = 0;
    while i < s.len()
        invariant
            i <= s@.len(),
            n == count_in(s@.take(i as int), mask),
            n <= i,
        decreases s@.len() - i,
    {
        proof {
            assert(s@.take(i + 1).drop_last() =~= s@.take(i as int));
            assert(s@.take(i + 1).last() == s@[i as int]);
        }
        if mask & char_bit(s[i]) != 0 {
            n += 1;
        }
        i += 1;
    }
    assert(s@.take(s@.len() as int) =~= s@);
    n
}

/// Whether the bound for ceiling `mu` and lengths `ql`, `el` lies above
/// the threshold `t`.
fn bound_exceeds(mu: usize, ql: usize, el: usize, t: Threshold) -> (b: bool)
    requires
        mu <= ql,
        mu <= el,
        ql > 0,
        el > 0,
    ensures
        b == frac_gt(jw_bound(mu as int, ql as int, el as int), (t.num as int, t.den as int)),
{
    let (tt, td) = threshold_terms(t);
    if mu == 0 {
        let z: Vec<Vec<u64>> = Vec::new();
        let one: Vec<u64> = Vec::new();
        proof {
            lemma_sum_prods_unfold(terms_view(z@));
            assert(prod(one@) == 1);
        }
        return terms_gt(&z, &one, &tt, &td);
    }
    let (q, e, m) = (ql as u64, el as u64, mu as u64);
    let n: Vec<Vec<u64>> = vec![vec![6u64, q, e], vec![2u64, m, q], vec![2u64, m, e]];
    let d: Vec<u64> = vec![10u64, q, e];
    proof {
        lemma_sum_prods_unfold(terms_view(n@));
        lemma_prod_unfold(n@[0]@);
        lemma_prod_unfold(n@[1]@);
        lemma_prod_unfold(n@[2]@);
        lemma_prod_unfold(d@);
        let (qi, ei, mi) = (q as int, e as int, m as int);
        assert(6 * qi * ei + 2 * mi * (qi + ei) == 6 * qi * ei + 2 * mi * qi + 2 * mi * ei) by (nonlinear_arith);
    }
    terms_gt(&n, &d, &tt, &td)
}

fn min_usize(a: usize, b: usize) -> (r: usize)
    ensures
        r == if a < b { a } else { b },
{
    if a < b {
        a
    } else {
        b
    }
}

proof fn lemma_frac_le_trans(x: (int, int), y: (int, int), z: (int, int))
    requires
        x.1 > 0,
        y.1 > 0,
        z.1 > 0,
        !frac_gt(x, y),
        !frac_gt(y, z),
    ensures
        !frac_gt(x, z),
{
    let (a, p) = x;
    let (b, q) = y;
    let (c, r) = z;
    assert(a * r <= c * p) by (nonlinear_arith)
        requires
            a * q <= b * p,
            b * r <= c * q,
            p > 0,
            q > 0,
            r > 0,
    {
        assert(a * q * r <= b * p * r);
        assert(b * r * p <= c * q * p);
        assert(a * r * q <= c * p * q);
    }
}

/// The Jaro-Winkler fraction of non-empty strings has a positive
/// denominator and a non-negative numerator.
pub proof fn lemma_jw_frac_pos(a: Seq<char>, b: Seq<char>)
    requires
        a.len() > 0,
        b.len() > 0,
    ensures
        jw_frac(a, b).0 >= 0,
        jw_frac(a, b).1 > 0,
{
    lemma_jaro_counts(a, b);
    let (m, t) = jaro_counts(a, b);
    let al = a.len() as int;
    let bl = b.len() as int;
    if m > 0 {
        let mi = m as int;
        let ti = t as int;
        assert(mi * mi * bl >= 0) by (nonlinear_arith)
            requires
                mi > 0,
                bl > 0,
        ;
        assert(mi * mi * al >= 0) by (nonlinear_arith)
            requires
                mi > 0,
                al > 0,
        ;
        assert((mi - ti) * al * bl >= 0) by (nonlinear_arith)
            requires
                mi >= ti,
                al > 0,
                bl > 0,
        ;
        assert(3 * al * bl * mi > 0) by (nonlinear_arith)
            requires
                mi > 0,
                al > 0,
                bl > 0,
        ;
        let (n, d) = jaro_frac(a, b);
        let p = prefix4(a, b) as int;
        assert(n * (10 - p) + p * d >= 0) by (nonlinear_arith)
            requires
                n >= 0,
                d > 0,
                0 <= p <= 4,
        ;
    }
}

/// Comparison of fractions with positive denominators is transitive.
pub proof fn lemma_frac_trans(x: (int, int), y: (int, int), z: (int, int))
    requires
        x.1 > 0,
        y.1 > 0,
        z.1 > 0,
    ensures
        frac_gt(x, y) && frac_gt(y, z) ==> frac_gt(x, z),
        frac_gt(x, y) && frac_eq(y, z) ==> frac_gt(x, z),
        frac_eq(x, y) && frac_gt(y, z) ==> frac_gt(x, z),
        frac_eq(x, y) && frac_eq(y, z) ==> frac_eq(x, z),
{
    let (a, p) = x;
    let (b, q) = y;
    let (c, r) = z;
    assert(a * q > b * p && b * r > c * q ==> a * r > c * p) by (nonlinear_arith)
        requires
            p > 0,
            q > 0,
            r > 0,
    {
        if a * q > b * p && b * r > c * q {
            assert(a * q * r > b * p * r);
            assert(b * r * p > c * q * p);
            assert(a * r * q > c * p * q);
        }
    }
    assert(a * q > b * p && b * r == c * q ==> a * r > c * p) by (nonlinear_arith)
        requires
            p > 0,
            q > 0,
            r > 0,
    {
        if a * q > b * p && b * r == c * q {
            assert(a * q * r > b * p * r);
            assert(b * r * p == c * q * p);
            assert(a * r * q > c * p * q);
        }
    }
    assert(a * q == b * p && b * r > c * q ==> a * r > c * p) by (nonlinear_arith)
        requires
            p > 0,
            q > 0,
            r > 0,
    {
        if a * q == b * p && b * r > c * q {
            assert(a * q * r == b * p * r);
            assert(b * r * p > c * q * p);
            assert(a * r * q > c * p * q);
        }
    }
    assert(a * q == b * p && b * r == c * q ==> a * r == c * p) by (nonlinear_arith)
        requires
            p > 0,
            q > 0,
            r > 0,
    {
        if a * q == b * p && b * r == c * q {
            assert(a * q * r == b * p * r);
            assert(b * r * p == c * q * p);
            assert(a * r * q == c * p * q);
        }
    }
}

/// Greedy matching over `a` and `b`, with the flags and the match count.
fn greedy_flags(a: &[char], b: &[char]) -> (r: (Vec<bool>, Vec<bool>, usize))
    ensures
        r.0@ == greedy(a@, b@, a@.len() as int).0,
        r.1@ == greedy(a@, b@, a@.len() as int).1,
        r.2 as nat == greedy(a@, b@, a@.len() as int).2,
{
    let al = a.len();
    let bl = b.len();
    let mx = if al > bl {
        al
    } else {
        bl
    };
    let r: usize = if mx / 2 >= 1 {
        mx / 2 - 1
    } else {
        0
    };
    let mut af: Vec<bool> = Vec::new();
    let mut k: usize = 0;
    while k < al
        invariant
            k <= al,
            af@ == Seq::new(k as nat, |_i: int| false),
        decreases al - k,
    {
        af.push(false);
        k += 1;
        assert(af@ =~= Seq::new(k as nat, |_i: int| false));
    }
    let mut bf: Vec<bool> = Vec::new();
    k = 0;
    while k < bl
        invariant
            k <= bl,
            bf@ == Seq::new(k as nat, |_i: int| false),
        decreases bl - k,
    {
        bf.push(false);
        k += 1;
        assert(bf@ =~= Seq::new(k as nat, |_i: int| false));
    }
    let mut m: usize = 0;
    let mut i: usize = 0;
    while i < al
        invariant
            al == a@.len(),
            bl == b@.len(),
            r == search_range(al as int, bl as int),
            i <= al,
            af@ == greedy(a@, b@, i as int).0,
            bf@ == greedy(a@, b@, i as int).1,
            m as nat == greedy(a@, b@, i as int).2,
            af@.len() == al,
            bf@.len() == bl,
            m <= i,
        decreases al - i,
    {
        let lo: usize = if i > r {
            i - r
        } else {
            0
        };
        let hi: usize = if i >= bl || bl - i <= r {
            bl
        } else {
            i + r + 1
        };
        let c = a[i];
        let mut j: usize = lo;
        while j < hi && !(b[j] == c && !bf[j])
            invariant
                lo <= j,
                j == lo || j <= hi,
                hi <= bl,
                bl == b@.len(),
                bf@.len() == bl,
                first_free(c, b@, bf@, lo as int, hi as int) == first_free(c, b@, bf@, j as int, hi as int),
            decreases hi - j,
        {
            j += 1;
        }
        let ghost before = greedy(a@, b@, i as int);
        assert(greedy(a@, b@, i + 1) == ({
            let (af0, bf0, m0) = before;
            match first_free(a@[i as int], b@, bf0, lo as int, hi as int) {
                Some(jj) => (af0.update(i as int, true), bf0.update(jj, true), m0 + 1),
                None => (af0, bf0, m0),
            }
        }));
        if j < hi {
            af.set(i, true);
            bf.set(j, true);
            m += 1;
        }
        i += 1;
    }
    (af, bf, m)
}

/// The characters of `s` whose flag is set.
fn flagged_chars(s: &[char], f: &Vec<bool>) -> (out: Vec<char>)
    requires
        f@.len() == s@.len(),
    ensures
        out@ == flagged(s@, f@),
{
    let mut out: Vec<char> = Vec::new();
    let mut i: usize = 0;
    assert(out@ =~= flagged(s@.take(0), f@));
    while i < s.len()
        invariant
            i <= s@.len(),
            f@.len() == s@.len(),
            out@ == flagged(s@.take(i as int), f@),
        decreases s@.len() - i,
    {
        proof {
            assert(s@.take(i + 1).drop_last() =~= s@.take(i as int));
            assert(s@.take(i + 1).last() == s@[i as int]);
        }
        if f[i] {
            out.push(s[i]);
        }
        i += 1;
    }
    assert(s@.take(s@.len() as int) =~= s@);
    out
}

/// Positions below both lengths where `x` and `y` differ.
fn count_mismatches(x: &Vec<char>, y: &Vec<char>) -> (n: usize)
    ensures
        n == mismatches(x@, y@),
{
    let len = if x.len() < y.len() {
        x.len()
    } else {
        y.len()
    };
    let mut n: usize = 0;
    let mut k: usize = 0;
    assert(x@.skip(0) =~= x@);
    assert(y@.skip(0) =~= y@);
    while k < len
        invariant
            k <= len,
            len <= x@.len(),
            len <= y@.len(),
            len == x@.len() || len == y@.len(),
            n <= k,
            n + mismatches(x@.skip(k as int), y@.skip(k as int)) == mismatches(x@, y@),
        decreases len - k,
    {
        proof {
            assert(x@.skip(k as int).drop_first() =~= x@.skip(k + 1));
            assert(y@.skip(k as int).drop_first() =~= y@.skip(k + 1));
        }
        if x[k] != y[k] {
            n += 1;
        }
        k += 1;
    }
    n
}

/// Common prefix of `a` and `b`, capped at four characters.
fn prefix_len4(a: &[char], b: &[char]) -> (p: usize)
    ensures
        p == prefix4(a@, b@),
{
    let mut k: usize = 0;
    assert(a@.skip(0) =~= a@);
    assert(b@.skip(0) =~= b@);
    while k < 4 && k < a.len() && k < b.len() && a[k] == b[k]
        invariant
            k <= 4,
            k <= a@.len(),
            k <= b@.len(),
            common_prefix(a@, b@) == k + common_prefix(a@.skip(k as int), b@.skip(k as int)),
        decreases 4 - k,
    {
        proof {
            assert(a@.skip(k as int).drop_first() =~= a@.skip(k + 1));
            assert(b@.skip(k as int).drop_first() =~= b@.skip(k + 1));
        }
        k += 1;
    }
    k
}

/// Jaro-Winkler similarity of two strings, exactly.
///
/// Characters match within a window of half the longer length; matched
/// characters out of order count as half a transposition each; above 0.7 a
/// common prefix of up to four characters raises the score. Two empty
/// strings are identical (`1`); an empty and a non-empty one share nothing
/// (`0`).
pub fn jaro_winkler(a: &[char], b: &[char]) -> (s: Score)
    ensures
        s == jw_score(a@, b@),
        s.frac() == jw_frac(a@, b@),
{
    let (af, bf, m) = greedy_flags(a, b);
    proof {
        lemma_greedy(a@, b@, a@.len() as int);
        lemma_jaro_counts(a@, b@);
    }
    let fa = flagged_chars(a, &af);
    let fb = flagged_chars(b, &bf);
    let mis = count_mismatches(&fa, &fb);
    let t = mis / 2;
    let p = prefix_len4(a, b);
    let s = Score {
        matches: m as u64,
        transpositions: t as u64,
        len_a: a.len() as u64,
        len_b: b.len() as u64,
        prefix: p as u64,
    };
    proof {
        lemma_jw_score(a@, b@);
    }
    s
}

/// The score of two strings has their similarity as its value.
pub proof fn lemma_jw_score(a: Seq<char>, b: Seq<char>)
    requires
        a.len() <= u64::MAX,
        b.len() <= u64::MAX,
    ensures
        jw_score(a, b).frac() == jw_frac(a, b),
{
    lemma_jaro_counts(a, b);
    assert(prefix4(a, b) <= 4);
}

proof fn lemma_prod_unfold(f: Seq<u64>)
    ensures
        f.len() == 1 ==> prod(f) == f[0] as int,
        f.len() == 3 ==> prod(f) == f[0] * f[1] * f[2],
        f.len() == 4 ==> prod(f) == f[0] * f[1] * f[2] * f[3],
        f.len() == 5 ==> prod(f) == f[0] * f[1] * f[2] * f[3] * f[4],
{
    reveal_with_fuel(prod, 6);
}

proof fn lemma_sum_prods_unfold(v: Seq<Seq<u64>>)
    ensures
        v.len() == 0 ==> sum_prods(v) == 0,
        v.len() == 1 ==> sum_prods(v) == prod(v[0]),
        v.len() == 3 ==> sum_prods(v) == prod(v[0]) + prod(v[1]) + prod(v[2]),
        v.len() == 4 ==> sum_prods(v) == prod(v[0]) + prod(v[1]) + prod(v[2]) + prod(v[3]),
{
    reveal_with_fuel(sum_prods, 5);
}

/// `x.0 * y.1 > y.0 * x.1` for fractions given as terms.
fn terms_gt(xt: &Vec<Vec<u64>>, xd: &Vec<u64>, yt: &Vec<Vec<u64>>, yd: &Vec<u64>) -> (b: bool)
    ensures
        b == frac_gt(
            (sum_prods(terms_view(xt@)) as int, prod(xd@) as int),
            (sum_prods(terms_view(yt@)) as int, prod(yd@) as int),
        ),
{
    let l = big_sum_prods(xt, yd);
    let r = big_sum_prods(yt, xd);
    big_lt(&r, &l)
}

/// The value of a score as terms.
fn score_terms(s: &Score) -> (r: (Vec<Vec<u64>>, Vec<u64>))
    ensures
        sum_prods(terms_view(r.0@)) == s.frac().0,
        prod(r.1@) == s.frac().1,
{
    let m = s.matches;
    let al = s.len_a;
    let bl = s.len_b;
    if al == 0 && bl == 0 {
        let t: Vec<Vec<u64>> = vec![vec![10u64]];
        let d: Vec<u64> = vec![10u64];
        proof {
            lemma_sum_prods_unfold(terms_view(t@));
            lemma_prod_unfold(t@[0]@);
            lemma_prod_unfold(d@);
        }
        return (t, d);
    }
    if m == 0 || al == 0 || bl == 0 {
        let t: Vec<Vec<u64>> = Vec::new();
        let d: Vec<u64> = vec![10u64];
        proof {
            lemma_sum_prods_unfold(terms_view(t@));
            lemma_prod_unfold(d@);
        }
        return (t, d);
    }
    let mt: u64 = if s.transpositions > m { 0 } else { m - s.transpositions };
    let pc: u64 = if s.prefix > 4 { 4 } else { s.prefix };
    let n_terms: Vec<Vec<u64>> = vec![vec![m, m, bl], vec![m, m, al], vec![mt, al, bl]];
    let d_terms: Vec<Vec<u64>> = vec![vec![3u64, al, bl, m]];
    let ten: Vec<u64> = vec![10u64];
    let seven: Vec<u64> = vec![7u64];
    let ghost (n, d) = jaro_parts(m as int, s.transpositions as int, al as int, bl as int);
    proof {
        lemma_sum_prods_unfold(terms_view(n_terms@));
        lemma_sum_prods_unfold(terms_view(d_terms@));
        lemma_prod_unfold(n_terms@[0]@);
        lemma_prod_unfold(n_terms@[1]@);
        lemma_prod_unfold(n_terms@[2]@);
        lemma_prod_unfold(d_terms@[0]@);
        lemma_prod_unfold(ten@);
        lemma_prod_unfold(seven@);
        assert(sum_prods(terms_view(n_terms@)) == n);
        assert(sum_prods(terms_view(d_terms@)) == d);
    }
    let x = big_sum_prods(&n_terms, &ten);
    let y = big_sum_prods(&d_terms, &seven);
    assert(crate::bignum::big_val(x@) == n * 10);
    assert(crate::bignum::big_val(y@) == d * 7);
    let den: Vec<u64> = vec![10u64, 3u64, al, bl, m];
    proof {
        lemma_prod_unfold(den@);
        assert(10 * (3 * al * bl * m) == 10 * 3 * al * bl * m) by (nonlinear_arith);
    }
    if big_lt(&y, &x) {
        let k: u64 = 10 - pc;
        let t: Vec<Vec<u64>> = vec![vec![m, m, bl, k], vec![m, m, al, k], vec![mt, al, bl, k], vec![pc, 3u64, al, bl, m]];
        proof {
            lemma_sum_prods_unfold(terms_view(t@));
            lemma_prod_unfold(t@[0]@);
            lemma_prod_unfold(t@[1]@);
            lemma_prod_unfold(t@[2]@);
            lemma_prod_unfold(t@[3]@);
            let (mi, ai, bi, mti, ki, pci) = (m as int, al as int, bl as int, mt as int, k as int, pc as int);
            assert((mi * mi * bi + mi * mi * ai + mti * ai * bi) * ki == mi * mi * bi * ki + mi * mi * ai * ki + mti
                * ai * bi * ki) by (nonlinear_arith);
            assert(pci * (3 * ai * bi * mi) == pci * 3 * ai * bi * mi) by (nonlinear_arith);
            assert(10 * n > 7 * d);
            assert(s.frac().0 == n * (10 - pci) + pci * d);
            assert(prod(terms_view(t@)[0]) == mi * mi * bi * ki);
            assert(prod(terms_view(t@)[3]) == pci * 3 * ai * bi * mi);
            assert(sum_prods(terms_view(t@)) == n * ki + pci * d);
        }
        (t, den)
    } else {
        let t: Vec<Vec<u64>> = vec![vec![m, m, bl, 10u64], vec![m, m, al, 10u64], vec![mt, al, bl, 10u64]];
        proof {
            lemma_sum_prods_unfold(terms_view(t@));
            lemma_prod_unfold(t@[0]@);
            lemma_prod_unfold(t@[1]@);
            lemma_prod_unfold(t@[2]@);
            let (mi, ai, bi, mti) = (m as int, al as int, bl as int, mt as int);
            assert(10 * (mi * mi * bi + mi * mi * ai + mti * ai * bi) == mi * mi * bi * 10 + mi * mi * ai * 10 + mti
                * ai * bi * 10) by (nonlinear_arith);
        }
        (t, den)
    }
}

/// A threshold as terms.
fn threshold_terms(t: Threshold) -> (r: (Vec<Vec<u64>>, Vec<u64>))
    ensures
        sum_prods(terms_view(r.0@)) == t.num as int,
        prod(r.1@) == t.den as int,
{
    let n: Vec<Vec<u64>> = vec![vec![t.num as u64]];
    let d: Vec<u64> = vec![t.den as u64];
    proof {
        lemma_sum_prods_unfold(terms_view(n@));
        lemma_prod_unfold(n@[0]@);
        lemma_prod_unfold(d@);
    }
    (n, d)
}

impl Score {
    /// The score of an exact match: `1`.
    pub fn exact() -> (s: Score)
        ensures
            s == (Score { matches: 1, transpositions: 0, len_a: 1, len_b: 1, prefix: 0 }),
            s.frac() == (30int, 30int),
    {
        Score { matches: 1, transpositions: 0, len_a: 1, len_b: 1, prefix: 0 }
    }

    /// No similarity: `0`.
    pub fn zero() -> (s: Score)
        ensures
            s == (Score { matches: 0, transpositions: 0, len_a: 1, len_b: 1, prefix: 0 }),
            s.frac() == (0int, 10int),
    {
        Score { matches: 0, transpositions: 0, len_a: 1, len_b: 1, prefix: 0 }
    }

    /// Whether the score lies strictly above `t`.
    pub fn exceeds(&self, t: Threshold) -> (b: bool)
        ensures
            b == frac_gt(self.frac(), (t.num as int, t.den as int)),
    {
        let (st, sd) = score_terms(self);
        let (tt, td) = threshold_terms(t);
        terms_gt(&st, &sd, &tt, &td)
    }

    /// Whether `t` lies strictly above the score.
    pub fn below(&self, t: Threshold) -> (b: bool)
        ensures
            b == frac_gt((t.num as int, t.den as int), self.frac()),
    {
        let (st, sd) = score_terms(self);
        let (tt, td) = threshold_terms(t);
        terms_gt(&tt, &td, &st, &sd)
    }

    /// Whether the score is higher than `other`.
    pub fn outscores(&self, other: &Score) -> (b: bool)
        ensures
            b == frac_gt(self.frac(), other.frac()),
    {
        let (xt, xd) = score_terms(self);
        let (yt, yd) = score_terms(other);
        terms_gt(&xt, &xd, &yt, &yd)
    }

    /// Whether the score equals `num / den`.
    pub fn is(&self, num: u32, den: u32) -> (b: bool)
        ensures
            b == frac_eq(self.frac(), (num as int, den as int)),
    {
        let t = Threshold::new(num, den);
        !self.exceeds(t) && !self.below(t)
    }
}

/// Whether entry `id` may be reported as a fuzzy match of `q`: a live entry
/// (not a phrase when `skip_phrases`), scoring strictly above `t`.
pub open spec fn fuzzy_candidate(d: Dictionary, q: Seq<char>, t: Threshold, skip_phrases: bool, id: int) -> bool {
    &&& 0 < q.len()
    &&& t.num < t.den
    &&& 0 <= id < d.entries().len()
    &&& 0 < d.entries()[id].0.len()
    &&& !(skip_phrases && d.token_counts()[id] > 1)
    &&& frac_gt(jw_frac(q, d.entries()[id].0), (t.num as int, t.den as int))
}

/// Whether candidate `a` ranks above candidate `b`: a higher score, then a
/// shorter entry, then an older entry.
pub open spec fn outranks(d: Dictionary, q: Seq<char>, a: int, b: int) -> bool {
    let sa = jw_frac(q, d.entries()[a].0);
    let sb = jw_frac(q, d.entries()[b].0);
    ||| frac_gt(sa, sb)
    ||| frac_eq(sa, sb) && d.entries()[a].0.len() < d.entries()[b].0.len()
    ||| frac_eq(sa, sb) && d.entries()[a].0.len() == d.entries()[b].0.len() && a < b
}

/// Whether `id` is the candidate that outranks every other candidate.
pub open spec fn is_best(d: Dictionary, q: Seq<char>, t: Threshold, skip_phrases: bool, id: int) -> bool {
    &&& fuzzy_candidate(d, q, t, skip_phrases, id)
    &&& forall|j: int| j != id && #[trigger] fuzzy_candidate(d, q, t, skip_phrases, j) ==> outranks(d, q, id, j)
}

/// The best fuzzy match of `q`, if any entry is a candidate.
pub open spec fn fuzzy_best(d: Dictionary, q: Seq<char>, t: Threshold, skip_phrases: bool) -> Option<int> {
    if exists|id: int| is_best(d, q, t, skip_phrases, id) {
        Some(choose|id: int| is_best(d, q, t, skip_phrases, id))
    } else {
        None
    }
}

/// Ranking of candidates is transitive.
pub proof fn lemma_outranks_transitive(d: Dictionary, q: Seq<char>, t: Threshold, sp: bool, a: int, b: int, c: int)
    requires
        fuzzy_candidate(d, q, t, sp, a),
        fuzzy_candidate(d, q, t, sp, b),
        fuzzy_candidate(d, q, t, sp, c),
        outranks(d, q, a, b),
        outranks(d, q, b, c),
    ensures
        outranks(d, q, a, c),
{
    lemma_jw_frac_pos(q, d.entries()[a].0);
    lemma_jw_frac_pos(q, d.entries()[b].0);
    lemma_jw_frac_pos(q, d.entries()[c].0);
    lemma_frac_trans(jw_frac(q, d.entries()[a].0), jw_frac(q, d.entries()[b].0), jw_frac(q, d.entries()[c].0));
}

/// Of two different candidates, one outranks the other.
proof fn lemma_outranks_total(d: Dictionary, q: Seq<char>, a: int, b: int)
    requires
        a != b,
    ensures
        outranks(d, q, a, b) || outranks(d, q, b, a),
{
    let sa = jw_frac(q, d.entries()[a].0);
    let sb = jw_frac(q, d.entries()[b].0);
    let x = sa.0 * sb.1;
    let y = sb.0 * sa.1;
    assert(frac_gt(sa, sb) == (x > y));
    assert(frac_gt(sb, sa) == (y > x));
    assert(frac_eq(sa, sb) == (x == y));
    assert(frac_eq(sb, sa) == (y == x));
}

/// Whether `b` is a candidate below `n` that ranks above every other
/// candidate below `n`.
pub open spec fn tops(cand: spec_fn(int) -> bool, above: spec_fn(int, int) -> bool, n: int, b: int) -> bool {
    &&& 0 <= b < n
    &&& cand(b)
    &&& forall|j: int| 0 <= j < n && j != b && #[trigger] cand(j) ==> above(b, j)
}

/// Among the ids below `n`, if any is a candidate, one ranks above every
/// other candidate, for a ranking that is total and transitive on
/// candidates.
proof fn lemma_best_below(cand: spec_fn(int) -> bool, above: spec_fn(int, int) -> bool, n: int)
    requires
        0 <= n,
        forall|a: int, b: int| a != b && #[trigger] cand(a) && #[trigger] cand(b) ==> above(a, b) || above(b, a),
        forall|a: int, b: int, c: int| #![trigger above(a, c), above(a, b), above(b, c)]
            cand(a) && cand(b) && cand(c) && above(a, b) && above(b, c) ==> above(a, c),
    ensures
        (exists|id: int| 0 <= id < n && #[trigger] cand(id)) ==> exists|b: int| #[trigger] tops(cand, above, n, b),
    decreases n,
{
    if n > 0 {
        lemma_best_below(cand, above, n - 1);
        let c = n - 1;
        if exists|id: int| 0 <= id < n - 1 && #[trigger] cand(id) {
            let b = choose|b: int| #[trigger] tops(cand, above, n - 1, b);
            assert(tops(cand, above, n - 1, b));
            if cand(c) && !above(b, c) {
                assert(above(c, b));
                assert forall|j: int| 0 <= j < n && j != c && #[trigger] cand(j) implies above(c, j) by {
                    if j != b {
                        assert(above(b, j));
                        assert(above(c, j));
                    }
                }
                assert(tops(cand, above, n, c));
            } else {
                assert(tops(cand, above, n, b));
            }
        } else if cand(c) {
            assert(tops(cand, above, n, c));
        }
    }
}

/// The fuzzy search is a scan of the whole dictionary: it finds a match
/// exactly when some entry scores above the threshold, and then the entry
/// that outranks every other such entry (a higher score, then a shorter
/// entry, then an older one).
pub proof fn law_fuzzy_best_is_brute_force(d: Dictionary, q: Seq<char>, t: Threshold, sp: bool)
    ensures
        (exists|id: int| #[trigger] fuzzy_candidate(d, q, t, sp, id)) <==> fuzzy_best(d, q, t, sp) is Some,
        fuzzy_best(d, q, t, sp) matches Some(id) ==> is_best(d, q, t, sp, id),
{
    if exists|id: int| #[trigger] fuzzy_candidate(d, q, t, sp, id) {
        let id = choose|id: int| #[trigger] fuzzy_candidate(d, q, t, sp, id);
        let n = d.entries().len() as int;
        assert(0 <= id < n);
        let cand = |i: int| fuzzy_candidate(d, q, t, sp, i);
        let above = |a: int, b: int| outranks(d, q, a, b);
        assert forall|a: int, b: int| a != b && #[trigger] cand(a) && #[trigger] cand(b) implies above(a, b) || above(b, a) by {
            lemma_outranks_total(d, q, a, b);
        }
        assert forall|a: int, b: int, c: int| #![trigger above(a, c), above(a, b), above(b, c)]
            cand(a) && cand(b) && cand(c) && above(a, b) && above(b, c) implies above(a, c) by {
            lemma_outranks_transitive(d, q, t, sp, a, b, c);
        }
        assert(cand(id));
        lemma_best_below(cand, above, n);
        let b = choose|b: int| #[trigger] tops(cand, above, n, b);
        assert(tops(cand, above, n, b));
        assert forall|j: int| j != b && #[trigger] fuzzy_candidate(d, q, t, sp, j) implies outranks(d, q, b, j) by {
            assert(cand(j));
        }
        assert(is_best(d, q, t, sp, b));
    }
}

/// At most one candidate outranks all others.
pub proof fn lemma_best_unique(d: Dictionary, q: Seq<char>, t: Threshold, sp: bool, a: int, b: int)
    requires
        is_best(d, q, t, sp, a),
        is_best(d, q, t, sp, b),
    ensures
        a == b,
{
    if a != b {
        assert(fuzzy_candidate(d, q, t, sp, b));
        assert(outranks(d, q, a, b));
        assert(fuzzy_candidate(d, q, t, sp, a));
        assert(outranks(d, q, b, a));
    }
}

/// The best fuzzy match of `q` among the dictionary's entries, with its
/// score: the highest-scoring candidate above `t`, ties going to the shorter
/// and then the older entry.
///
/// Entries whose score provably cannot exceed `t` are skipped before any
/// Jaro-Winkler computation: matches are bounded by both lengths and by the
/// characters each side's character-set mask admits, and the similarity by
/// `0.4 + 0.6 * (m/|q| + m/|e| + 1) / 3` for that bound `m`.
pub fn best_fuzzy(d: &Dictionary, q: &[char], t: Threshold, skip_phrases: bool) -> (r: Option<(usize, Score)>)
    ensures
        match r {
            Some((id, s)) => fuzzy_best(*d, q@, t, skip_phrases) == Some(id as int) && s == jw_score(
                q@,
                d.entries()[id as int].0,
            ) && s.frac() == jw_frac(q@, d.entries()[id as int].0),
            None => fuzzy_best(*d, q@, t, skip_phrases) is None,
        },
{
    if q.len() == 0 || t.num >= t.den {
        proof {
            assert forall|id: int| !is_best(*d, q@, t, skip_phrases, id) by {}
        }
        return None;
    }
    let n = d.capacity();
    let q_mask = charset_mask_chars(q);
    let mut best: Option<(usize, Score, usize)> = None;
    let mut id: usize = 0;
    while id < n
        invariant
            n == d.entries().len(),
            id <= n,
            q_mask == charset_of(q@),
            0 < q@.len(),
            t.num < t.den,
            match best {
                Some((b, bs, bl)) => {
                    &&& b < id
                    &&& fuzzy_candidate(*d, q@, t, skip_phrases, b as int)
                    &&& bs == jw_score(q@, d.entries()[b as int].0)
                    &&& bs.frac() == jw_frac(q@, d.entries()[b as int].0)
                    &&& bl == d.entries()[b as int].0.len()
                    &&& forall|j: int| 0 <= j < id && j != b && #[trigger] fuzzy_candidate(*d, q@, t, skip_phrases, j)
                        ==> outranks(*d, q@, b as int, j)
                },
                None => forall|j: int| 0 <= j < id ==> !#[trigger] fuzzy_candidate(*d, q@, t, skip_phrases, j),
            },
        decreases n - id,
    {
        let e = d.entry(id);
        let ghost ef = d.entries()[id as int].0;
        if e.char_len > 0 && !(skip_phrases && e.token_count > 1) {
            proof {
                lemma_matches_ceiling(q@, ef);
                lemma_jw_frac_pos(q@, ef);
                let (ql, el) = (q@.len() as int, ef.len() as int);
                assert(10 * ql * el > 0) by (nonlinear_arith)
                    requires
                        ql > 0,
                        el > 0,
                ;
            }
            // Cheap side first: how many of the query's characters can match at all.
            let d_qe = count_in_mask(q, e.charset);
            let cheap_skip = if e.char_len < 65535 {
                let e_len = e.char_len as usize;
                let m1 = min_usize(min_usize(q.len(), e_len), d_qe);
                !bound_exceeds(m1, q.len(), e_len, t)
            } else {
                false
            };
            if cheap_skip {
                proof {
                    let m1 = if q@.len() < ef.len() { q@.len() } else { ef.len() };
                    let m1 = if m1 < count_in(q@, charset_of(ef)) { m1 } else { count_in(q@, charset_of(ef)) };
                    lemma_jw_bound(q@, ef, m1 as int);
                    lemma_frac_le_trans(
                        jw_frac(q@, ef),
                        jw_bound(m1 as int, q@.len() as int, ef.len() as int),
                        (t.num as int, t.den as int),
                    );
                }
                assert(!fuzzy_candidate(*d, q@, t, skip_phrases, id as int));
            } else {
                let chars = to_chars(e.form.as_str());
                let e_len = chars.len();
                let d_eq = count_in_mask(chars.as_slice(), q_mask);
                let m_ub = min_usize(min_usize(min_usize(q.len(), e_len), d_qe), d_eq);
                if !bound_exceeds(m_ub, q.len(), e_len, t) {
                    proof {
                        lemma_jw_bound(q@, ef, m_ub as int);
                        lemma_frac_le_trans(
                            jw_frac(q@, ef),
                            jw_bound(m_ub as int, q@.len() as int, ef.len() as int),
                            (t.num as int, t.den as int),
                        );
                    }
                    assert(!fuzzy_candidate(*d, q@, t, skip_phrases, id as int));
                } else {
                    let s = jaro_winkler(q, chars.as_slice());
                    if s.exceeds(t) {
                        assert(fuzzy_candidate(*d, q@, t, skip_phrases, id as int));
                        match best {
                            None => {
                                best = Some((id, s, e_len));
                            },
                            Some((b, bs, bl)) => {
                                let gt = s.outscores(&bs);
                                let eq = !gt && !bs.outscores(&s);
                                proof {
                                    lemma_jw_frac_pos(q@, d.entries()[b as int].0);
                                }
                                if gt || (eq && e_len < bl) {
                                    assert(outranks(*d, q@, id as int, b as int));
                                    proof {
                                        assert forall|j: int| 0 <= j < id + 1 && j != id && #[trigger] fuzzy_candidate(
                                            *d,
                                            q@,
                                            t,
                                            skip_phrases,
                                            j,
                                        ) implies outranks(*d, q@, id as int, j) by {
                                            if j != b {
                                                lemma_outranks_transitive(*d, q@, t, skip_phrases, id as int, b as int, j);
                                            }
                                        }
                                    }
                                    best = Some((id, s, e_len));
                                } else {
                                    assert(outranks(*d, q@, b as int, id as int));
                                }
                            },
                        }
                    } else {
                        assert(!fuzzy_candidate(*d, q@, t, skip_phrases, id as int));
                    }
                }
            }
        } else {
            assert(!fuzzy_candidate(*d, q@, t, skip_phrases, id as int));
        }
        id += 1;
    }
    match best {
        None => {
            proof {
                assert forall|x: int| !is_best(*d, q@, t, skip_phrases, x) by {}
            }
            None
        },
        Some((b, bs, _)) => {
            proof {
                assert(is_best(*d, q@, t, skip_phrases, b as int));
                let c = choose|x: int| is_best(*d, q@, t, skip_phrases, x);
                lemma_best_unique(*d, q@, t, skip_phrases, b as int, c);
            }
            Some((b, bs))
        },
    }
}

/// With phrases on, a single token is never fuzzy-matched against a
/// multi-word entry: the best fuzzy match found when phrases are skipped is
/// always an entry of one token.
pub proof fn law_fuzzy_skips_phrases(d: Dictionary, q: Seq<char>, t: Threshold)
    ensures
        fuzzy_best(d, q, t, true) matches Some(id) ==> 0 <= id < d.entries().len() && d.token_counts()[id] <= 1,
{
    if fuzzy_best(d, q, t, true) is Some {
        let id = fuzzy_best(d, q, t, true)->0;
        assert(is_best(d, q, t, true, id));
    }
}

/// The fuzzy search, stated over similarities: it needs a non-empty query
/// and a threshold below 1; it finds an entry exactly when some live entry
/// (of one token, when phrases are skipped) scores above the threshold, and
/// the entry it finds is such an entry that scores at least as high as every
/// other, ties going to the shorter and then the older entry.
pub proof fn law_fuzzy_best_ranks(d: Dictionary, q: Seq<char>, t: Threshold, sp: bool)
    ensures
        fuzzy_best(d, q, t, sp) matches Some(id) ==> {
            let e = d.entries();
            let s = jw_frac(q, e[id].0);
            &&& 0 < q.len() && t.num < t.den
            &&& 0 <= id < e.len() && e[id].0.len() > 0 && !(sp && d.token_counts()[id] > 1)
            &&& frac_gt(s, (t.num as int, t.den as int))
            &&& forall|j: int|
                0 <= j < e.len() && j != id && e[j].0.len() > 0 && !(sp && d.token_counts()[j] > 1) && frac_gt(
                    #[trigger] jw_frac(q, e[j].0),
                    (t.num as int, t.den as int),
                ) ==> {
                    ||| frac_gt(s, jw_frac(q, e[j].0))
                    ||| frac_eq(s, jw_frac(q, e[j].0)) && e[id].0.len() < e[j].0.len()
                    ||| frac_eq(s, jw_frac(q, e[j].0)) && e[id].0.len() == e[j].0.len() && id < j
                }
        },
        (0 < q.len() && t.num < t.den && exists|j: int|
            0 <= j < d.entries().len() && d.entries()[j].0.len() > 0 && !(sp && d.token_counts()[j] > 1) && frac_gt(
                #[trigger] jw_frac(q, d.entries()[j].0),
                (t.num as int, t.den as int),
            )) ==> fuzzy_best(d, q, t, sp) is Some,
{
    law_fuzzy_best_is_brute_force(d, q, t, sp);
    if fuzzy_best(d, q, t, sp) is Some {
        let id = fuzzy_best(d, q, t, sp)->0;
        assert(is_best(d, q, t, sp, id));
        assert forall|j: int|
            0 <= j < d.entries().len() && j != id && d.entries()[j].0.len() > 0 && !(sp && d.token_counts()[j] > 1) && frac_gt(
                #[trigger] jw_frac(q, d.entries()[j].0),
                (t.num as int, t.den as int),
            ) implies outranks(d, q, id, j) by {
            assert(fuzzy_candidate(d, q, t, sp, j));
        }
    }
    if 0 < q.len() && t.num < t.den && exists|j: int|
        0 <= j < d.entries().len() && d.entries()[j].0.len() > 0 && !(sp && d.token_counts()[j] > 1) && frac_gt(
            #[trigger] jw_frac(q, d.entries()[j].0),
            (t.num as int, t.den as int),
        ) {
        let j = choose|j: int|
            0 <= j < d.entries().len() && d.entries()[j].0.len() > 0 && !(sp && d.token_counts()[j] > 1) && frac_gt(
                #[trigger] jw_frac(q, d.entries()[j].0),
                (t.num as int, t.den as int),
            );
        assert(fuzzy_candidate(d, q, t, sp, j));
    }
}

} // verus!
