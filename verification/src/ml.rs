//! The parts of the toxicity model's setup and of the hybrid filter that
//! decide something: label names, the activation, the load options, and
//! whether the rules answer alone. Running the model is the application's
//! business.
use vstd::prelude::*;
use crate::fuzzy::{frac_gt, Score};
use crate::matcher::Match;
use crate::options::Threshold;
use crate::text::{comma_joined, from_chars, join_commas, str_eq, strings_view, to_chars};

verus! {

/// Longest input in tokens. Matches the Python side and the training run.
pub const DEFAULT_MAX_LENGTH: usize = 128;

/// Which half of the hybrid filter produced the verdict.
#[derive(Debug, Clone, Copy, PartialEq, Eq)]
pub enum Decision {
    /// A dictionary hit the rules were sure of; the model was not called.
    Rules,
    /// The model was asked.
    Model,
}

/// How logits become probabilities.
#[derive(Debug, Clone, Copy, PartialEq, Eq)]
pub enum Activation {
    /// One independent probability per axis: the multi-label model.
    Sigmoid,
    /// Probabilities across mutually exclusive classes: the pre-3.1 binary model.
    Softmax,
}

/// Options for loading a model.
#[derive(Debug)]
pub struct ToxicityModelBuilder {
    pub dir: String,
    pub max_length: usize,
    pub threads: Option<usize>,
}

impl ToxicityModelBuilder {
    /// Load options for the model directory `dir`: the default input length
    /// and the runtime's own thread count.
    pub fn new(dir: &str) -> (b: Self)
        ensures
            b.dir@ == dir@,
            b.max_length == DEFAULT_MAX_LENGTH,
            b.threads is None,
    {
        ToxicityModelBuilder { dir: dir.to_string(), max_length: DEFAULT_MAX_LENGTH, threads: None }
    }

    /// Longest input in tokens (default [`DEFAULT_MAX_LENGTH`]).
    pub fn max_length(self, tokens: usize) -> (b: Self)
        ensures
            b.dir == self.dir,
            b.max_length == tokens,
            b.threads == self.threads,
    {
        ToxicityModelBuilder { max_length: tokens, ..self }
    }

    /// Threads ONNX Runtime may use for one run. Defaults to its own choice.
    pub fn threads(self, threads: usize) -> (b: Self)
        ensures
            b.dir == self.dir,
            b.max_length == self.max_length,
            b.threads == Some(threads),
    {
        ToxicityModelBuilder { threads: Some(threads), ..self }
    }
}

// -- labels -------------------------------------------------------------------

/// The value of an ASCII digit.
pub open spec fn digit_value(c: char) -> nat {
    (c as nat - '0' as nat) as nat
}

/// The number the decimal digits `s` spell.
pub open spec fn decimal_value(s: Seq<char>) -> nat
    decreases s.len(),
{
    if s.len() == 0 {
        0
    } else {
        decimal_value(s.drop_last()) * 10 + digit_value(s.last())
    }
}

/// The digits part of an unsigned number: the text after an optional `+`.
pub open spec fn unsigned_digits(s: Seq<char>) -> Seq<char> {
    if s.len() > 0 && s[0] == '+' {
        s.drop_first()
    } else {
        s
    }
}

/// Whether every character is an ASCII digit.
pub open spec fn all_digits(d: Seq<char>) -> bool {
    forall|i: int| 0 <= i < d.len() ==> '0' <= #[trigger] d[i] && d[i] <= '9'
}

/// What `str::parse::<usize>` gives: an optional `+`, then one or more
/// ASCII digits, whose value fits.
pub open spec fn parse_usize_spec(s: Seq<char>) -> Option<nat> {
    let digits = unsigned_digits(s);
    if digits.len() == 0 || !all_digits(digits) {
        None
    } else if decimal_value(digits) > usize::MAX {
        None
    } else {
        Some(decimal_value(digits))
    }
}

proof fn lemma_decimal_prefix(s: Seq<char>, k: int)
    requires
        0 <= k <= s.len(),
        forall|i: int| 0 <= i < s.len() ==> '0' <= #[trigger] s[i] && s[i] <= '9',
    ensures
        decimal_value(s.take(k)) <= decimal_value(s),
    decreases s.len() - k,
{
    if k < s.len() {
        lemma_decimal_prefix(s, k + 1);
        assert(s.take(k + 1).drop_last() =~= s.take(k));
    } else {
        assert(s.take(k) =~= s);
    }
}

/// `str::parse::<usize>`, written out.
pub fn parse_usize(s: &str) -> (r: Option<usize>)
    ensures
        match r {
            Some(n) => parse_usize_spec(s@) == Some(n as nat),
            None => parse_usize_spec(s@) is None,
        },
{
    let chars = to_chars(s);
    let start: usize = if chars.len() > 0 && chars[0] == '+' {
        1
    } else {
        0
    };
    let ghost digits = chars@.skip(start as int);
    assert(digits == unsigned_digits(s@));
    if start >= chars.len() {
        assert(digits.len() == 0);
        return None;
    }
    let mut i: usize = start;
    while i < chars.len()
        invariant
            start <= i <= chars@.len(),
            chars@ == s@,
            digits == chars@.skip(start as int),
            digits == unsigned_digits(s@),
            forall|j: int| 0 <= j < i - start ==> '0' <= #[trigger] digits[j] && digits[j] <= '9',
        decreases chars@.len() - i,
    {
        assert(digits[i - start] == chars@[i as int]);
        if !('0' <= chars[i] && chars[i] <= '9') {
            assert(!('0' <= digits[i - start] && digits[i - start] <= '9'));
            assert(parse_usize_spec(s@) is None);
            return None;
        }
        i += 1;
    }
    let mut acc: usize = 0;
    let mut k: usize = start;
    assert(digits.take(0) =~= Seq::<char>::empty());
    while k < chars.len()
        invariant
            start <= k <= chars@.len(),
            chars@ == s@,
            digits == chars@.skip(start as int),
            digits == unsigned_digits(s@),
            forall|j: int| 0 <= j < digits.len() ==> '0' <= #[trigger] digits[j] && digits[j] <= '9',
            acc as nat == decimal_value(digits.take(k - start)),
        decreases chars@.len() - k,
    {
        proof {
            assert(digits.take(k + 1 - start).drop_last() =~= digits.take(k - start));
            assert(digits.take(k + 1 - start).last() == chars@[k as int]);
            assert(digits[k - start] == chars@[k as int]);
        }
        let d = (chars[k] as u32 - '0' as u32) as usize;
        assert(d as nat == digit_value(chars@[k as int]));
        match acc.checked_mul(10) {
            Some(m) => match m.checked_add(d) {
                Some(v) => {
                    acc = v;
                },
                None => {
                    proof {
                        lemma_decimal_prefix(digits, k + 1 - start);
                    }
                    return None;
                },
            },
            None => {
                proof {
                    lemma_decimal_prefix(digits, k + 1 - start);
                }
                return None;
            },
        }
        k += 1;
    }
    assert(digits.take(k - start) =~= digits);
    Some(acc)
}

/// The labels of `id2label` whose key is an index, as `(index, label)`, in
/// order.
pub open spec fn indexed_labels(pairs: Seq<(Seq<char>, Seq<char>)>) -> Seq<(nat, Seq<char>)>
    decreases pairs.len(),
{
    if pairs.len() == 0 {
        seq![]
    } else {
        let prev = indexed_labels(pairs.drop_last());
        match parse_usize_spec(pairs.last().0) {
            Some(i) => prev.push((i, pairs.last().1)),
            None => prev,
        }
    }
}

/// Index from `i` on at which `x` is inserted into `s`, after every pair
/// with an index no larger.
pub open spec fn label_insert_pos(s: Seq<(nat, Seq<char>)>, x: (nat, Seq<char>), i: int) -> int
    decreases s.len() - i,
{
    if i < 0 || i >= s.len() {
        s.len() as int
    } else if x.0 < s[i].0 {
        i
    } else {
        label_insert_pos(s, x, i + 1)
    }
}

/// Stable sort by index.
pub open spec fn sort_by_index(s: Seq<(nat, Seq<char>)>) -> Seq<(nat, Seq<char>)>
    decreases s.len(),
{
    if s.len() == 0 {
        s
    } else {
        let p = sort_by_index(s.drop_last());
        p.insert(label_insert_pos(p, s.last(), 0), s.last())
    }
}

/// Label names ordered by their output index; `None` when the config names
/// none at all.
pub open spec fn ordered_labels_spec(id2label: Seq<(Seq<char>, Seq<char>)>) -> Option<Seq<Seq<char>>> {
    if id2label.len() == 0 {
        None
    } else {
        Some(sort_by_index(indexed_labels(id2label)).map_values(|p: (nat, Seq<char>)| p.1))
    }
}

proof fn lemma_label_insert_pos(s: Seq<(nat, Seq<char>)>, x: (nat, Seq<char>), i: int)
    requires
        0 <= i <= s.len(),
    ensures
        i <= label_insert_pos(s, x, i) <= s.len(),
    decreases s.len() - i,
{
    if i < s.len() && !(x.0 < s[i].0) {
        lemma_label_insert_pos(s, x, i + 1);
    }
}

proof fn lemma_sort_by_index_len(s: Seq<(nat, Seq<char>)>)
    ensures
        sort_by_index(s).len() == s.len(),
    decreases s.len(),
{
    if s.len() > 0 {
        lemma_sort_by_index_len(s.drop_last());
        lemma_label_insert_pos(sort_by_index(s.drop_last()), s.last(), 0);
    }
}

/// Label names ordered by their output index, from `id2label` pairs of
/// (index text, label); keys that are not indices are skipped.
pub fn ordered_labels(id2label: &[(String, String)]) -> (r: Option<Vec<String>>)
    ensures
        match r {
            Some(v) => ordered_labels_spec(id2label@.map_values(|p: (String, String)| (p.0@, p.1@))) == Some(
                strings_view(v@),
            ),
            None => ordered_labels_spec(id2label@.map_values(|p: (String, String)| (p.0@, p.1@))) is None,
        },
{
    let ghost pv = id2label@.map_values(|p: (String, String)| (p.0@, p.1@));
    if id2label.len() == 0 {
        return None;
    }
    let mut sorted: Vec<(usize, String)> = Vec::new();
    let mut i: usize = 0;
    while i < id2label.len()
        invariant
            i <= id2label@.len(),
            pv == id2label@.map_values(|p: (String, String)| (p.0@, p.1@)),
            sorted@.map_values(|p: (usize, String)| (p.0 as nat, p.1@)) == sort_by_index(indexed_labels(pv.take(i as int))),
        decreases id2label@.len() - i,
    {
        proof {
            assert(pv.take(i + 1).drop_last() =~= pv.take(i as int));
            assert(pv.take(i + 1).last() == pv[i as int]);
        }
        match parse_usize(id2label[i].0.as_str()) {
            Some(index) => {
                let ghost sv = sorted@.map_values(|p: (usize, String)| (p.0 as nat, p.1@));
                let ghost x = (index as nat, id2label@[i as int].1@);
                let mut j: usize = 0;
                while j < sorted.len() && !(index < sorted[j].0)
                    invariant
                        j <= sorted@.len(),
                        sv == sorted@.map_values(|p: (usize, String)| (p.0 as nat, p.1@)),
                        x.0 == index as nat,
                        label_insert_pos(sv, x, 0) == label_insert_pos(sv, x, j as int),
                    decreases sorted@.len() - j,
                {
                    assert(sv[j as int].0 == sorted@[j as int].0 as nat);
                    j += 1;
                }
                proof {
                    if j < sorted@.len() {
                        assert(sv[j as int].0 == sorted@[j as int].0 as nat);
                    }
                    assert(label_insert_pos(sv, x, j as int) == j as int);
                    assert(pv[i as int].0 == id2label@[i as int].0@);
                    let prev = indexed_labels(pv.take(i as int));
                    assert(indexed_labels(pv.take(i + 1)) == prev.push(x));
                    assert(prev.push(x).drop_last() =~= prev);
                    assert(sort_by_index(prev.push(x)) == sort_by_index(prev).insert(
                        label_insert_pos(sort_by_index(prev), x, 0),
                        x,
                    ));
                }
                let label = id2label[i].1.clone();
                sorted.insert(j, (index, label));
                assert(sorted@.map_values(|p: (usize, String)| (p.0 as nat, p.1@)) =~= sv.insert(j as int, x));
            },
            None => {
                assert(indexed_labels(pv.take(i + 1)) == indexed_labels(pv.take(i as int)));
            },
        }
        i += 1;
    }
    assert(pv.take(id2label@.len() as int) =~= pv);
    let mut out: Vec<String> = Vec::new();
    let mut k: usize = 0;
    while k < sorted.len()
        invariant
            k <= sorted@.len(),
            out@.len() == k,
            forall|q: int| 0 <= q < k ==> (#[trigger] out@[q])@ == sorted@[q].1@,
        decreases sorted@.len() - k,
    {
        out.push(sorted[k].1.clone());
        k += 1;
    }
    let ghost sv = sorted@.map_values(|p: (usize, String)| (p.0 as nat, p.1@));
    assert(strings_view(out@) =~= sv.map_values(|p: (nat, Seq<char>)| p.1));
    Some(out)
}

/// The decimal digits of `n`.
pub open spec fn decimal_string(n: nat) -> Seq<char>
    decreases n,
{
    if n < 10 {
        seq![(('0' as nat) + n) as char]
    } else {
        decimal_string(n / 10).push((('0' as nat) + n % 10) as char)
    }
}

/// The decimal digits of `n`.
pub fn decimal_chars(n: usize) -> (r: Vec<char>)
    ensures
        r@ == decimal_string(n as nat),
    decreases n,
{
    if n < 10 {
        let c = ((('0' as u8) + (n as u8)) as char);
        let mut v: Vec<char> = Vec::new();
        v.push(c);
        assert(v@ =~= decimal_string(n as nat));
        v
    } else {
        let mut v = decimal_chars(n / 10);
        let c = ((('0' as u8) + ((n % 10) as u8)) as char);
        v.push(c);
        v
    }
}

/// Names for a model whose config provides none: `clean` and `toxic` for
/// the old binary head, else `label_0`, `label_1` and so on.
pub open spec fn fallback_labels_spec(width: nat) -> Seq<Seq<char>> {
    if width == 2 {
        seq!["clean"@, "toxic"@]
    } else {
        Seq::new(width, |i: int| "label_"@ + decimal_string(i as nat))
    }
}

/// Names for a model whose config provides none.
pub fn fallback_labels(width: usize) -> (r: Vec<String>)
    ensures
        strings_view(r@) == fallback_labels_spec(width as nat),
{
    let mut r: Vec<String> = Vec::new();
    if width == 2 {
        r.push("clean".to_string());
        r.push("toxic".to_string());
        assert(strings_view(r@) =~= fallback_labels_spec(width as nat));
        return r;
    }
    let mut i: usize = 0;
    while i < width
        invariant
            i <= width,
            width != 2,
            r@.len() == i,
            forall|k: int| 0 <= k < i ==> (#[trigger] r@[k])@ == "label_"@ + decimal_string(k as nat),
        decreases width - i,
    {
        let mut chars = to_chars("label_");
        let mut digits = decimal_chars(i);
        chars.append(&mut digits);
        let name = from_chars(chars.as_slice());
        assert(name@ == "label_"@ + decimal_string(i as nat));
        r.push(name);
        i += 1;
    }
    assert(strings_view(r@) =~= fallback_labels_spec(width as nat));
    r
}

/// The axis names joined with `", "`, for printing.
pub fn label_list(labels: &[String]) -> (r: String)
    ensures
        r@ == comma_joined(strings_view(labels@)),
{
    join_commas(labels)
}

/// How logits become probabilities: as the config says, else softmax for a
/// two-label head and sigmoid otherwise.
pub open spec fn activation_spec(problem_type: Option<Seq<char>>, labels: nat) -> Activation {
    if problem_type == Some("multi_label_classification"@) {
        Activation::Sigmoid
    } else if problem_type == Some("single_label_classification"@) {
        Activation::Softmax
    } else if labels == 2 {
        Activation::Softmax
    } else {
        Activation::Sigmoid
    }
}

/// How logits become probabilities.
pub fn activation_for(problem_type: Option<&str>, labels: usize) -> (a: Activation)
    ensures
        a == activation_spec(
            match problem_type {
                Some(p) => Some(p@),
                None => None,
            },
            labels as nat,
        ),
{
    match problem_type {
        Some(p) => {
            if str_eq(p, "multi_label_classification") {
                return Activation::Sigmoid;
            }
            if str_eq(p, "single_label_classification") {
                return Activation::Softmax;
            }
        },
        None => {},
    }
    if labels == 2 {
        Activation::Softmax
    } else {
        Activation::Sigmoid
    }
}

// -- the hybrid verdict ---------------------------------------------------------

/// The best rule score: the highest score among the matches, `0` when there
/// are none.
pub open spec fn best_rule_score(ms: Seq<Match>) -> Score
    decreases ms.len(),
{
    if ms.len() == 0 {
        Score { matches: 0, transpositions: 0, len_a: 1, len_b: 1, prefix: 0 }
    } else {
        let prev = best_rule_score(ms.drop_last());
        if frac_gt(ms.last().score.frac(), prev.frac()) {
            ms.last().score
        } else {
            prev
        }
    }
}

/// What the word rules conclude: the best rule score, and whether that
/// settles the question, which it does once the score reaches `certain_at`.
pub fn rule_verdict(matches: &[Match], certain_at: Threshold) -> (r: (Score, Decision))
    ensures
        r.0 == best_rule_score(matches@),
        r.1 == if certain_at.den > 0 && !frac_gt((certain_at.num as int, certain_at.den as int), r.0.frac()) {
            Decision::Rules
        } else {
            Decision::Model
        },
{
    let mut best = Score::zero();
    let mut i: usize = 0;
    while i < matches.len()
        invariant
            i <= matches@.len(),
            best == best_rule_score(matches@.take(i as int)),
        decreases matches@.len() - i,
    {
        proof {
            assert(matches@.take(i + 1).drop_last() =~= matches@.take(i as int));
            assert(matches@.take(i + 1).last() == matches@[i as int]);
        }
        let s = matches[i].score;
        if s.outscores(&best) {
            best = s;
        }
        i += 1;
    }
    assert(matches@.take(matches@.len() as int) =~= matches@);
    let certain = certain_at.den > 0 && !best.below(certain_at);
    (best, if certain {
        Decision::Rules
    } else {
        Decision::Model
    })
}

} // verus!

verus! {

/// The positions, in order, of the texts whose verdict is left to the model.
pub open spec fn model_positions(ds: Seq<Decision>) -> Seq<int>
    decreases ds.len(),
{
    if ds.len() == 0 {
        seq![]
    } else {
        let prev = model_positions(ds.drop_last());
        match ds.last() {
            Decision::Model => prev.push(ds.len() - 1),
            Decision::Rules => prev,
        }
    }
}

/// The positions of the texts the model must judge, in order: the batch
/// the hybrid filter hands the model, and the slots its scores go back to.
pub fn pending_positions(decisions: &[Decision]) -> (r: Vec<usize>)
    ensures
        r@.map_values(|i: usize| i as int) == model_positions(decisions@),
{
    let mut r: Vec<usize> = Vec::new();
    let mut i: usize = 0;
    while i < decisions.len()
        invariant
            i <= decisions@.len(),
            r@.map_values(|k: usize| k as int) == model_positions(decisions@.take(i as int)),
        decreases decisions@.len() - i,
    {
        proof {
            assert(decisions@.take(i + 1).drop_last() =~= decisions@.take(i as int));
            assert(decisions@.take(i + 1).last() == decisions@[i as int]);
        }
        match decisions[i] {
            Decision::Model => {
                r.push(i);
            },
            Decision::Rules => {},
        }
        i += 1;
        assert(r@.map_values(|k: usize| k as int) =~= model_positions(decisions@.take(i as int)));
    }
    assert(decisions@.take(decisions@.len() as int) =~= decisions@);
    r
}

/// Whether a model output of `got` values is `rows` rows of `width` scores.
pub fn logits_fit(rows: usize, width: usize, got: usize) -> (r: bool)
    ensures
        r == (got == rows * width),
{
    if width == 0 {
        got == 0
    } else {
        let fits = got % width == 0 && got / width == rows;
        proof {
            let (g, w, n) = (got as int, width as int, rows as int);
            if g == n * w {
                vstd::arithmetic::div_mod::lemma_mod_multiples_basic(n, w);
                vstd::arithmetic::div_mod::lemma_div_multiples_vanish(n, w);
                assert(w * n == n * w) by (nonlinear_arith);
            }
            if fits {
                vstd::arithmetic::div_mod::lemma_fundamental_div_mod(g, w);
                assert(g == w * (g / w) + g % w);
                assert(g == n * w) by (nonlinear_arith)
                    requires
                        g == w * n,
                ;
            }
        }
        fits
    }
}

/// Every score, read as a fraction, has a positive denominator.
proof fn lemma_score_frac_pos(s: Score)
    ensures
        s.frac().1 > 0,
{
    let (m, al, bl) = (s.matches as int, s.len_a as int, s.len_b as int);
    if !(al == 0 && bl == 0) && !(m <= 0 || al <= 0 || bl <= 0) {
        assert(3 * al * bl * m > 0) by (nonlinear_arith)
            requires
                al > 0,
                bl > 0,
                m > 0,
        ;
    }
}

/// Every score, read as a fraction, is at least `0`.
proof fn lemma_score_frac_num(s: Score)
    ensures
        s.frac().0 >= 0,
{
    let (m, al, bl) = (s.matches as int, s.len_a as int, s.len_b as int);
    let mt = if s.transpositions as int > m { 0 } else { m - s.transpositions as int };
    if !(al == 0 && bl == 0) && !(m <= 0 || al <= 0 || bl <= 0) {
        assert(m * m * bl + m * m * al + mt * al * bl >= 0) by (nonlinear_arith)
            requires
                al > 0,
                bl > 0,
                m > 0,
                mt >= 0,
        ;
    }
    let (n, d) = crate::fuzzy::jaro_parts(m, s.transpositions as int, al, bl);
    lemma_score_frac_pos(s);
    if 10 * n > 7 * d {
        let p = s.prefix as int;
        let pc = if p > 4 { 4 } else if p < 0 { 0 } else { p };
        assert(n * (10 - pc) + pc * d >= 0) by (nonlinear_arith)
            requires
                n >= 0,
                d >= 0,
                0 <= pc <= 4,
        ;
    }
}

/// The rule score is the highest score among the matches: no match scores
/// above it, it is the score of one of them when there are any, and `0`
/// when there are none.
pub proof fn law_rule_score_is_max(ms: Seq<Match>)
    ensures
        forall|k: int| 0 <= k < ms.len() ==> !frac_gt((#[trigger] ms[k]).score.frac(), best_rule_score(ms).frac()),
        ms.len() > 0 ==> exists|k: int| 0 <= k < ms.len() && crate::fuzzy::frac_eq(
            best_rule_score(ms).frac(),
            (#[trigger] ms[k]).score.frac(),
        ),
        ms.len() == 0 ==> best_rule_score(ms).frac().0 == 0,
    decreases ms.len(),
{
    if ms.len() > 0 {
        let prev = ms.drop_last();
        law_rule_score_is_max(prev);
        let b = best_rule_score(ms);
        let pb = best_rule_score(prev);
        let last = ms.last();
        lemma_score_frac_pos(b);
        lemma_score_frac_pos(pb);
        lemma_score_frac_pos(last.score);
        assert forall|k: int| 0 <= k < ms.len() implies !frac_gt((#[trigger] ms[k]).score.frac(), b.frac()) by {
            lemma_score_frac_pos(ms[k].score);
            if k < ms.len() - 1 {
                assert(ms[k] == prev[k]);
                assert(!frac_gt(prev[k].score.frac(), pb.frac()));
                if frac_gt(last.score.frac(), pb.frac()) {
                    crate::fuzzy::lemma_frac_trans(ms[k].score.frac(), last.score.frac(), pb.frac());
                }
            }
        }
        if prev.len() > 0 && !frac_gt(last.score.frac(), pb.frac()) {
            let k = choose|k: int| 0 <= k < prev.len() && crate::fuzzy::frac_eq(pb.frac(), (#[trigger] prev[k]).score.frac());
            assert(ms[k] == prev[k]);
            assert(crate::fuzzy::frac_eq(b.frac(), ms[k].score.frac()));
        } else if frac_gt(last.score.frac(), pb.frac()) {
            assert(ms[ms.len() - 1] == last);
            assert(crate::fuzzy::frac_eq(b.frac(), ms[ms.len() - 1].score.frac()));
        } else {
            assert(ms[ms.len() - 1] == last);
            assert(pb.frac() == (0int, 10int));
            assert(last.score.frac().0 >= 0) by {
                lemma_score_frac_num(last.score);
            }
            let x = last.score.frac().0;
            let y = last.score.frac().1;
            assert(x >= 0);
            assert(!(x * 10 > 0 * y));
            assert(x * 10 <= 0);
            assert(x == 0) by (nonlinear_arith)
                requires
                    x >= 0,
                    x * 10 <= 0,
            ;
            assert(0 * y == x * 10);
            assert(crate::fuzzy::frac_eq(b.frac(), ms[ms.len() - 1].score.frac()));
        }
    }
}

} // verus!
