//! The matching pipeline.
//!
//! The text is split into whitespace-delimited segments, walked once left to
//! right. At each segment with content, a phrase starting there is tried
//! first, then the segment as one unit (exact, then fuzzy, then substring
//! lookup over its candidate forms), then, when enabled, the pieces it splits
//! into on inner punctuation. Spans are character indices until a match is
//! reported, when they become byte offsets.
use vstd::prelude::*;
use crate::dict::{split_space, split_spaces, Dictionary};
use crate::fuzzy::{best_fuzzy, fuzzy_best, jw_score, Score};
use crate::options::{MatchMode, Options, SpanMode};
use crate::processor::TextProcessor;
use crate::substring::{find_substring, substring_hit};
use crate::text::{byte_offset, chars_eq, from_chars, to_chars};
use crate::tokenize::{
    collapse_forms, collapse_forms_spec, leet_form, leet_form_spec, segments, segments_spec, subtokens,
    subtokens_spec, Segment,
};

verus! {

/// How a match was found.
#[derive(Debug, Clone, Copy, PartialEq, Eq)]
pub enum MatchKind {
    /// The token is a dictionary entry.
    Exact,
    /// The token is similar enough to an entry.
    Fuzzy,
    /// Matched after reading digits and symbols as letters.
    Leet,
    /// Matched after collapsing runs of repeated characters.
    Collapsed,
    /// An entry occurs inside the token.
    Substring,
    /// Consecutive tokens matched a multi-word entry.
    Phrase,
}

impl MatchKind {
    /// The kind's name as bindings spell it.
    pub open spec fn name_spec(self) -> Seq<char> {
        match self {
            MatchKind::Exact => "exact"@,
            MatchKind::Fuzzy => "fuzzy"@,
            MatchKind::Leet => "leet"@,
            MatchKind::Collapsed => "collapsed"@,
            MatchKind::Substring => "substring"@,
            MatchKind::Phrase => "phrase"@,
        }
    }

    /// The kind's name: `exact`, `fuzzy`, `leet`, `collapsed`, `substring`
    /// or `phrase`.
    pub fn name(&self) -> (r: &'static str)
        ensures
            r@ == self.name_spec(),
    {
        match self {
            MatchKind::Exact => "exact",
            MatchKind::Fuzzy => "fuzzy",
            MatchKind::Leet => "leet",
            MatchKind::Collapsed => "collapsed",
            MatchKind::Substring => "substring",
            MatchKind::Phrase => "phrase",
        }
    }
}

/// A match before it is reported: a character span of the text, the entry,
/// the similarity and how it was found.
#[derive(Debug, Clone, Copy)]
pub struct Hit {
    pub start: usize,
    pub end: usize,
    pub id: usize,
    pub score: Score,
    pub kind: MatchKind,
}

/// The similarity of every match but a fuzzy one.
pub open spec fn full_score() -> Score {
    Score { matches: 1, transpositions: 0, len_a: 1, len_b: 1, prefix: 0 }
}

// -- resolving overlaps -------------------------------------------------------

/// Whether `x` sorts strictly before `y`: earlier start, then longer.
pub open spec fn sorts_before(x: Hit, y: Hit) -> bool {
    x.start < y.start || (x.start == y.start && x.end > y.end)
}

/// Index from `i` on at which `x` is inserted into `s`: before the first
/// element it sorts before, so equal keys keep their order.
pub open spec fn insert_pos(s: Seq<Hit>, x: Hit, i: int) -> int
    decreases s.len() - i,
{
    if i < 0 || i >= s.len() {
        s.len() as int
    } else if sorts_before(x, s[i]) {
        i
    } else {
        insert_pos(s, x, i + 1)
    }
}

/// Stable insertion sort by start, then by end descending.
pub open spec fn sort_hits(s: Seq<Hit>) -> Seq<Hit>
    decreases s.len(),
{
    if s.len() == 0 {
        s
    } else {
        let p = sort_hits(s.drop_last());
        p.insert(insert_pos(p, s.last(), 0), s.last())
    }
}

/// The hits kept by a left-to-right pass that drops any hit starting
/// before the end of the last one kept, with that end.
pub open spec fn keep_disjoint(s: Seq<Hit>) -> (Seq<Hit>, int)
    decreases s.len(),
{
    if s.len() == 0 {
        (seq![], 0)
    } else {
        let (k, last_end) = keep_disjoint(s.drop_last());
        let m = s.last();
        if k.len() == 0 || m.start >= last_end {
            (k.push(m), m.end as int)
        } else {
            (k, last_end)
        }
    }
}

/// Matches made non-overlapping, preferring the earliest and then the
/// longest.
pub open spec fn resolve_spec(s: Seq<Hit>) -> Seq<Hit> {
    if s.len() < 2 {
        s
    } else {
        keep_disjoint(sort_hits(s)).0
    }
}

/// At most `max` hits, when a maximum is set.
pub open spec fn truncate_spec(s: Seq<Hit>, max: Option<usize>) -> Seq<Hit> {
    match max {
        Some(n) => if n < s.len() {
            s.take(n as int)
        } else {
            s
        },
        None => s,
    }
}

proof fn lemma_sort_len(s: Seq<Hit>)
    ensures
        sort_hits(s).len() == s.len(),
    decreases s.len(),
{
    if s.len() > 0 {
        lemma_sort_len(s.drop_last());
        lemma_insert_pos_bounds(sort_hits(s.drop_last()), s.last(), 0);
    }
}

proof fn lemma_insert_pos_bounds(s: Seq<Hit>, x: Hit, i: int)
    requires
        0 <= i <= s.len(),
    ensures
        i <= insert_pos(s, x, i) <= s.len(),
    decreases s.len() - i,
{
    if i < s.len() && !sorts_before(x, s[i]) {
        lemma_insert_pos_bounds(s, x, i + 1);
    }
}

/// Keep matches non-overlapping, preferring the earliest and then the longest.
fn resolve_overlaps(hits: Vec<Hit>) -> (out: Vec<Hit>)
    ensures
        out@ == resolve_spec(hits@),
{
    if hits.len() < 2 {
        return hits;
    }
    let n = hits.len();
    let mut sorted: Vec<Hit> = Vec::new();
    let mut i: usize = 0;
    while i < n
        invariant
            n == hits@.len(),
            i <= n,
            sorted@ == sort_hits(hits@.take(i as int)),
        decreases n - i,
    {
        let x = hits[i];
        let mut j: usize = 0;
        proof {
            lemma_sort_len(hits@.take(i as int));
        }
        while j < sorted.len() && !(x.start < sorted[j].start || (x.start == sorted[j].start && x.end > sorted[j].end))
            invariant
                j <= sorted@.len(),
                insert_pos(sorted@, x, 0) == insert_pos(sorted@, x, j as int),
            decreases sorted@.len() - j,
        {
            j += 1;
        }
        proof {
            assert(hits@.take(i + 1).drop_last() =~= hits@.take(i as int));
            assert(hits@.take(i + 1).last() == x);
        }
        sorted.insert(j, x);
        i += 1;
    }
    assert(hits@.take(n as int) =~= hits@);
    let mut kept: Vec<Hit> = Vec::new();
    let mut last_end: usize = 0;
    let mut k: usize = 0;
    proof {
        lemma_sort_len(hits@);
    }
    while k < n
        invariant
            n == sorted@.len(),
            k <= n,
            (kept@, last_end as int) == keep_disjoint(sorted@.take(k as int)),
        decreases n - k,
    {
        let m = sorted[k];
        proof {
            assert(sorted@.take(k + 1).drop_last() =~= sorted@.take(k as int));
            assert(sorted@.take(k + 1).last() == m);
        }
        if kept.len() == 0 || m.start >= last_end {
            last_end = m.end;
            kept.push(m);
        }
        k += 1;
    }
    assert(sorted@.take(n as int) =~= sorted@);
    kept
}


// -- one unit -----------------------------------------------------------------

/// The normalized form of `t[s..e]`, empty for an empty span.
pub open spec fn unit_base(p: TextProcessor, t: Seq<char>, s: int, e: int) -> Seq<char> {
    if s < e {
        p.process(t.subrange(s, e))
    } else {
        seq![]
    }
}

/// Candidate forms of a unit, base form first: the leet reading of the raw
/// span when it normalizes to something new, then the collapsed forms.
pub open spec fn forms_spec(p: TextProcessor, t: Seq<char>, s: int, e: int, base: Seq<char>, o: Options) -> Seq<
    (Seq<char>, MatchKind),
> {
    let leet: Seq<(Seq<char>, MatchKind)> = if o.leetspeak {
        match leet_form_spec(t.subrange(s, e)) {
            Some(dec) => if p.process(dec) != base {
                seq![(p.process(dec), MatchKind::Leet)]
            } else {
                seq![]
            },
            None => seq![],
        }
    } else {
        seq![]
    };
    let collapsed: Seq<(Seq<char>, MatchKind)> = if o.collapse_repeats {
        collapse_forms_spec(base).map_values(|f: Seq<char>| (f, MatchKind::Collapsed))
    } else {
        seq![]
    };
    seq![(base, MatchKind::Exact)] + leet + collapsed
}

/// A form worth looking up: non-empty and not whitelisted.
pub open spec fn form_usable(d: Dictionary, f: Seq<char>) -> bool {
    f.len() > 0 && !d.whitelist_set().contains(f)
}

/// The first form from `i` on that is a single-token entry, with its kind.
pub open spec fn exact_from(d: Dictionary, forms: Seq<(Seq<char>, MatchKind)>, i: int) -> Option<(int, MatchKind)>
    decreases forms.len() - i,
{
    if i < 0 || i >= forms.len() {
        None
    } else if form_usable(d, forms[i].0) && d.lookup_spec(forms[i].0) is Some && d.token_counts()[d.lookup_spec(
        forms[i].0,
    )->0] <= 1 {
        Some((d.lookup_spec(forms[i].0)->0, forms[i].1))
    } else {
        exact_from(d, forms, i + 1)
    }
}

/// The kind a fuzzy match of a form of kind `k` reports.
pub open spec fn fuzzy_kind(k: MatchKind) -> MatchKind {
    if k == MatchKind::Exact {
        MatchKind::Fuzzy
    } else {
        k
    }
}

/// The first form from `i` on with a fuzzy match: the entry, the kind and
/// the form.
pub open spec fn fuzzy_from(d: Dictionary, forms: Seq<(Seq<char>, MatchKind)>, o: Options, i: int) -> Option<
    (int, MatchKind, Seq<char>),
>
    decreases forms.len() - i,
{
    if i < 0 || i >= forms.len() {
        None
    } else if form_usable(d, forms[i].0) && fuzzy_best(d, forms[i].0, o.match_threshold, o.phrases) is Some {
        Some((fuzzy_best(d, forms[i].0, o.match_threshold, o.phrases)->0, fuzzy_kind(forms[i].1), forms[i].0))
    } else {
        fuzzy_from(d, forms, o, i + 1)
    }
}

/// What the unit `t[s..e]`, normalized to `base`, matches: an exact entry
/// over its forms, else a fuzzy one when the threshold allows, else an
/// entry inside `base` in substring mode.
pub open spec fn unit_hit(d: Dictionary, p: TextProcessor, t: Seq<char>, o: Options, s: int, e: int, base: Seq<char>) -> Option<Hit> {
    if base.len() == 0 || d.whitelist_set().contains(base) {
        None
    } else {
        let forms = forms_spec(p, t, s, e, base, o);
        match exact_from(d, forms, 0) {
            Some((id, kind)) => Some(Hit { start: s as usize, end: e as usize, id: id as usize, score: full_score(), kind }),
            None => match (if o.match_threshold.is_fuzzy_spec() {
                fuzzy_from(d, forms, o, 0)
            } else {
                None
            }) {
                Some((id, kind, f)) => Some(
                    Hit {
                        start: s as usize,
                        end: e as usize,
                        id: id as usize,
                        score: jw_score(f, d.entries()[id].0),
                        kind,
                    },
                ),
                None => if o.match_mode == MatchMode::Substring && substring_hit(d, base, o.min_substring_len) is Some {
                    Some(
                        Hit {
                            start: s as usize,
                            end: e as usize,
                            id: (substring_hit(d, base, o.min_substring_len)->0) as usize,
                            score: full_score(),
                            kind: MatchKind::Substring,
                        },
                    )
                } else {
                    None
                },
            },
        }
    }
}

/// `(form, kind)` pairs as sequences.
pub open spec fn forms_view(v: Seq<(Vec<char>, MatchKind)>) -> Seq<(Seq<char>, MatchKind)> {
    v.map_values(|x: (Vec<char>, MatchKind)| (x.0@, x.1))
}

/// `t[s..e]`.
fn sub_chars(t: &[char], s: usize, e: usize) -> (v: Vec<char>)
    requires
        s <= e <= t@.len(),
    ensures
        v@ == t@.subrange(s as int, e as int),
{
    let mut v: Vec<char> = Vec::new();
    let mut i: usize = s;
    while i < e
        invariant
            s <= i <= e,
            e <= t@.len(),
            v@ == t@.subrange(s as int, i as int),
        decreases e - i,
    {
        v.push(t[i]);
        i += 1;
        assert(v@ =~= t@.subrange(s as int, i as int));
    }
    v
}

/// The normalized form of `t[s..e]`.
fn unit_base_exec(p: &TextProcessor, t: &[char], s: usize, e: usize) -> (v: Vec<char>)
    requires
        s <= e <= t@.len(),
    ensures
        v@ == unit_base(*p, t@, s as int, e as int),
{
    if s < e {
        let raw = sub_chars(t, s, e);
        p.process_chars(raw.as_slice())
    } else {
        Vec::new()
    }
}

/// Candidate forms for a unit, base form first.
fn build_forms(p: &TextProcessor, t: &[char], s: usize, e: usize, base: &[char], o: Options) -> (out: Vec<
    (Vec<char>, MatchKind),
>)
    requires
        s <= e <= t@.len(),
    ensures
        forms_view(out@) == forms_spec(*p, t@, s as int, e as int, base@, o),
{
    let mut out: Vec<(Vec<char>, MatchKind)> = Vec::new();
    out.push((sub_chars(base, 0, base.len()), MatchKind::Exact));
    assert(base@.subrange(0, base@.len() as int) =~= base@);
    let ghost first = forms_view(out@);
    assert(first =~= seq![(base@, MatchKind::Exact)]);
    if o.leetspeak {
        let raw = sub_chars(t, s, e);
        match leet_form(raw.as_slice()) {
            Some(dec) => {
                let norm = p.process_chars(dec.as_slice());
                if !chars_eq(norm.as_slice(), base) {
                    out.push((norm, MatchKind::Leet));
                }
            },
            None => {},
        }
    }
    let ghost with_leet = forms_view(out@);
    assert(with_leet =~= first + (if o.leetspeak {
        match leet_form_spec(t@.subrange(s as int, e as int)) {
            Some(dec) => if p.process(dec) != base@ {
                seq![(p.process(dec), MatchKind::Leet)]
            } else {
                seq![]
            },
            None => seq![],
        }
    } else {
        seq![]
    }));
    if o.collapse_repeats {
        let cs = collapse_forms(base);
        let ghost csv = cs@.map_values(|e: Vec<char>| e@);
        let mut i: usize = 0;
        while i < cs.len()
            invariant
                i <= cs@.len(),
                csv == cs@.map_values(|e: Vec<char>| e@),
                forms_view(out@) == with_leet + csv.take(i as int).map_values(
                    |f: Seq<char>| (f, MatchKind::Collapsed),
                ),
            decreases cs@.len() - i,
        {
            let f = sub_chars(cs[i].as_slice(), 0, cs[i].len());
            assert(cs@[i as int]@.subrange(0, cs@[i as int]@.len() as int) =~= cs@[i as int]@);
            let ghost before = forms_view(out@);
            out.push((f, MatchKind::Collapsed));
            assert(forms_view(out@) =~= before.push((csv[i as int], MatchKind::Collapsed)));
            assert(csv.take(i + 1) =~= csv.take(i as int).push(csv[i as int]));
            assert(csv.take(i + 1).map_values(|f: Seq<char>| (f, MatchKind::Collapsed)) =~= csv.take(
                i as int,
            ).map_values(|f: Seq<char>| (f, MatchKind::Collapsed)).push((csv[i as int], MatchKind::Collapsed)));
            assert(forms_view(out@) =~= with_leet + csv.take(i + 1).map_values(
                |f: Seq<char>| (f, MatchKind::Collapsed),
            ));
            i += 1;
        }
        assert(csv.take(cs@.len() as int) =~= csv);
    } else {
        assert(forms_view(out@) =~= with_leet + Seq::<(Seq<char>, MatchKind)>::empty());
    }
    out
}

/// The first form that is a single-token entry.
fn exact_hit(d: &Dictionary, forms: &Vec<(Vec<char>, MatchKind)>) -> (r: Option<(usize, MatchKind)>)
    ensures
        match r {
            Some((id, k)) => exact_from(*d, forms_view(forms@), 0) == Some((id as int, k)),
            None => exact_from(*d, forms_view(forms@), 0) is None,
        },
{
    let ghost fv = forms_view(forms@);
    let mut i: usize = 0;
    while i < forms.len()
        invariant
            i <= forms@.len(),
            fv == forms_view(forms@),
            exact_from(*d, fv, 0) == exact_from(*d, fv, i as int),
        decreases forms@.len() - i,
    {
        let f = from_chars(forms[i].0.as_slice());
        assert(f@ == fv[i as int].0);
        if !f.as_str().is_empty() && !d.is_whitelisted(f.as_str()) {
            match d.lookup(f.as_str()) {
                Some(id) => {
                    if !d.entry(id).is_phrase() {
                        return Some((id, forms[i].1));
                    }
                },
                None => {},
            }
        }
        i += 1;
    }
    None
}

/// The first form with a fuzzy match, with the entry, the kind and the
/// score.
fn fuzzy_hit(d: &Dictionary, forms: &Vec<(Vec<char>, MatchKind)>, o: Options) -> (r: Option<(usize, MatchKind, Score)>)
    ensures
        match r {
            Some((id, k, sc)) => fuzzy_from(*d, forms_view(forms@), o, 0) matches Some((fid, fk, f)) && fid == id
                && fk == k && sc == jw_score(f, d.entries()[fid].0),
            None => fuzzy_from(*d, forms_view(forms@), o, 0) is None,
        },
{
    let ghost fv = forms_view(forms@);
    let mut i: usize = 0;
    while i < forms.len()
        invariant
            i <= forms@.len(),
            fv == forms_view(forms@),
            fuzzy_from(*d, fv, o, 0) == fuzzy_from(*d, fv, o, i as int),
        decreases forms@.len() - i,
    {
        let f = from_chars(forms[i].0.as_slice());
        assert(f@ == fv[i as int].0);
        if !f.as_str().is_empty() && !d.is_whitelisted(f.as_str()) {
            match best_fuzzy(d, forms[i].0.as_slice(), o.match_threshold, o.phrases) {
                Some((id, sc)) => {
                    let k = match forms[i].1 {
                        MatchKind::Exact => MatchKind::Fuzzy,
                        other => other,
                    };
                    assert(sc == jw_score(fv[i as int].0, d.entries()[id as int].0));
                    return Some((id, k, sc));
                },
                None => {},
            }
        }
        i += 1;
    }
    None
}

/// Try one unit against the dictionary.
fn match_unit(
    d: &Dictionary,
    p: &TextProcessor,
    t: &[char],
    o: Options,
    s: usize,
    e: usize,
    base: &[char],
) -> (r: Option<Hit>)
    requires
        s <= e <= t@.len(),
    ensures
        r == unit_hit(*d, *p, t@, o, s as int, e as int, base@),
{
    if base.len() == 0 {
        return None;
    }
    let base_str = from_chars(base);
    if d.is_whitelisted(base_str.as_str()) {
        return None;
    }
    let forms = build_forms(p, t, s, e, base, o);
    match exact_hit(d, &forms) {
        Some((id, kind)) => {
            return Some(Hit { start: s, end: e, id, score: Score::exact(), kind });
        },
        None => {},
    }
    if o.is_fuzzy() {
        match fuzzy_hit(d, &forms, o) {
            Some((id, kind, score)) => {
                return Some(Hit { start: s, end: e, id, score, kind });
            },
            None => {},
        }
    }
    let substring = match o.match_mode {
        MatchMode::Substring => true,
        MatchMode::Token => false,
    };
    if substring {
        match find_substring(d, base_str.as_str(), o.min_substring_len) {
            Some(id) => {
                return Some(Hit { start: s, end: e, id, score: Score::exact(), kind: MatchKind::Substring });
            },
            None => {},
        }
    }
    None
}


// -- segments and phrases -----------------------------------------------------

/// The span segment `k` reports: its alphanumeric core, or the whole
/// segment.
pub open spec fn seg_span(t: Seq<char>, o: Options, k: int) -> (int, int) {
    let g = segments_spec(t)[k];
    if o.span == SpanMode::WholeSegment {
        (g.0, g.1)
    } else {
        (g.2, g.3)
    }
}

/// The normalized form of segment `k`.
pub open spec fn seg_base(p: TextProcessor, t: Seq<char>, o: Options, k: int) -> Seq<char> {
    unit_base(p, t, seg_span(t, o, k).0, seg_span(t, o, k).1)
}

/// Up to `n` segments from `j` on whose normalized form is not empty, in
/// order: segments that normalize to nothing (a lone dash) do not break a
/// phrase.
pub open spec fn contents_from(p: TextProcessor, t: Seq<char>, o: Options, j: int, n: nat) -> Seq<int>
    decreases segments_spec(t).len() - j,
{
    if n == 0 || j < 0 || j >= segments_spec(t).len() {
        seq![]
    } else if seg_base(p, t, o, j).len() > 0 {
        seq![j] + contents_from(p, t, o, j + 1, (n - 1) as nat)
    } else {
        contents_from(p, t, o, j + 1, n)
    }
}

/// Segment `k` and the next `n - 1` segments with content.
pub open spec fn phrase_window(p: TextProcessor, t: Seq<char>, o: Options, k: int, n: int) -> Seq<int> {
    seq![k] + contents_from(p, t, o, k + 1, (n - 1) as nat)
}

/// Whether the phrase entry `id` matches the segments from `k` on: its
/// tokens equal the normalized forms of its window, none of which is
/// whitelisted.
pub open spec fn phrase_fits(d: Dictionary, p: TextProcessor, t: Seq<char>, o: Options, k: int, id: int) -> bool {
    let n = d.token_counts()[id] as int;
    let w = phrase_window(p, t, o, k, n);
    let pieces = split_space(d.entries()[id].0);
    &&& n >= 2
    &&& w.len() == n
    &&& pieces.len() >= n
    &&& forall|i: int| 0 <= i < n ==> pieces[i] == #[trigger] seg_base(p, t, o, w[i])
    &&& forall|i: int| 0 <= i < n ==> !d.whitelist_set().contains(#[trigger] seg_base(p, t, o, w[i]))
}

/// A phrase starting with segment `k`'s form that fits there.
pub open spec fn phrase_ok(d: Dictionary, p: TextProcessor, t: Seq<char>, o: Options, k: int, id: int) -> bool {
    d.is_candidate(id, seg_base(p, t, o, k)) && phrase_fits(d, p, t, o, k, id)
}

/// The fitting phrase tried before every other fitting phrase.
pub open spec fn phrase_first(d: Dictionary, p: TextProcessor, t: Seq<char>, o: Options, k: int, id: int) -> bool {
    &&& phrase_ok(d, p, t, o, k, id)
    &&& forall|j: int| j != id && #[trigger] phrase_ok(d, p, t, o, k, j) ==> d.tried_before(id, j)
}

/// The phrase matched at segment `k`: longer phrases first, then older.
pub open spec fn phrase_hit(d: Dictionary, p: TextProcessor, t: Seq<char>, o: Options, k: int) -> Option<int> {
    if exists|id: int| phrase_first(d, p, t, o, k, id) {
        Some(choose|id: int| phrase_first(d, p, t, o, k, id))
    } else {
        None
    }
}

proof fn lemma_contents_prefix(p: TextProcessor, t: Seq<char>, o: Options, j: int, a: nat, b: nat)
    requires
        a <= b,
    ensures
        contents_from(p, t, o, j, a) == contents_from(p, t, o, j, b).take(
            if a < contents_from(p, t, o, j, b).len() {
                a as int
            } else {
                contents_from(p, t, o, j, b).len() as int
            },
        ),
        contents_from(p, t, o, j, b).len() <= b,
        forall|i: int| 0 <= i < contents_from(p, t, o, j, b).len() ==> j <= #[trigger] contents_from(p, t, o, j, b)[i] < segments_spec(t).len(),
    decreases segments_spec(t).len() - j,
{
    if b == 0 || j < 0 || j >= segments_spec(t).len() {
    } else if seg_base(p, t, o, j).len() > 0 {
        if a == 0 {
            lemma_contents_prefix(p, t, o, j + 1, 0, (b - 1) as nat);
        } else {
            lemma_contents_prefix(p, t, o, j + 1, (a - 1) as nat, (b - 1) as nat);
        }
        let cb = contents_from(p, t, o, j, b);
        let ca = contents_from(p, t, o, j, a);
        let rb = contents_from(p, t, o, j + 1, (b - 1) as nat);
        assert(cb == seq![j] + rb);
        if a > 0 {
            let ra = contents_from(p, t, o, j + 1, (a - 1) as nat);
            assert(ca == seq![j] + ra);
            assert(ca =~= cb.take(if a < cb.len() { a as int } else { cb.len() as int }));
        } else {
            assert(ca =~= cb.take(0));
        }
    } else {
        lemma_contents_prefix(p, t, o, j + 1, a, b);
    }
}

/// The segments' spans, the one segment `k` reports.
fn span_of(g: Segment, o: Options) -> (r: (usize, usize))
    ensures
        r == (if o.span == SpanMode::WholeSegment {
            (g.start, g.end)
        } else {
            (g.core_start, g.core_end)
        }),
{
    match o.span {
        SpanMode::WholeSegment => (g.start, g.end),
        SpanMode::Core => (g.core_start, g.core_end),
    }
}

/// The exec segments agree with the spec ones.
pub open spec fn segs_agree(segs: Seq<Segment>, t: Seq<char>) -> bool {
    &&& segs.len() == segments_spec(t).len()
    &&& forall|k: int| 0 <= k < segs.len() ==> crate::tokenize::segment_view(#[trigger] segs[k]) == segments_spec(t)[k]
}

proof fn lemma_seg_span_bounds(t: Seq<char>, o: Options, k: int)
    requires
        0 <= k < segments_spec(t).len(),
    ensures
        0 <= seg_span(t, o, k).0 <= seg_span(t, o, k).1 <= t.len(),
        seg_span(t, o, k).1 <= segments_spec(t)[k].1,
        segments_spec(t)[k].0 <= seg_span(t, o, k).0,
{
    crate::tokenize::lemma_segments_wf(t);
    let g = segments_spec(t)[k];
    assert(0 <= g.0 <= g.2 <= g.3 <= g.1 <= t.len() && g.0 < g.1);
}

/// The normalized form of segment `k`, computed.
fn seg_base_exec(p: &TextProcessor, t: &[char], o: Options, segs: &Vec<Segment>, k: usize) -> (r: (usize, usize, Vec<char>))
    requires
        segs_agree(segs@, t@),
        k < segs@.len(),
    ensures
        (r.0 as int, r.1 as int) == seg_span(t@, o, k as int),
        r.0 <= r.1 <= t@.len(),
        r.2@ == seg_base(*p, t@, o, k as int),
{
    proof {
        lemma_seg_span_bounds(t@, o, k as int);
        assert(crate::tokenize::segment_view(segs@[k as int]) == segments_spec(t@)[k as int]);
    }
    let (s, e) = span_of(segs[k], o);
    let b = unit_base_exec(p, t, s, e);
    (s, e, b)
}

/// Try every multi-word entry beginning at segment `k`: the entry and the
/// last segment it covers.
fn match_phrase(
    d: &Dictionary,
    p: &TextProcessor,
    t: &[char],
    o: Options,
    segs: &Vec<Segment>,
    k: usize,
    base: &[char],
    maxt: usize,
) -> (r: Option<(usize, usize)>)
    requires
        segs_agree(segs@, t@),
        k < segs@.len(),
        base@ == seg_base(*p, t@, o, k as int),
        forall|id: int| #[trigger] d.is_live_phrase(id) ==> d.token_counts()[id] <= maxt,
    ensures
        match r {
            Some((id, last)) => phrase_hit(*d, *p, t@, o, k as int) == Some(id as int) && k < last < segs@.len() && {
                let w = phrase_window(*p, t@, o, k as int, d.token_counts()[id as int] as int);
                last == w[w.len() - 1]
            },
            None => phrase_hit(*d, *p, t@, o, k as int) is None,
        },
{
    let cands = d.phrase_candidates(base);
    let cap = d.capacity();
    let count = segs.len();
    let ghost full: Seq<int> = seq![k as int] + contents_from(*p, t@, o, k + 1, if maxt >= 1 {
        (maxt - 1) as nat
    } else {
        0nat
    });
    let mut window: Vec<usize> = Vec::new();
    let mut wbases: Vec<Vec<char>> = Vec::new();
    window.push(k);
    wbases.push(sub_chars(base, 0, base.len()));
    assert(base@.subrange(0, base@.len() as int) =~= base@);
    let mut cursor: usize = k + 1;
    while window.len() < maxt && cursor < count
        invariant
            segs_agree(segs@, t@),
            count == segs@.len(),
            k < cursor <= count,
            window@.len() >= 1,
            window@.len() <= maxt || window@.len() == 1,
            window@.len() == wbases@.len(),
            forall|i: int| 0 <= i < window@.len() ==> (#[trigger] window@[i]) < cursor,
            forall|i: int| 0 <= i < window@.len() ==> (#[trigger] wbases@[i])@ == seg_base(*p, t@, o, window@[i] as int),
            window@.map_values(|x: usize| x as int) + contents_from(*p, t@, o, cursor as int, if maxt >= window@.len() {
                (maxt - window@.len()) as nat
            } else {
                0nat
            }) == full,
        decreases count - cursor,
    {
        let (_s, _e, b) = seg_base_exec(p, t, o, segs, cursor);
        let ghost wv = window@.map_values(|x: usize| x as int);
        let ghost rem = (maxt - window@.len()) as nat;
        assert(contents_from(*p, t@, o, cursor as int, rem) == if b@.len() > 0 {
            seq![cursor as int] + contents_from(*p, t@, o, cursor + 1, (rem - 1) as nat)
        } else {
            contents_from(*p, t@, o, cursor + 1, rem)
        });
        if b.len() > 0 {
            window.push(cursor);
            wbases.push(b);
            assert(window@.map_values(|x: usize| x as int) =~= wv.push(cursor as int));
            assert(wv + (seq![cursor as int] + contents_from(*p, t@, o, cursor + 1, (rem - 1) as nat)) =~= wv.push(cursor as int)
                + contents_from(*p, t@, o, cursor + 1, (rem - 1) as nat));
        }
        cursor += 1;
    }
    let ghost wv = window@.map_values(|x: usize| x as int);
    proof {
        let rem: nat = if maxt >= window@.len() { (maxt - window@.len()) as nat } else { 0nat };
        if cursor >= count {
            assert(contents_from(*p, t@, o, cursor as int, rem) =~= Seq::<int>::empty());
        } else {
            assert(rem == 0);
            assert(contents_from(*p, t@, o, cursor as int, rem) =~= Seq::<int>::empty());
        }
        assert(wv =~= full);
    }
    let mut q: usize = 0;
    while q < cands.len()
        invariant
            q <= cands@.len(),
            wv == window@.map_values(|x: usize| x as int),
            wv == full,
            full == seq![k as int] + contents_from(*p, t@, o, k + 1, if maxt >= 1 {
                (maxt - 1) as nat
            } else {
                0nat
            }),
            window@.len() == wbases@.len(),
            forall|i: int| 0 <= i < window@.len() ==> (#[trigger] wbases@[i])@ == seg_base(*p, t@, o, window@[i] as int),
            base@ == seg_base(*p, t@, o, k as int),
            forall|id: int| #[trigger] d.is_live_phrase(id) ==> d.token_counts()[id] <= maxt,
            forall|id: int| #[trigger] cands@.contains(id as usize) && 0 <= id < d.entries().len() ==> d.is_candidate(id, base@),
            forall|id: int| d.is_candidate(id, base@) ==> #[trigger] cands@.contains(id as usize),
            forall|i: int| 0 <= i < cands@.len() ==> (#[trigger] cands@[i]) < d.entries().len(),
            forall|a: int, b: int| 0 <= a < b < cands@.len() ==> d.tried_before(#[trigger] cands@[a] as int, #[trigger] cands@[b] as int),
            forall|i: int| 0 <= i < q ==> !phrase_fits(*d, *p, t@, o, k as int, #[trigger] cands@[i] as int),
            cap == d.entries().len(),
            segs_agree(segs@, t@),
        decreases cands@.len() - q,
    {
        let id = cands[q];
        let e = d.entry(id);
        let n = e.token_count as usize;
        let ghost nn = n as int;
        let ghost pw = phrase_window(*p, t@, o, k as int, nn);
        proof {
            assert(cands@[q as int] == id);
            assert(cands@.contains((id as int) as usize));
            assert(d.is_candidate(id as int, base@));
            assert(d.is_live_phrase(id as int));
            assert(nn <= maxt);
            if nn >= 2 {
                lemma_contents_prefix(*p, t@, o, k + 1, (nn - 1) as nat, (maxt - 1) as nat);
                let cf = contents_from(*p, t@, o, k + 1, (maxt - 1) as nat);
                if nn <= wv.len() {
                    assert(pw =~= wv.take(nn));
                } else {
                    assert(pw.len() < nn);
                }
            }
        }
        let mut fits = n >= 2 && n <= window.len();
        if fits {
            let chars = to_chars(e.form.as_str());
            let pieces = split_spaces(chars.as_slice());
            if pieces.len() < n {
                fits = false;
            } else {
                let mut i: usize = 0;
                while i < n
                    invariant
                        i <= n,
                        n <= window@.len(),
                        n <= pieces@.len(),
                        window@.len() == wbases@.len(),
                        fits ==> forall|j: int| 0 <= j < i ==> pieces@[j]@ == (#[trigger] wbases@[j])@
                            && !d.whitelist_set().contains(wbases@[j]@),
                        !fits ==> exists|j: int| 0 <= j < i && (pieces@[j]@ != (#[trigger] wbases@[j])@
                            || d.whitelist_set().contains(wbases@[j]@)),
                    decreases n - i,
                {
                    let w = from_chars(wbases[i].as_slice());
                    if !chars_eq(pieces[i].as_slice(), wbases[i].as_slice()) || d.is_whitelisted(w.as_str()) {
                        fits = false;
                    }
                    i += 1;
                }
                proof {
                    let pv = pieces@.map_values(|v: Vec<char>| v@);
                    assert(pv == split_space(d.entries()[id as int].0));
                    if fits {
                        assert forall|j: int| 0 <= j < nn implies split_space(d.entries()[id as int].0)[j]
                            == #[trigger] seg_base(*p, t@, o, pw[j]) by {
                            assert(pv[j] == pieces@[j]@);
                            assert(pw[j] == wv[j]);
                            assert(wbases@[j]@ == seg_base(*p, t@, o, window@[j] as int));
                        }
                        assert forall|j: int| 0 <= j < nn implies !d.whitelist_set().contains(
                            #[trigger] seg_base(*p, t@, o, pw[j]),
                        ) by {
                            assert(pw[j] == wv[j]);
                            assert(wbases@[j]@ == seg_base(*p, t@, o, window@[j] as int));
                        }
                    } else {
                        let j = choose|j: int| 0 <= j < nn && (pieces@[j]@ != (#[trigger] wbases@[j])@
                            || d.whitelist_set().contains(wbases@[j]@));
                        assert(pw[j] == wv[j]);
                        assert(wbases@[j]@ == seg_base(*p, t@, o, window@[j] as int));
                        assert(pv[j] == pieces@[j]@);
                        assert(!phrase_fits(*d, *p, t@, o, k as int, id as int));
                    }
                }
            }
        }
        if fits {
            let last = window[n - 1];
            proof {
                assert(phrase_ok(*d, *p, t@, o, k as int, id as int));
                assert forall|j: int| j != id as int && #[trigger] phrase_ok(*d, *p, t@, o, k as int, j) implies d.tried_before(
                    id as int,
                    j,
                ) by {
                    assert(d.is_candidate(j, base@));
                    assert(cands@.contains(j as usize));
                    let qj = choose|qj: int| 0 <= qj < cands@.len() && cands@[qj] == j as usize;
                    assert(cands@[qj] as int == j);
                    if qj < q {
                        assert(!phrase_fits(*d, *p, t@, o, k as int, cands@[qj] as int));
                    } else if qj > q {
                        assert(d.tried_before(cands@[q as int] as int, cands@[qj] as int));
                    }
                }
                assert(phrase_first(*d, *p, t@, o, k as int, id as int));
                let c = choose|x: int| phrase_first(*d, *p, t@, o, k as int, x);
                if c != id as int {
                    assert(d.tried_before(id as int, c));
                    assert(d.tried_before(c, id as int));
                }
                assert(pw[nn - 1] == wv[nn - 1]);
                lemma_contents_prefix(*p, t@, o, k + 1, (nn - 1) as nat, (nn - 1) as nat);
                assert(pw[nn - 1] == contents_from(*p, t@, o, k + 1, (nn - 1) as nat)[nn - 2]);
                assert(last as int == wv[nn - 1]);
                assert(k < last);
                assert(last < segs@.len());
            }
            return Some((id, last));
        }
        q += 1;
    }
    proof {
        assert forall|x: int| !phrase_first(*d, *p, t@, o, k as int, x) by {
            if phrase_ok(*d, *p, t@, o, k as int, x) {
                assert(d.is_candidate(x, base@));
                assert(cands@.contains(x as usize));
                let qx = choose|qx: int| 0 <= qx < cands@.len() && cands@[qx] == x as usize;
                assert(cands@[qx] as int == x);
                assert(!phrase_fits(*d, *p, t@, o, k as int, cands@[qx] as int));
            }
        }
    }
    None
}


// -- the scan -----------------------------------------------------------------

/// Hits of the pieces a unit splits into, each piece tried as a unit.
pub open spec fn pieces_hits(d: Dictionary, p: TextProcessor, t: Seq<char>, o: Options, pieces: Seq<(int, int)>) -> Seq<Hit>
    decreases pieces.len(),
{
    if pieces.len() == 0 {
        seq![]
    } else {
        let prev = pieces_hits(d, p, t, o, pieces.drop_last());
        let (s, e) = pieces.last();
        match unit_hit(d, p, t, o, s, e, p.process(t.subrange(s, e))) {
            Some(h) => prev.push(h),
            None => prev,
        }
    }
}

/// What the scan produces at segment `k`, and the segment it goes on from.
///
/// A segment that normalizes to nothing is skipped. A phrase starting there
/// wins over a single-word match on its first word; else the segment is
/// tried as one unit; else, when enabled, its pieces.
pub open spec fn seg_step(d: Dictionary, p: TextProcessor, t: Seq<char>, o: Options, k: int) -> (Seq<Hit>, int) {
    let (s, e) = seg_span(t, o, k);
    let base = seg_base(p, t, o, k);
    if base.len() == 0 {
        (seq![], k + 1)
    } else if o.phrases && phrase_hit(d, p, t, o, k) is Some {
        let id = phrase_hit(d, p, t, o, k)->0;
        let w = phrase_window(p, t, o, k, d.token_counts()[id] as int);
        let last = w[w.len() - 1];
        (
            seq![
                Hit {
                    start: s as usize,
                    end: seg_span(t, o, last).1 as usize,
                    id: id as usize,
                    score: full_score(),
                    kind: MatchKind::Phrase,
                },
            ],
            last + 1,
        )
    } else {
        match unit_hit(d, p, t, o, s, e, base) {
            Some(h) => (seq![h], k + 1),
            None => if o.split_on_punctuation {
                (pieces_hits(d, p, t, o, subtokens_spec(t, s, e)), k + 1)
            } else {
                (seq![], k + 1)
            },
        }
    }
}

/// Every hit of the scan from segment `k` on, in order.
pub open spec fn hits_from(d: Dictionary, p: TextProcessor, t: Seq<char>, o: Options, k: int) -> Seq<Hit>
    decreases segments_spec(t).len() - k,
{
    if k < 0 || k >= segments_spec(t).len() {
        seq![]
    } else {
        let (h, next) = seg_step(d, p, t, o, k);
        if next <= k || next > segments_spec(t).len() {
            h
        } else {
            h + hits_from(d, p, t, o, next)
        }
    }
}

/// The options with no maximum: what the scan itself runs with.
pub open spec fn unlimited(o: Options) -> Options {
    Options { max_matches: None, ..o }
}

/// Every hit of the scan of `t`, in order. The maximum only cuts the
/// reported list short; the scan does not depend on it.
pub open spec fn scan_hits(d: Dictionary, p: TextProcessor, t: Seq<char>, o: Options) -> Seq<Hit> {
    hits_from(d, p, t, unlimited(o), 0)
}

/// What a full search reports: the scan's hits made non-overlapping, at
/// most `max_matches` of them.
pub open spec fn find_spec(d: Dictionary, p: TextProcessor, t: Seq<char>, o: Options) -> Seq<Hit> {
    truncate_spec(resolve_spec(scan_hits(d, p, t, o)), o.max_matches)
}

/// A maximum only cuts the list short: a search with a maximum reports the
/// earliest matches of the same search without one, as many as the maximum
/// allows.
pub proof fn law_maximum_truncates(d: Dictionary, p: TextProcessor, t: Seq<char>, o: Options)
    ensures
        find_spec(d, p, t, o) == truncate_spec(find_spec(d, p, t, unlimited(o)), o.max_matches),
        o.max_matches matches Some(k) ==> {
            let full = find_spec(d, p, t, unlimited(o));
            find_spec(d, p, t, o) == full.take(if k < full.len() { k as int } else { full.len() as int })
        },
{
    assert(unlimited(unlimited(o)) == unlimited(o));
    let full = find_spec(d, p, t, unlimited(o));
    assert(full.take(full.len() as int) =~= full);
}

/// What a search for the first match reports: the scan's first hit.
pub open spec fn first_spec(d: Dictionary, p: TextProcessor, t: Seq<char>, o: Options) -> Seq<Hit> {
    let s = scan_hits(d, p, t, o);
    if s.len() > 0 {
        seq![s[0]]
    } else {
        seq![]
    }
}

/// Run the pipeline over the characters `t`. With `first_only`, returns as
/// soon as one hit is found.
///
/// Segments are walked once, left to right, and a segment's normalized form
/// is computed only when it is reached, so a hit early in the text does not
/// pay for the whole of it.
pub fn find_hits(d: &Dictionary, p: &TextProcessor, t: &[char], o: Options, first_only: bool) -> (out: Vec<Hit>)
    ensures
        out@ == if first_only {
            first_spec(*d, *p, t@, o)
        } else {
            find_spec(*d, *p, t@, o)
        },
{
    let unl = Options { max_matches: None, ..o };
    assert(unlimited(unl) == unl && unlimited(o) == unl);
    let mut out = scan_text(d, p, t, unl, first_only);
    if !first_only {
        match o.max_matches {
            Some(max) => {
                if max < out.len() {
                    out.truncate(max);
                }
            },
            None => {},
        }
    }
    out
}

/// The scan itself, with no maximum: the first hit, or every hit made
/// non-overlapping.
fn scan_text(d: &Dictionary, p: &TextProcessor, t: &[char], o: Options, first_only: bool) -> (out: Vec<Hit>)
    requires
        o.max_matches is None,
    ensures
        out@ == if first_only {
            first_spec(*d, *p, t@, o)
        } else {
            find_spec(*d, *p, t@, o)
        },
{
    assert(unlimited(o) == o);
    let segs = segments(t);
    let count = segs.len();
    let phrases = o.phrases && d.has_phrases();
    let maxt = d.max_phrase_tokens();
    let ghost total = scan_hits(*d, *p, t@, o);
    let mut out: Vec<Hit> = Vec::new();
    let mut index: usize = 0;
    while index < count
        invariant
            segs_agree(segs@, t@),
            count == segs@.len(),
            index <= count,
            total == scan_hits(*d, *p, t@, o),
            out@ + hits_from(*d, *p, t@, o, index as int) == total,
            first_only ==> out@.len() == 0,
            phrases == (o.phrases && exists|id: int| #[trigger] d.is_live_phrase(id)),
            forall|id: int| #[trigger] d.is_live_phrase(id) ==> d.token_counts()[id] <= maxt,
        decreases count - index,
    {
        let ghost k = index as int;
        let ghost before = out@;
        let ghost step = seg_step(*d, *p, t@, o, k);
        assert(hits_from(*d, *p, t@, o, k) == if step.1 <= k || step.1 > segments_spec(t@).len() {
            step.0
        } else {
            step.0 + hits_from(*d, *p, t@, o, step.1)
        });
        let (s, e, base) = seg_base_exec(p, t, o, &segs, index);
        if base.len() == 0 {
            assert(step.0 =~= Seq::<Hit>::empty());
            assert(before + hits_from(*d, *p, t@, o, k + 1) =~= total);
            index += 1;
            continue;
        }
        if phrases {
            match match_phrase(d, p, t, o, &segs, index, base.as_slice(), maxt) {
                Some((id, last)) => {
                    let (_ls, le) = span_of(segs[last], o);
                    proof {
                        assert(crate::tokenize::segment_view(segs@[last as int]) == segments_spec(t@)[last as int]);
                        assert(step.0 =~= seq![Hit { start: s, end: le, id, score: full_score(), kind: MatchKind::Phrase }]);
                    }
                    out.push(Hit { start: s, end: le, id, score: Score::exact(), kind: MatchKind::Phrase });
                    if first_only {
                        return out;
                    }
                    assert(before + step.0 + hits_from(*d, *p, t@, o, last + 1) =~= total);
                    index = last + 1;
                    continue;
                },
                None => {},
            }
        } else {
            proof {
                if o.phrases && phrase_hit(*d, *p, t@, o, k) is Some {
                    let id = choose|id: int| phrase_first(*d, *p, t@, o, k, id);
                    assert(d.is_live_phrase(id));
                }
            }
        }
        match match_unit(d, p, t, o, s, e, base.as_slice()) {
            Some(h) => {
                out.push(h);
                if first_only {
                    return out;
                }
                assert(step.0 =~= seq![h]);
                assert(before + step.0 + hits_from(*d, *p, t@, o, k + 1) =~= total);
                index += 1;
                continue;
            },
            None => {},
        }
        if o.split_on_punctuation {
            let pieces = subtokens(t, s, e);
            let ghost pv = subtokens_spec(t@, s as int, e as int);
            proof {
                crate::tokenize::lemma_subtokens_wf(t@, s as int, e as int);
                assert(step.0 == pieces_hits(*d, *p, t@, o, pv));
                assert(step.1 == k + 1);
                assert(before + step.0 + hits_from(*d, *p, t@, o, k + 1) =~= total);
            }
            let mut i: usize = 0;
            while i < pieces.len()
                invariant
                    i <= pieces@.len(),
                    pieces@.len() == pv.len(),
                    forall|j: int| 0 <= j < pieces@.len() ==> (#[trigger] pieces@[j].0 as int, pieces@[j].1 as int) == pv[j],
                    forall|j: int| 0 <= j < pv.len() ==> 0 <= (#[trigger] pv[j]).0 < pv[j].1 <= t@.len(),
                    out@ == before + pieces_hits(*d, *p, t@, o, pv.take(i as int)),
                    first_only ==> pieces_hits(*d, *p, t@, o, pv.take(i as int)).len() == 0,
                    step.0 == pieces_hits(*d, *p, t@, o, pv),
                    before + step.0 + hits_from(*d, *p, t@, o, k + 1) == total,
                    first_only ==> before.len() == 0,
                    total == scan_hits(*d, *p, t@, o),
                        decreases pieces@.len() - i,
            {
                let (ps, pe) = pieces[i];
                assert((ps as int, pe as int) == pv[i as int]);
                let raw = sub_chars(t, ps, pe);
                let sub_base = p.process_chars(raw.as_slice());
                let r = match_unit(d, p, t, o, ps, pe, sub_base.as_slice());
                proof {
                    assert(pv.take(i + 1).drop_last() =~= pv.take(i as int));
                    assert(pv.take(i + 1).last() == pv[i as int]);
                }
                match r {
                    Some(h) => {
                        out.push(h);
                        if first_only {
                            proof {
                                assert(pieces_hits(*d, *p, t@, o, pv.take(i + 1)) =~= seq![h]);
                                lemma_pieces_prefix(*d, *p, t@, o, pv, i + 1);
                                assert(step.0 == pieces_hits(*d, *p, t@, o, pv));
                                let all = pieces_hits(*d, *p, t@, o, pv);
                                assert(all.take(1) == seq![h]);
                                assert(all.take(1)[0] == all[0]);
                                assert(step.0[0] == h);
                                assert(total.len() > 0);
                                assert(total[0] == h);
                                assert(out@ =~= seq![h]);
                                assert(first_spec(*d, *p, t@, o) =~= seq![h]);
                            }
                            return out;
                        }
                    },
                    None => {},
                }
                i += 1;
            }
            assert(pv.take(pieces@.len() as int) =~= pv);
            assert(before + step.0 + hits_from(*d, *p, t@, o, k + 1) =~= total);
        } else {
            assert(step.0 =~= Seq::<Hit>::empty());
            assert(before + hits_from(*d, *p, t@, o, k + 1) =~= total);
        }
        index += 1;
    }
    assert(out@ =~= total);
    if first_only {
        return out;
    }
    resolve_overlaps(out)
}

/// A prefix of the pieces' hits is a prefix of all of them.
proof fn lemma_pieces_prefix(d: Dictionary, p: TextProcessor, t: Seq<char>, o: Options, pv: Seq<(int, int)>, i: int)
    requires
        0 <= i <= pv.len(),
    ensures
        pieces_hits(d, p, t, o, pv).take(pieces_hits(d, p, t, o, pv.take(i)).len() as int) == pieces_hits(d, p, t, o, pv.take(i)),
        pieces_hits(d, p, t, o, pv.take(i)).len() <= pieces_hits(d, p, t, o, pv).len(),
    decreases pv.len() - i,
{
    if i < pv.len() {
        lemma_pieces_prefix(d, p, t, o, pv, i + 1);
        assert(pv.take(i + 1).drop_last() =~= pv.take(i));
        let a = pieces_hits(d, p, t, o, pv.take(i));
        let b = pieces_hits(d, p, t, o, pv.take(i + 1));
        let all = pieces_hits(d, p, t, o, pv);
        assert(b == a || b == a.push(b.last()));
        assert(all.take(a.len() as int) =~= b.take(a.len() as int));
        assert(b.take(a.len() as int) =~= a);
    } else {
        assert(pv.take(i) =~= pv);
    }
}


// -- what the scan's hits satisfy ---------------------------------------------

/// A hit is a non-empty span of the text naming an entry; a hit that is not
/// a phrase covers text whose normalized form is not whitelisted.
pub open spec fn hit_ok(d: Dictionary, p: TextProcessor, t: Seq<char>, h: Hit) -> bool {
    &&& h.start < h.end <= t.len()
    &&& h.id < d.entries().len()
    &&& h.kind != MatchKind::Phrase ==> !d.whitelist_set().contains(p.process(t.subrange(h.start as int, h.end as int)))
}

proof fn lemma_forms_kinds(p: TextProcessor, t: Seq<char>, s: int, e: int, base: Seq<char>, o: Options)
    ensures
        forall|i: int| 0 <= i < forms_spec(p, t, s, e, base, o).len() ==> (#[trigger] forms_spec(p, t, s, e, base, o)[i]).1
            != MatchKind::Phrase && forms_spec(p, t, s, e, base, o)[i].1 != MatchKind::Fuzzy,
{
    let f = forms_spec(p, t, s, e, base, o);
    assert forall|i: int| 0 <= i < f.len() implies (#[trigger] f[i]).1 != MatchKind::Phrase && f[i].1 != MatchKind::Fuzzy by {
        if o.collapse_repeats {
            let c = collapse_forms_spec(base).map_values(|x: Seq<char>| (x, MatchKind::Collapsed));
            if i >= f.len() - c.len() {
                assert(f[i] == c[i - (f.len() - c.len())]);
            }
        }
    }
}

proof fn lemma_exact_from(d: Dictionary, forms: Seq<(Seq<char>, MatchKind)>, i: int)
    requires
        forall|j: int| 0 <= j < forms.len() ==> (#[trigger] forms[j]).1 != MatchKind::Phrase,
    ensures
        exact_from(d, forms, i) matches Some((id, k)) ==> 0 <= id < d.entries().len() && k != MatchKind::Phrase,
    decreases forms.len() - i,
{
    if 0 <= i < forms.len() {
        if form_usable(d, forms[i].0) && d.lookup_spec(forms[i].0) is Some && d.token_counts()[d.lookup_spec(
            forms[i].0,
        )->0] <= 1 {
        } else {
            lemma_exact_from(d, forms, i + 1);
        }
    }
}

proof fn lemma_fuzzy_from(d: Dictionary, forms: Seq<(Seq<char>, MatchKind)>, o: Options, i: int)
    requires
        forall|j: int| 0 <= j < forms.len() ==> (#[trigger] forms[j]).1 != MatchKind::Phrase,
    ensures
        fuzzy_from(d, forms, o, i) matches Some((id, k, f)) ==> 0 <= id < d.entries().len() && k != MatchKind::Phrase,
    decreases forms.len() - i,
{
    if 0 <= i < forms.len() {
        if form_usable(d, forms[i].0) && fuzzy_best(d, forms[i].0, o.match_threshold, o.phrases) is Some {
            let id = choose|id: int| crate::fuzzy::is_best(d, forms[i].0, o.match_threshold, o.phrases, id);
            assert(crate::fuzzy::is_best(d, forms[i].0, o.match_threshold, o.phrases, id));
        } else {
            lemma_fuzzy_from(d, forms, o, i + 1);
        }
    }
}

/// A unit's hit spans the unit, names an entry, and is no phrase.
proof fn lemma_unit_hit_ok(d: Dictionary, p: TextProcessor, t: Seq<char>, o: Options, s: int, e: int)
    requires
        0 <= s < e <= t.len(),
        t.len() <= usize::MAX,
        d.entries().len() <= usize::MAX,
    ensures
        unit_hit(d, p, t, o, s, e, p.process(t.subrange(s, e))) matches Some(h) ==> hit_ok(d, p, t, h) && h.start == s
            && h.end == e && h.kind != MatchKind::Phrase,
{
    let base = p.process(t.subrange(s, e));
    let forms = forms_spec(p, t, s, e, base, o);
    lemma_forms_kinds(p, t, s, e, base, o);
    lemma_exact_from(d, forms, 0);
    lemma_fuzzy_from(d, forms, o, 0);
    crate::substring::lemma_substring_hit(d, base, o.min_substring_len);
}

proof fn lemma_pieces_hits_ok(d: Dictionary, p: TextProcessor, t: Seq<char>, o: Options, pieces: Seq<(int, int)>)
    requires
        forall|j: int| 0 <= j < pieces.len() ==> 0 <= (#[trigger] pieces[j]).0 < pieces[j].1 <= t.len(),
        t.len() <= usize::MAX,
        d.entries().len() <= usize::MAX,
    ensures
        forall|j: int| 0 <= j < pieces_hits(d, p, t, o, pieces).len() ==> hit_ok(d, p, t, #[trigger] pieces_hits(d, p, t, o, pieces)[j])
            && pieces_hits(d, p, t, o, pieces)[j].kind != MatchKind::Phrase,
    decreases pieces.len(),
{
    if pieces.len() > 0 {
        lemma_pieces_hits_ok(d, p, t, o, pieces.drop_last());
        let (s, e) = pieces.last();
        assert(pieces.last() == pieces[pieces.len() - 1]);
        lemma_unit_hit_ok(d, p, t, o, s, e);
        let prev = pieces_hits(d, p, t, o, pieces.drop_last());
        let all = pieces_hits(d, p, t, o, pieces);
        assert forall|j: int| 0 <= j < all.len() implies hit_ok(d, p, t, #[trigger] all[j]) && all[j].kind
            != MatchKind::Phrase by {
            if j < prev.len() {
                assert(all[j] == prev[j]);
            }
        }
    }
}

/// The step at segment `k` moves forward, within the segments, and yields
/// valid hits.
proof fn lemma_seg_step_ok(d: Dictionary, p: TextProcessor, t: Seq<char>, o: Options, k: int)
    requires
        0 <= k < segments_spec(t).len(),
        t.len() <= usize::MAX,
        d.entries().len() <= usize::MAX,
    ensures
        k < seg_step(d, p, t, o, k).1 <= segments_spec(t).len(),
        forall|j: int| 0 <= j < seg_step(d, p, t, o, k).0.len() ==> hit_ok(d, p, t, #[trigger] seg_step(d, p, t, o, k).0[j]),
{
    let (s, e) = seg_span(t, o, k);
    lemma_seg_span_bounds(t, o, k);
    let base = seg_base(p, t, o, k);
    if base.len() == 0 {
    } else if o.phrases && phrase_hit(d, p, t, o, k) is Some {
        let id = phrase_hit(d, p, t, o, k)->0;
        let c = choose|x: int| phrase_first(d, p, t, o, k, x);
        assert(phrase_first(d, p, t, o, k, c));
        let n = d.token_counts()[id] as int;
        let w = phrase_window(p, t, o, k, n);
        lemma_contents_prefix(p, t, o, k + 1, (n - 1) as nat, (n - 1) as nat);
        let last = w[w.len() - 1];
        assert(last == contents_from(p, t, o, k + 1, (n - 1) as nat)[n - 2]);
        assert(k < last < segments_spec(t).len());
        lemma_seg_span_bounds(t, o, last);
        crate::tokenize::lemma_segments_ordered(t, k, last);
        let h = seg_step(d, p, t, o, k).0[0];
        assert(hit_ok(d, p, t, h));
    } else {
        lemma_unit_hit_ok(d, p, t, o, s, e);
        crate::tokenize::lemma_subtokens_wf(t, s, e);
        lemma_pieces_hits_ok(d, p, t, o, subtokens_spec(t, s, e));
    }
}

/// Every hit of the scan from segment `k` on is valid.
proof fn lemma_hits_from_ok(d: Dictionary, p: TextProcessor, t: Seq<char>, o: Options, k: int)
    requires
        t.len() <= usize::MAX,
        d.entries().len() <= usize::MAX,
    ensures
        forall|j: int| 0 <= j < hits_from(d, p, t, o, k).len() ==> hit_ok(d, p, t, #[trigger] hits_from(d, p, t, o, k)[j]),
    decreases segments_spec(t).len() - k,
{
    if 0 <= k < segments_spec(t).len() {
        lemma_seg_step_ok(d, p, t, o, k);
        let (h, next) = seg_step(d, p, t, o, k);
        lemma_hits_from_ok(d, p, t, o, next);
        let all = hits_from(d, p, t, o, k);
        assert(all == h + hits_from(d, p, t, o, next));
        assert forall|j: int| 0 <= j < all.len() implies hit_ok(d, p, t, #[trigger] all[j]) by {
            if j >= h.len() {
                assert(all[j] == hits_from(d, p, t, o, next)[j - h.len()]);
            }
        }
    }
}


/// A phrase hit starts at a segment from which the phrase fits: its tokens
/// are the normalized forms of a window of segments, none of them
/// whitelisted. (The scan runs without a maximum.)
pub open spec fn phrase_hit_fits(d: Dictionary, p: TextProcessor, t: Seq<char>, o: Options, h: Hit) -> bool {
    h.kind == MatchKind::Phrase ==> exists|k: int|
        0 <= k < segments_spec(t).len() && #[trigger] phrase_fits(d, p, t, unlimited(o), k, h.id as int) && h.start
            == seg_span(t, unlimited(o), k).0
}

proof fn lemma_seg_step_fits(d: Dictionary, p: TextProcessor, t: Seq<char>, o: Options, k: int)
    requires
        0 <= k < segments_spec(t).len(),
        t.len() <= usize::MAX,
        d.entries().len() <= usize::MAX,
    ensures
        forall|j: int| 0 <= j < seg_step(d, p, t, unlimited(o), k).0.len() ==> phrase_hit_fits(
            d,
            p,
            t,
            o,
            #[trigger] seg_step(d, p, t, unlimited(o), k).0[j],
        ),
{
    let u = unlimited(o);
    assert(unlimited(u) == u);
    let (s, e) = seg_span(t, u, k);
    lemma_seg_span_bounds(t, u, k);
    let base = seg_base(p, t, u, k);
    if base.len() == 0 {
    } else if u.phrases && phrase_hit(d, p, t, u, k) is Some {
        let id = phrase_hit(d, p, t, u, k)->0;
        let c = choose|x: int| phrase_first(d, p, t, u, k, x);
        assert(phrase_first(d, p, t, u, k, c));
        assert(phrase_fits(d, p, t, u, k, id));
        let h = seg_step(d, p, t, u, k).0[0];
        assert(h.id as int == id);
        assert(phrase_hit_fits(d, p, t, o, h));
    } else {
        lemma_unit_hit_ok(d, p, t, u, s, e);
        crate::tokenize::lemma_subtokens_wf(t, s, e);
        lemma_pieces_hits_ok(d, p, t, u, subtokens_spec(t, s, e));
    }
}

proof fn lemma_hits_from_fits(d: Dictionary, p: TextProcessor, t: Seq<char>, o: Options, k: int)
    requires
        t.len() <= usize::MAX,
        d.entries().len() <= usize::MAX,
    ensures
        forall|j: int| 0 <= j < hits_from(d, p, t, unlimited(o), k).len() ==> phrase_hit_fits(
            d,
            p,
            t,
            o,
            #[trigger] hits_from(d, p, t, unlimited(o), k)[j],
        ),
    decreases segments_spec(t).len() - k,
{
    let u = unlimited(o);
    if 0 <= k < segments_spec(t).len() {
        lemma_seg_step_ok(d, p, t, u, k);
        lemma_seg_step_fits(d, p, t, o, k);
        let (h, next) = seg_step(d, p, t, u, k);
        lemma_hits_from_fits(d, p, t, o, next);
        let all = hits_from(d, p, t, u, k);
        assert(all == h + hits_from(d, p, t, u, next));
        assert forall|j: int| 0 <= j < all.len() implies phrase_hit_fits(d, p, t, o, #[trigger] all[j]) by {
            if j >= h.len() {
                assert(all[j] == hits_from(d, p, t, u, next)[j - h.len()]);
            }
        }
    }
}

/// Whitelisting suppresses every kind of match: a reported match that is
/// not a phrase never covers text whose normalized form is whitelisted, and
/// a reported phrase fits a window of segments none of whose normalized
/// forms is whitelisted.
pub proof fn law_whitelist_suppresses(d: Dictionary, p: TextProcessor, t: Seq<char>, o: Options)
    requires
        t.len() <= usize::MAX,
        d.entries().len() <= usize::MAX,
    ensures
        forall|j: int| #![trigger find_spec(d, p, t, o)[j]] 0 <= j < find_spec(d, p, t, o).len() ==> {
            let h = find_spec(d, p, t, o)[j];
            &&& h.kind != MatchKind::Phrase ==> !d.whitelist_set().contains(p.process(t.subrange(h.start as int, h.end as int)))
            &&& phrase_hit_fits(d, p, t, o, h)
        },
{
    lemma_find_spec_is_scan(d, p, t, o);
    lemma_hits_from_ok(d, p, t, unlimited(o), 0);
    lemma_hits_from_fits(d, p, t, o, 0);
    let s = scan_hits(d, p, t, o);
    let f = find_spec(d, p, t, o);
    assert forall|j: int| 0 <= j < f.len() implies {
        &&& (#[trigger] f[j]).kind != MatchKind::Phrase ==> !d.whitelist_set().contains(p.process(t.subrange(f[j].start as int, f[j].end as int)))
        &&& phrase_hit_fits(d, p, t, o, f[j])
    } by {
        assert(f[j] == s[j]);
        assert(hit_ok(d, p, t, s[j]));
    }
}

// -- resolved hits --------------------------------------------------------------

/// Hits come in order of position and never overlap.
pub open spec fn sorted_disjoint(s: Seq<Hit>) -> bool {
    forall|i: int, j: int| 0 <= i < j < s.len() ==> (#[trigger] s[i]).end <= (#[trigger] s[j]).start
}

proof fn lemma_sort_ok(d: Dictionary, p: TextProcessor, t: Seq<char>, s: Seq<Hit>)
    requires
        forall|j: int| 0 <= j < s.len() ==> hit_ok(d, p, t, #[trigger] s[j]),
    ensures
        sort_hits(s).len() == s.len(),
        forall|j: int| 0 <= j < sort_hits(s).len() ==> hit_ok(d, p, t, #[trigger] sort_hits(s)[j]),
    decreases s.len(),
{
    lemma_sort_len(s);
    if s.len() > 0 {
        let q = sort_hits(s.drop_last());
        lemma_sort_ok(d, p, t, s.drop_last());
        let x = s.last();
        assert(hit_ok(d, p, t, s[s.len() - 1]));
        let pos = insert_pos(q, x, 0);
        lemma_insert_pos_bounds(q, x, 0);
        let r = q.insert(pos, x);
        assert(sort_hits(s) == r);
        assert forall|j: int| 0 <= j < r.len() implies hit_ok(d, p, t, #[trigger] r[j]) by {
            if j < pos {
                assert(r[j] == q[j]);
            } else if j > pos {
                assert(r[j] == q[j - 1]);
            }
        }
    }
}

proof fn lemma_keep_ok(d: Dictionary, p: TextProcessor, t: Seq<char>, s: Seq<Hit>)
    requires
        forall|j: int| 0 <= j < s.len() ==> hit_ok(d, p, t, #[trigger] s[j]),
    ensures
        forall|j: int| 0 <= j < keep_disjoint(s).0.len() ==> hit_ok(d, p, t, #[trigger] keep_disjoint(s).0[j]),
        sorted_disjoint(keep_disjoint(s).0),
        forall|j: int| 0 <= j < keep_disjoint(s).0.len() ==> (#[trigger] keep_disjoint(s).0[j]).end <= keep_disjoint(s).1,
        s.len() > 0 ==> keep_disjoint(s).0.len() > 0,
        keep_disjoint(s).0.len() <= s.len(),
    decreases s.len(),
{
    if s.len() > 0 {
        lemma_keep_ok(d, p, t, s.drop_last());
        let (k, last_end) = keep_disjoint(s.drop_last());
        let m = s.last();
        assert(hit_ok(d, p, t, s[s.len() - 1]));
        if k.len() == 0 || m.start >= last_end {
            let r = k.push(m);
            assert forall|j: int| 0 <= j < r.len() implies hit_ok(d, p, t, #[trigger] r[j]) by {
                if j < k.len() {
                    assert(r[j] == k[j]);
                }
            }
            assert forall|i: int, j: int| 0 <= i < j < r.len() implies (#[trigger] r[i]).end <= (#[trigger] r[j]).start by {
                assert(r[i] == k[i]);
                if j < k.len() {
                    assert(r[j] == k[j]);
                } else {
                    assert(k[i].end <= last_end);
                }
            }
            assert forall|j: int| 0 <= j < r.len() implies (#[trigger] r[j]).end <= m.end as int by {
                if j < k.len() {
                    assert(r[j] == k[j]);
                    assert(k[j].end <= last_end);
                }
            }
        }
    }
}

/// Resolved and truncated hits are valid, in order and disjoint, and
/// non-empty exactly when the scan found something and the maximum allows.
pub proof fn lemma_find_spec_ok(d: Dictionary, p: TextProcessor, t: Seq<char>, o: Options)
    requires
        t.len() <= usize::MAX,
        d.entries().len() <= usize::MAX,
    ensures
        forall|j: int| 0 <= j < find_spec(d, p, t, o).len() ==> hit_ok(d, p, t, #[trigger] find_spec(d, p, t, o)[j]),
        forall|j: int| 0 <= j < first_spec(d, p, t, o).len() ==> hit_ok(d, p, t, #[trigger] first_spec(d, p, t, o)[j]),
        sorted_disjoint(find_spec(d, p, t, o)),
        o.max_matches != Some(0usize) ==> (find_spec(d, p, t, o).len() > 0 <==> first_spec(d, p, t, o).len() > 0),
{
    let s = scan_hits(d, p, t, o);
    lemma_hits_from_ok(d, p, t, unlimited(o), 0);
    let r = resolve_spec(s);
    if s.len() >= 2 {
        lemma_sort_ok(d, p, t, s);
        lemma_keep_ok(d, p, t, sort_hits(s));
    } else if s.len() == 1 {
        assert(sorted_disjoint(s));
    }
    let f = find_spec(d, p, t, o);
    assert(f == truncate_spec(r, o.max_matches));
    match o.max_matches {
        Some(n) => {
            if n < r.len() {
                assert forall|j: int| 0 <= j < f.len() implies hit_ok(d, p, t, #[trigger] f[j]) by {
                    assert(f[j] == r[j]);
                }
                assert forall|i: int, j: int| 0 <= i < j < f.len() implies (#[trigger] f[i]).end <= (#[trigger] f[j]).start by {
                    assert(f[i] == r[i]);
                    assert(f[j] == r[j]);
                }
            }
        },
        None => {},
    }
    if s.len() > 0 {
        assert(hit_ok(d, p, t, s[0]));
    }
}

proof fn lemma_keep_nonempty(s: Seq<Hit>)
    ensures
        s.len() > 0 ==> keep_disjoint(s).0.len() > 0,
    decreases s.len(),
{
    if s.len() > 0 {
        lemma_keep_nonempty(s.drop_last());
    }
}

/// Stopping at the first match and collecting every match agree on whether
/// there is one, unless the search may report no match at all.
pub proof fn law_first_agrees_with_find(d: Dictionary, p: TextProcessor, t: Seq<char>, o: Options)
    requires
        o.max_matches != Some(0usize),
    ensures
        (first_spec(d, p, t, o).len() > 0) == (find_spec(d, p, t, o).len() > 0),
{
    let s = scan_hits(d, p, t, o);
    lemma_sort_len(s);
    lemma_keep_nonempty(sort_hits(s));
}

/// Every hit a search reports is a non-empty span inside the text.
pub proof fn lemma_find_spec_hits_in_text(d: Dictionary, p: TextProcessor, t: Seq<char>, o: Options)
    requires
        t.len() <= usize::MAX,
        d.entries().len() <= usize::MAX,
    ensures
        forall|k: int| 0 <= k < find_spec(d, p, t, o).len() ==> (#[trigger] find_spec(d, p, t, o)[k]).start
            < find_spec(d, p, t, o)[k].end <= t.len(),
{
    lemma_find_spec_ok(d, p, t, o);
    assert forall|k: int| 0 <= k < find_spec(d, p, t, o).len() implies (#[trigger] find_spec(d, p, t, o)[k]).start
        < find_spec(d, p, t, o)[k].end <= t.len() by {
        assert(hit_ok(d, p, t, find_spec(d, p, t, o)[k]));
    }
}

// -- the scan is already in order ---------------------------------------------

/// Hits of pieces lying in order inside `[lo, hi]` lie there too, in order.
proof fn lemma_pieces_hits_ordered(
    d: Dictionary,
    p: TextProcessor,
    t: Seq<char>,
    o: Options,
    pieces: Seq<(int, int)>,
    lo: int,
    hi: int,
)
    requires
        forall|j: int| 0 <= j < pieces.len() ==> lo <= (#[trigger] pieces[j]).0 < pieces[j].1 <= hi,
        forall|i: int, j: int| 0 <= i < j < pieces.len() ==> (#[trigger] pieces[i]).1 <= (#[trigger] pieces[j]).0,
        0 <= lo,
        hi <= t.len(),
        t.len() <= usize::MAX,
        d.entries().len() <= usize::MAX,
    ensures
        sorted_disjoint(pieces_hits(d, p, t, o, pieces)),
        forall|j: int| 0 <= j < pieces_hits(d, p, t, o, pieces).len() ==> lo <= (#[trigger] pieces_hits(
            d,
            p,
            t,
            o,
            pieces,
        )[j]).start && pieces_hits(d, p, t, o, pieces)[j].end <= hi,
    decreases pieces.len(),
{
    if pieces.len() > 0 {
        let (s, e) = pieces.last();
        assert(pieces.last() == pieces[pieces.len() - 1]);
        let init = pieces.drop_last();
        assert forall|j: int| 0 <= j < init.len() implies lo <= (#[trigger] init[j]).0 < init[j].1 <= s by {
            assert(init[j] == pieces[j]);
        }
        assert forall|i: int, j: int| 0 <= i < j < init.len() implies (#[trigger] init[i]).1 <= (#[trigger] init[j]).0 by {
            assert(init[i] == pieces[i]);
            assert(init[j] == pieces[j]);
        }
        lemma_pieces_hits_ordered(d, p, t, o, init, lo, s);
        lemma_unit_hit_ok(d, p, t, o, s, e);
        let prev = pieces_hits(d, p, t, o, init);
        let all = pieces_hits(d, p, t, o, pieces);
        match unit_hit(d, p, t, o, s, e, p.process(t.subrange(s, e))) {
            Some(h) => {
                assert(all == prev.push(h));
                assert forall|i: int, j: int| 0 <= i < j < all.len() implies (#[trigger] all[i]).end <= (
                #[trigger] all[j]).start by {
                    assert(all[i] == prev[i]);
                    if j < prev.len() {
                        assert(all[j] == prev[j]);
                    }
                }
                assert forall|j: int| 0 <= j < all.len() implies lo <= (#[trigger] all[j]).start && all[j].end
                    <= hi by {
                    if j < prev.len() {
                        assert(all[j] == prev[j]);
                    }
                }
            },
            None => {},
        }
    }
}

/// Pieces that are in order pairwise, not only next to each other.
proof fn lemma_subtokens_ordered(t: Seq<char>, s: int, e: int)
    requires
        0 <= s <= e <= t.len(),
    ensures
        forall|i: int, j: int| 0 <= i < j < subtokens_spec(t, s, e).len() ==> (#[trigger] subtokens_spec(t, s, e)[i]).1
            <= (#[trigger] subtokens_spec(t, s, e)[j]).0,
{
    crate::tokenize::lemma_subtokens_wf(t, s, e);
    let q = subtokens_spec(t, s, e);
    assert forall|i: int, j: int| 0 <= i < j < q.len() implies (#[trigger] q[i]).1 <= (#[trigger] q[j]).0 by {
        lemma_chain_ordered(q, i, j);
    }
}

proof fn lemma_chain_ordered(q: Seq<(int, int)>, i: int, j: int)
    requires
        0 <= i < j < q.len(),
        forall|k: int| 0 <= k < q.len() ==> (#[trigger] q[k]).0 < q[k].1,
        forall|k: int| 0 <= k < q.len() - 1 ==> #[trigger] q[k].1 < q[k + 1].0,
    ensures
        q[i].1 <= q[j].0,
    decreases j - i,
{
    if j > i + 1 {
        lemma_chain_ordered(q, i, j - 1);
        assert(q[j - 1].0 < q[j - 1].1);
    }
}

/// The hits of the step at segment `k` are in order and lie between the
/// start of segment `k` and the end of the segment before the next step.
proof fn lemma_seg_step_ordered(d: Dictionary, p: TextProcessor, t: Seq<char>, o: Options, k: int)
    requires
        0 <= k < segments_spec(t).len(),
        t.len() <= usize::MAX,
        d.entries().len() <= usize::MAX,
    ensures
        sorted_disjoint(seg_step(d, p, t, o, k).0),
        forall|j: int| 0 <= j < seg_step(d, p, t, o, k).0.len() ==> segments_spec(t)[k].0 <= (
        #[trigger] seg_step(d, p, t, o, k).0[j]).start && seg_step(d, p, t, o, k).0[j].end <= segments_spec(
            t,
        )[seg_step(d, p, t, o, k).1 - 1].1,
{
    lemma_seg_step_ok(d, p, t, o, k);
    let (s, e) = seg_span(t, o, k);
    lemma_seg_span_bounds(t, o, k);
    let base = seg_base(p, t, o, k);
    let (h, next) = seg_step(d, p, t, o, k);
    if base.len() == 0 {
    } else if o.phrases && phrase_hit(d, p, t, o, k) is Some {
        let id = phrase_hit(d, p, t, o, k)->0;
        let w = phrase_window(p, t, o, k, d.token_counts()[id] as int);
        let last = w[w.len() - 1];
        assert(next == last + 1);
        lemma_seg_span_bounds(t, o, last);
    } else {
        lemma_unit_hit_ok(d, p, t, o, s, e);
        match unit_hit(d, p, t, o, s, e, base) {
            Some(x) => {},
            None => {
                if o.split_on_punctuation {
                    crate::tokenize::lemma_subtokens_wf(t, s, e);
                    lemma_subtokens_ordered(t, s, e);
                    lemma_pieces_hits_ordered(d, p, t, o, subtokens_spec(t, s, e), s, e);
                }
            },
        }
    }
}

/// The scan from segment `k` on yields hits in order, none overlapping,
/// none starting before segment `k`.
proof fn lemma_hits_from_ordered(d: Dictionary, p: TextProcessor, t: Seq<char>, o: Options, k: int)
    requires
        0 <= k,
        t.len() <= usize::MAX,
        d.entries().len() <= usize::MAX,
    ensures
        sorted_disjoint(hits_from(d, p, t, o, k)),
        k < segments_spec(t).len() ==> forall|j: int| 0 <= j < hits_from(d, p, t, o, k).len() ==> segments_spec(t)[k].0
            <= (#[trigger] hits_from(d, p, t, o, k)[j]).start,
    decreases segments_spec(t).len() - k,
{
    if k < segments_spec(t).len() {
        lemma_seg_step_ok(d, p, t, o, k);
        lemma_seg_step_ordered(d, p, t, o, k);
        let (h, next) = seg_step(d, p, t, o, k);
        let all = hits_from(d, p, t, o, k);
        if next < segments_spec(t).len() {
            lemma_hits_from_ordered(d, p, t, o, next);
            let rest = hits_from(d, p, t, o, next);
            assert(all == h + rest);
            crate::tokenize::lemma_segments_wf(t);
            crate::tokenize::lemma_segments_ordered(t, k, next);
            assert(segments_spec(t)[next - 1].1 < segments_spec(t)[next].0);
            assert forall|i: int, j: int| 0 <= i < j < all.len() implies (#[trigger] all[i]).end <= (
            #[trigger] all[j]).start by {
                if j < h.len() {
                    assert(all[i] == h[i]);
                    assert(all[j] == h[j]);
                } else if i >= h.len() {
                    assert(all[i] == rest[i - h.len()]);
                    assert(all[j] == rest[j - h.len()]);
                } else {
                    assert(all[i] == h[i]);
                    assert(all[j] == rest[j - h.len()]);
                }
            }
            assert forall|j: int| 0 <= j < all.len() implies segments_spec(t)[k].0 <= (#[trigger] all[j]).start by {
                if j < h.len() {
                    assert(all[j] == h[j]);
                } else {
                    assert(all[j] == rest[j - h.len()]);
                }
            }
        } else {
            assert(all == h) by {
                if next == segments_spec(t).len() {
                    assert(hits_from(d, p, t, o, next) =~= Seq::<Hit>::empty());
                    assert(all =~= h + Seq::<Hit>::empty());
                }
            }
        }
    }
}

proof fn lemma_insert_pos_end(s: Seq<Hit>, x: Hit, i: int)
    requires
        0 <= i <= s.len(),
        forall|j: int| i <= j < s.len() ==> !sorts_before(x, #[trigger] s[j]),
    ensures
        insert_pos(s, x, i) == s.len(),
    decreases s.len() - i,
{
    if i < s.len() {
        lemma_insert_pos_end(s, x, i + 1);
    }
}

/// Sorting hits that are already in order, each non-empty, changes nothing.
proof fn lemma_sort_sorted(s: Seq<Hit>)
    requires
        sorted_disjoint(s),
        forall|j: int| 0 <= j < s.len() ==> (#[trigger] s[j]).start < s[j].end,
    ensures
        sort_hits(s) == s,
    decreases s.len(),
{
    if s.len() > 0 {
        let init = s.drop_last();
        assert forall|i: int, j: int| 0 <= i < j < init.len() implies (#[trigger] init[i]).end <= (#[trigger] init[j]).start by {
            assert(init[i] == s[i]);
            assert(init[j] == s[j]);
        }
        assert forall|j: int| 0 <= j < init.len() implies (#[trigger] init[j]).start < init[j].end by {
            assert(init[j] == s[j]);
        }
        lemma_sort_sorted(init);
        let x = s.last();
        assert(x == s[s.len() - 1]);
        assert forall|j: int| 0 <= j < init.len() implies !sorts_before(x, #[trigger] init[j]) by {
            assert(init[j] == s[j]);
            assert(s[j].end <= s[s.len() - 1].start);
        }
        lemma_insert_pos_end(init, x, 0);
        assert(init.insert(init.len() as int, x) =~= s);
    }
}

/// Keeping the disjoint hits of hits that are already disjoint keeps them
/// all.
proof fn lemma_keep_sorted(s: Seq<Hit>)
    requires
        sorted_disjoint(s),
    ensures
        keep_disjoint(s).0 == s,
        s.len() > 0 ==> keep_disjoint(s).1 == s.last().end as int,
    decreases s.len(),
{
    if s.len() > 0 {
        let init = s.drop_last();
        assert forall|i: int, j: int| 0 <= i < j < init.len() implies (#[trigger] init[i]).end <= (#[trigger] init[j]).start by {
            assert(init[i] == s[i]);
            assert(init[j] == s[j]);
        }
        lemma_keep_sorted(init);
        if init.len() > 0 {
            assert(init.last() == s[s.len() - 2]);
            assert(s[s.len() - 2].end <= s[s.len() - 1].start);
        }
        assert(init.push(s.last()) =~= s);
    }
}

/// The scan's hits need no resolving: a full search reports them as they
/// are, up to the maximum.
pub proof fn lemma_find_spec_is_scan(d: Dictionary, p: TextProcessor, t: Seq<char>, o: Options)
    requires
        t.len() <= usize::MAX,
        d.entries().len() <= usize::MAX,
    ensures
        find_spec(d, p, t, o) == truncate_spec(scan_hits(d, p, t, o), o.max_matches),
{
    let s = scan_hits(d, p, t, o);
    lemma_hits_from_ok(d, p, t, unlimited(o), 0);
    lemma_hits_from_ordered(d, p, t, unlimited(o), 0);
    assert forall|j: int| 0 <= j < s.len() implies (#[trigger] s[j]).start < s[j].end by {
        assert(hit_ok(d, p, t, s[j]));
    }
    if s.len() >= 2 {
        lemma_sort_sorted(s);
        lemma_keep_sorted(s);
    }
}

/// The first match is the first of all the matches: stopping at the first
/// hit reports exactly the hit a full search lists first, unless the
/// search may report no match at all.
pub proof fn law_first_is_first_of_find(d: Dictionary, p: TextProcessor, t: Seq<char>, o: Options)
    requires
        o.max_matches != Some(0usize),
        t.len() <= usize::MAX,
        d.entries().len() <= usize::MAX,
    ensures
        find_spec(d, p, t, o).len() == 0 ==> first_spec(d, p, t, o).len() == 0,
        find_spec(d, p, t, o).len() > 0 ==> first_spec(d, p, t, o) == seq![find_spec(d, p, t, o)[0]],
{
    lemma_find_spec_is_scan(d, p, t, o);
}

// -- turning a detector on ----------------------------------------------------

/// `o2` has every detector on that `o` has on, and otherwise matches the
/// same way: same threshold, phrases, span and minimum substring length.
pub open spec fn widens(o2: Options, o: Options) -> bool {
    &&& o.split_on_punctuation ==> o2.split_on_punctuation
    &&& o.collapse_repeats ==> o2.collapse_repeats
    &&& o.leetspeak ==> o2.leetspeak
    &&& o.match_mode == MatchMode::Substring ==> o2.match_mode == MatchMode::Substring
    &&& o2.match_threshold == o.match_threshold
    &&& o2.phrases == o.phrases
    &&& o2.span == o.span
    &&& o2.min_substring_len == o.min_substring_len
}

/// Hit `outer` spans at least the text of hit `inner`.
pub open spec fn covers(outer: Hit, inner: Hit) -> bool {
    outer.start <= inner.start && inner.end <= outer.end
}

/// Some hit of `b` spans at least the text of `h`.
pub open spec fn covered_at(b: Seq<Hit>, h: Hit) -> bool {
    exists|j: int| 0 <= j < b.len() && #[trigger] covers(b[j], h)
}

/// Every hit of `a` lies inside some hit of `b`.
pub open spec fn covered_by(a: Seq<Hit>, b: Seq<Hit>) -> bool {
    forall|i: int| 0 <= i < a.len() ==> #[trigger] covered_at(b, a[i])
}

proof fn lemma_covered_refl(a: Seq<Hit>)
    ensures
        covered_by(a, a),
{
    assert forall|i: int| 0 <= i < a.len() implies #[trigger] covered_at(a, a[i]) by {
        assert(covers(a[i], a[i]));
    }
}

proof fn lemma_covered_concat(a1: Seq<Hit>, a2: Seq<Hit>, b1: Seq<Hit>, b2: Seq<Hit>)
    requires
        covered_by(a1, b1),
        covered_by(a2, b2),
    ensures
        covered_by(a1 + a2, b1 + b2),
{
    let a = a1 + a2;
    let b = b1 + b2;
    assert forall|i: int| 0 <= i < a.len() implies #[trigger] covered_at(b, a[i]) by {
        if i < a1.len() {
            assert(a[i] == a1[i]);
            assert(covered_at(b1, a1[i]));
            let j = choose|j: int| 0 <= j < b1.len() && #[trigger] covers(b1[j], a1[i]);
            assert(b[j] == b1[j]);
            assert(covers(b[j], a[i]));
        } else {
            assert(a[i] == a2[i - a1.len()]);
            assert(covered_at(b2, a2[i - a1.len()]));
            let j = choose|j: int| 0 <= j < b2.len() && #[trigger] covers(b2[j], a2[i - a1.len()]);
            assert(b[b1.len() + j] == b2[j]);
            assert(covers(b[b1.len() + j], a[i]));
        }
    }
}

proof fn lemma_covered_empty(b: Seq<Hit>)
    ensures
        covered_by(Seq::<Hit>::empty(), b),
{
}

proof fn lemma_covered_take(a: Seq<Hit>, b: Seq<Hit>, n: int)
    requires
        covered_by(a, b),
        0 <= n <= a.len(),
    ensures
        covered_by(a.take(n), b),
{
    assert forall|i: int| 0 <= i < a.take(n).len() implies #[trigger] covered_at(b, a.take(n)[i]) by {
        assert(a.take(n)[i] == a[i]);
    }
}

/// A form that names a single-token entry.
pub open spec fn exact_ok(d: Dictionary, f: Seq<char>) -> bool {
    form_usable(d, f) && d.lookup_spec(f) is Some && d.token_counts()[d.lookup_spec(f)->0] <= 1
}

proof fn lemma_exact_from_none(d: Dictionary, forms: Seq<(Seq<char>, MatchKind)>, i: int)
    requires
        0 <= i,
    ensures
        exact_from(d, forms, i) is None <==> forall|j: int| i <= j < forms.len() ==> !exact_ok(d, #[trigger] forms[j].0),
    decreases forms.len() - i,
{
    if i < forms.len() {
        lemma_exact_from_none(d, forms, i + 1);
    }
}

proof fn lemma_fuzzy_from_none(d: Dictionary, forms: Seq<(Seq<char>, MatchKind)>, o: Options, i: int)
    requires
        0 <= i,
    ensures
        fuzzy_from(d, forms, o, i) is None <==> forall|j: int| i <= j < forms.len() ==> !(form_usable(
            d,
            #[trigger] forms[j].0,
        ) && fuzzy_best(d, forms[j].0, o.match_threshold, o.phrases) is Some),
    decreases forms.len() - i,
{
    if i < forms.len() {
        lemma_fuzzy_from_none(d, forms, o, i + 1);
    }
}

/// Every candidate form of a unit under `o` is one under `o2` too.
proof fn lemma_forms_widen(p: TextProcessor, t: Seq<char>, s: int, e: int, base: Seq<char>, o: Options, o2: Options)
    requires
        widens(o2, o),
    ensures
        forall|i: int| 0 <= i < forms_spec(p, t, s, e, base, o).len() ==> forms_spec(p, t, s, e, base, o2).contains(
            #[trigger] forms_spec(p, t, s, e, base, o)[i],
        ),
{
    let f1 = forms_spec(p, t, s, e, base, o);
    let f2 = forms_spec(p, t, s, e, base, o2);
    let leet1: Seq<(Seq<char>, MatchKind)> = if o.leetspeak {
        match leet_form_spec(t.subrange(s, e)) {
            Some(dec) => if p.process(dec) != base {
                seq![(p.process(dec), MatchKind::Leet)]
            } else {
                seq![]
            },
            None => seq![],
        }
    } else {
        seq![]
    };
    let leet2: Seq<(Seq<char>, MatchKind)> = if o2.leetspeak {
        match leet_form_spec(t.subrange(s, e)) {
            Some(dec) => if p.process(dec) != base {
                seq![(p.process(dec), MatchKind::Leet)]
            } else {
                seq![]
            },
            None => seq![],
        }
    } else {
        seq![]
    };
    let c1: Seq<(Seq<char>, MatchKind)> = if o.collapse_repeats {
        collapse_forms_spec(base).map_values(|f: Seq<char>| (f, MatchKind::Collapsed))
    } else {
        seq![]
    };
    let c2: Seq<(Seq<char>, MatchKind)> = if o2.collapse_repeats {
        collapse_forms_spec(base).map_values(|f: Seq<char>| (f, MatchKind::Collapsed))
    } else {
        seq![]
    };
    assert(f1 == seq![(base, MatchKind::Exact)] + leet1 + c1);
    assert(f2 == seq![(base, MatchKind::Exact)] + leet2 + c2);
    assert(leet1.len() == 0 || leet1 == leet2);
    assert(c1.len() == 0 || c1 == c2);
    assert forall|i: int| 0 <= i < f1.len() implies f2.contains(#[trigger] f1[i]) by {
        if i == 0 {
            assert(f2[0] == f1[0]);
        } else if i - 1 < leet1.len() {
            assert(f1[i] == leet1[i - 1]);
            assert(f2[i] == leet2[i - 1]);
            assert(f2[i] == f1[i]);
        } else {
            let j = i - leet1.len() + leet2.len();
            assert(f1[i] == c1[i - 1 - leet1.len()]);
            assert(f2[j] == c2[i - 1 - leet1.len()]);
            assert(f2[j] == f1[i]);
        }
    }
}

/// A unit that matches under `o` matches under `o2`.
proof fn lemma_unit_hit_widens(
    d: Dictionary,
    p: TextProcessor,
    t: Seq<char>,
    o: Options,
    o2: Options,
    s: int,
    e: int,
    base: Seq<char>,
)
    requires
        widens(o2, o),
    ensures
        unit_hit(d, p, t, o, s, e, base) is Some ==> unit_hit(d, p, t, o2, s, e, base) is Some,
{
    let f1 = forms_spec(p, t, s, e, base, o);
    let f2 = forms_spec(p, t, s, e, base, o2);
    if unit_hit(d, p, t, o, s, e, base) is Some && !(base.len() == 0 || d.whitelist_set().contains(base)) {
        lemma_forms_widen(p, t, s, e, base, o, o2);
        lemma_exact_from_none(d, f1, 0);
        lemma_exact_from_none(d, f2, 0);
        if exact_from(d, f1, 0) is Some {
            let i = choose|i: int| 0 <= i < f1.len() && exact_ok(d, #[trigger] f1[i].0);
            assert(f2.contains(f1[i]));
            let j = choose|j: int| 0 <= j < f2.len() && f2[j] == f1[i];
            assert(exact_ok(d, f2[j].0));
        } else if exact_from(d, f2, 0) is None {
            if o.match_threshold.is_fuzzy_spec() && fuzzy_from(d, f1, o, 0) is Some {
                lemma_fuzzy_from_none(d, f1, o, 0);
                lemma_fuzzy_from_none(d, f2, o2, 0);
                let i = choose|i: int| 0 <= i < f1.len() && (form_usable(d, #[trigger] f1[i].0) && fuzzy_best(
                    d,
                    f1[i].0,
                    o.match_threshold,
                    o.phrases,
                ) is Some);
                assert(f2.contains(f1[i]));
                let j = choose|j: int| 0 <= j < f2.len() && f2[j] == f1[i];
                assert(form_usable(d, f2[j].0) && fuzzy_best(d, f2[j].0, o2.match_threshold, o2.phrases) is Some);
            }
        }
    }
}

/// The pieces' hits under `o` lie inside pieces' hits under `o2`.
proof fn lemma_pieces_hits_widen(d: Dictionary, p: TextProcessor, t: Seq<char>, o: Options, o2: Options, pieces: Seq<(int, int)>)
    requires
        widens(o2, o),
        forall|j: int| 0 <= j < pieces.len() ==> 0 <= (#[trigger] pieces[j]).0 < pieces[j].1 <= t.len(),
        t.len() <= usize::MAX,
        d.entries().len() <= usize::MAX,
    ensures
        covered_by(pieces_hits(d, p, t, o, pieces), pieces_hits(d, p, t, o2, pieces)),
    decreases pieces.len(),
{
    if pieces.len() > 0 {
        let (s, e) = pieces.last();
        assert(pieces.last() == pieces[pieces.len() - 1]);
        let init = pieces.drop_last();
        assert forall|j: int| 0 <= j < init.len() implies 0 <= (#[trigger] init[j]).0 < init[j].1 <= t.len() by {
            assert(init[j] == pieces[j]);
        }
        lemma_pieces_hits_widen(d, p, t, o, o2, init);
        let base = p.process(t.subrange(s, e));
        lemma_unit_hit_widens(d, p, t, o, o2, s, e, base);
        lemma_unit_hit_ok(d, p, t, o, s, e);
        lemma_unit_hit_ok(d, p, t, o2, s, e);
        let a0 = pieces_hits(d, p, t, o, init);
        let b0 = pieces_hits(d, p, t, o2, init);
        let a = pieces_hits(d, p, t, o, pieces);
        let b = pieces_hits(d, p, t, o2, pieces);
        match unit_hit(d, p, t, o, s, e, base) {
            Some(h) => {
                let h2 = unit_hit(d, p, t, o2, s, e, base)->0;
                assert(a == a0 + seq![h]);
                assert(b == b0 + seq![h2]);
                assert(covered_by(seq![h], seq![h2])) by {
                    assert(covers(seq![h2][0], seq![h][0]));
                }
                lemma_covered_concat(a0, seq![h], b0, seq![h2]);
            },
            None => {
                assert(a == a0 + Seq::<Hit>::empty());
                match unit_hit(d, p, t, o2, s, e, base) {
                    Some(h2) => {
                        assert(b == b0 + seq![h2]);
                        lemma_covered_concat(a0, Seq::<Hit>::empty(), b0, seq![h2]);
                    },
                    None => {},
                }
            },
        }
    }
}

/// Splitting `t` into segments does not depend on the detectors.
proof fn lemma_contents_same(p: TextProcessor, t: Seq<char>, o: Options, o2: Options, j: int, n: nat)
    requires
        o2.span == o.span,
    ensures
        contents_from(p, t, o, j, n) == contents_from(p, t, o2, j, n),
    decreases segments_spec(t).len() - j,
{
    if !(n == 0 || j < 0 || j >= segments_spec(t).len()) {
        assert(seg_base(p, t, o, j) == seg_base(p, t, o2, j));
        if seg_base(p, t, o, j).len() > 0 {
            lemma_contents_same(p, t, o, o2, j + 1, (n - 1) as nat);
        } else {
            lemma_contents_same(p, t, o, o2, j + 1, n);
        }
    }
}

/// Which phrase matches at a segment does not depend on the detectors.
proof fn lemma_phrase_hit_same(d: Dictionary, p: TextProcessor, t: Seq<char>, o: Options, o2: Options, k: int)
    requires
        o2.span == o.span,
    ensures
        phrase_hit(d, p, t, o, k) == phrase_hit(d, p, t, o2, k),
        forall|n: int| phrase_window(p, t, o, k, n) == #[trigger] phrase_window(p, t, o2, k, n),
{
    assert forall|x: int|
        #![trigger seg_base(p, t, o, x)]
        #![trigger seg_base(p, t, o2, x)]
        seg_base(p, t, o, x) == seg_base(p, t, o2, x) by {}
    assert forall|n: int| phrase_window(p, t, o, k, n) == #[trigger] phrase_window(p, t, o2, k, n) by {
        lemma_contents_same(p, t, o, o2, k + 1, (n - 1) as nat);
    }
    assert forall|id: int|
        #![trigger phrase_ok(d, p, t, o, k, id)]
        #![trigger phrase_ok(d, p, t, o2, k, id)]
        phrase_ok(d, p, t, o, k, id) == phrase_ok(d, p, t, o2, k, id) by {
        let n = d.token_counts()[id] as int;
        assert(phrase_window(p, t, o, k, n) == phrase_window(p, t, o2, k, n));
    }
    assert forall|id: int| phrase_first(d, p, t, o, k, id) == #[trigger] phrase_first(d, p, t, o2, k, id) by {}
    if exists|id: int| phrase_first(d, p, t, o, k, id) {
        let a = choose|id: int| phrase_first(d, p, t, o, k, id);
        assert(phrase_first(d, p, t, o2, k, a));
        let b = choose|id: int| phrase_first(d, p, t, o2, k, id);
        assert(phrase_first(d, p, t, o, k, b));
        if a != b {
            assert(d.tried_before(a, b));
            assert(d.tried_before(b, a));
        }
    } else {
        assert forall|id: int| !phrase_first(d, p, t, o2, k, id) by {
            assert(!phrase_first(d, p, t, o, k, id));
        }
    }
}

/// The step at segment `k` goes on from the same segment either way, and
/// each of its hits under `o` lies inside one under `o2`.
proof fn lemma_seg_step_widens(d: Dictionary, p: TextProcessor, t: Seq<char>, o: Options, o2: Options, k: int)
    requires
        widens(o2, o),
        0 <= k < segments_spec(t).len(),
        t.len() <= usize::MAX,
        d.entries().len() <= usize::MAX,
    ensures
        seg_step(d, p, t, o, k).1 == seg_step(d, p, t, o2, k).1,
        covered_by(seg_step(d, p, t, o, k).0, seg_step(d, p, t, o2, k).0),
{
    let (s, e) = seg_span(t, o, k);
    assert(seg_span(t, o2, k) == (s, e));
    lemma_seg_span_bounds(t, o, k);
    let base = seg_base(p, t, o, k);
    assert(seg_base(p, t, o2, k) == base);
    lemma_phrase_hit_same(d, p, t, o, o2, k);
    let (h1, n1) = seg_step(d, p, t, o, k);
    let (h2, n2) = seg_step(d, p, t, o2, k);
    if base.len() == 0 {
        lemma_covered_empty(h2);
    } else if o.phrases && phrase_hit(d, p, t, o, k) is Some {
        let id = phrase_hit(d, p, t, o, k)->0;
        let n = d.token_counts()[id] as int;
        assert(phrase_window(p, t, o, k, n) == phrase_window(p, t, o2, k, n));
        let w = phrase_window(p, t, o, k, n);
        let last = w[w.len() - 1];
        assert(seg_span(t, o, last) == seg_span(t, o2, last));
        assert(h1 == h2);
        lemma_covered_refl(h1);
    } else {
        lemma_unit_hit_widens(d, p, t, o, o2, s, e, base);
        lemma_unit_hit_ok(d, p, t, o, s, e);
        lemma_unit_hit_ok(d, p, t, o2, s, e);
        match unit_hit(d, p, t, o, s, e, base) {
            Some(x) => {
                let y = unit_hit(d, p, t, o2, s, e, base)->0;
                assert(h1 == seq![x]);
                assert(h2 == seq![y]);
                assert(covers(h2[0], h1[0]));
            },
            None => {
                if o.split_on_punctuation {
                    crate::tokenize::lemma_subtokens_wf(t, s, e);
                    lemma_subtokens_ordered(t, s, e);
                    let q = subtokens_spec(t, s, e);
                    assert forall|j: int| 0 <= j < q.len() implies 0 <= (#[trigger] q[j]).0 < q[j].1 <= t.len() by {}
                    lemma_pieces_hits_ordered(d, p, t, o, q, s, e);
                    match unit_hit(d, p, t, o2, s, e, base) {
                        Some(y) => {
                            assert(h2 == seq![y]);
                            assert forall|i: int| 0 <= i < h1.len() implies #[trigger] covered_at(h2, h1[i]) by {
                                assert(covers(h2[0], h1[i]));
                            }
                        },
                        None => {
                            lemma_pieces_hits_widen(d, p, t, o, o2, q);
                        },
                    }
                } else {
                    lemma_covered_empty(h2);
                }
            },
        }
    }
}

/// The scan from segment `k` on under `o` is covered by the one under `o2`.
proof fn lemma_hits_from_widen(d: Dictionary, p: TextProcessor, t: Seq<char>, o: Options, o2: Options, k: int)
    requires
        widens(o2, o),
        0 <= k,
        t.len() <= usize::MAX,
        d.entries().len() <= usize::MAX,
    ensures
        covered_by(hits_from(d, p, t, o, k), hits_from(d, p, t, o2, k)),
    decreases segments_spec(t).len() - k,
{
    if k < segments_spec(t).len() {
        lemma_seg_step_ok(d, p, t, o, k);
        lemma_seg_step_widens(d, p, t, o, o2, k);
        let (h1, next) = seg_step(d, p, t, o, k);
        let h2 = seg_step(d, p, t, o2, k).0;
        if next < segments_spec(t).len() {
            lemma_hits_from_widen(d, p, t, o, o2, next);
            lemma_covered_concat(h1, hits_from(d, p, t, o, next), h2, hits_from(d, p, t, o2, next));
        } else {
            assert(hits_from(d, p, t, o, next) =~= Seq::<Hit>::empty());
            assert(hits_from(d, p, t, o2, next) =~= Seq::<Hit>::empty());
            assert(hits_from(d, p, t, o, k) =~= h1);
            assert(hits_from(d, p, t, o2, k) =~= h2);
        }
    }
}

/// Turning a detector on never loses a match: every match found without it
/// lies inside a match found with it, as long as the search with it is not
/// cut short by a maximum.
pub proof fn law_enabling_a_detector_keeps_matches(d: Dictionary, p: TextProcessor, t: Seq<char>, o: Options, o2: Options)
    requires
        widens(o2, o),
        o2.max_matches is None,
        t.len() <= usize::MAX,
        d.entries().len() <= usize::MAX,
    ensures
        covered_by(find_spec(d, p, t, o), find_spec(d, p, t, o2)),
{
    lemma_find_spec_is_scan(d, p, t, o);
    lemma_find_spec_is_scan(d, p, t, o2);
    lemma_hits_from_widen(d, p, t, unlimited(o), unlimited(o2), 0);
    let s = scan_hits(d, p, t, o);
    match o.max_matches {
        Some(n) => {
            if n < s.len() {
                lemma_covered_take(s, scan_hits(d, p, t, o2), n as int);
            }
        },
        None => {},
    }
}

// -- reported matches -------------------------------------------------------------

/// One detected occurrence.
#[derive(Debug, Clone, PartialEq, Eq)]
pub struct Match {
    /// Dictionary entry that matched, as written in the word list.
    pub word: String,
    /// The matched slice of the input; always equal to `text[start..end]`.
    pub matched_text: String,
    /// Byte offset into the input text.
    pub start: usize,
    /// Byte offset into the input text. exclusive.
    pub end: usize,
    /// Language the entry came from, if it came from a word list.
    pub language: Option<String>,
    /// Similarity: `1` for anything but a fuzzy match.
    pub score: Score,
    /// How it was found.
    pub kind: MatchKind,
}

/// The characters of an optional string.
pub open spec fn opt_string_view(o: Option<String>) -> Option<Seq<char>> {
    match o {
        Some(s) => Some(s@),
        None => None,
    }
}

/// Whether `m` reports hit `h` on the text `t`: the entry's raw word, the
/// covered text, the span as byte offsets, the entry's language, the score
/// and the kind.
pub open spec fn reports(d: Dictionary, t: Seq<char>, h: Hit, m: Match) -> bool {
    &&& m.word@ == d.entries()[h.id as int].1
    &&& m.matched_text@ == t.subrange(h.start as int, h.end as int)
    &&& m.start == byte_offset(t, h.start as int)
    &&& m.end == byte_offset(t, h.end as int)
    &&& opt_string_view(m.language) == d.language_of_spec(h.id as int)
    &&& m.score == h.score
    &&& m.kind == h.kind
}

/// Whether `ms` reports the hits `hs`, one for one.
pub open spec fn reports_all(d: Dictionary, t: Seq<char>, hs: Seq<Hit>, ms: Seq<Match>) -> bool {
    &&& hs.len() == ms.len()
    &&& forall|k: int| 0 <= k < hs.len() ==> reports(d, t, #[trigger] hs[k], ms[k])
}

fn make_match(d: &Dictionary, t: &[char], offs: &Vec<usize>, h: Hit) -> (m: Match)
    requires
        h.start <= h.end <= t@.len(),
        h.id < d.entries().len(),
        offs@.len() == t@.len() + 1,
        forall|i: int| 0 <= i <= t@.len() ==> offs@[i] == byte_offset(t@, i),
    ensures
        reports(*d, t@, h, m),
{
    let e = d.entry(h.id);
    let covered = sub_chars(t, h.start, h.end);
    let language = match d.language_of(h.id) {
        Some(l) => Some(l.to_string()),
        None => None,
    };
    Match {
        word: e.raw.clone(),
        matched_text: from_chars(covered.as_slice()),
        start: offs[h.start],
        end: offs[h.end],
        language,
        score: h.score,
        kind: h.kind,
    }
}

/// Every match lies inside the text, matches come in order and never
/// overlap, and a match that is not a phrase never covers text whose
/// normalized form is whitelisted.
pub open spec fn matches_ok(d: Dictionary, p: TextProcessor, t: Seq<char>, ms: Seq<Match>) -> bool {
    &&& forall|k: int| 0 <= k < ms.len() ==> (#[trigger] ms[k]).start < ms[k].end <= crate::text::byte_len(t)
    &&& forall|i: int, j: int| 0 <= i < j < ms.len() ==> (#[trigger] ms[i]).end <= (#[trigger] ms[j]).start
    &&& forall|k: int| 0 <= k < ms.len() && (#[trigger] ms[k]).kind != MatchKind::Phrase ==> !d.whitelist_set().contains(
        p.process(ms[k].matched_text@),
    )
}

/// Search `text`: its characters, the hits, and the matches reporting them.
pub fn search(d: &Dictionary, p: &TextProcessor, text: &str, o: Options, first_only: bool) -> (r: (
    Vec<char>,
    Vec<Hit>,
    Vec<Match>,
))
    ensures
        r.0@ == text@,
        r.1@ == if first_only {
            first_spec(*d, *p, text@, o)
        } else {
            find_spec(*d, *p, text@, o)
        },
        forall|j: int| 0 <= j < r.1@.len() ==> hit_ok(*d, *p, text@, #[trigger] r.1@[j]),
        !first_only ==> sorted_disjoint(r.1@),
        !first_only ==> forall|j: int| 0 <= j < r.1@.len() ==> phrase_hit_fits(*d, *p, text@, o, #[trigger] r.1@[j]),
        reports_all(*d, text@, r.1@, r.2@),
{
    let (t, offs) = crate::text::chars_and_offsets(text);
    let _cap = d.capacity();
    let _len = t.len();
    let hits = find_hits(d, p, t.as_slice(), o, first_only);
    proof {
        lemma_find_spec_ok(*d, *p, t@, o);
        law_whitelist_suppresses(*d, *p, t@, o);
    }
    let mut out: Vec<Match> = Vec::new();
    let mut i: usize = 0;
    while i < hits.len()
        invariant
            i <= hits@.len(),
            t@ == text@,
            offs@.len() == t@.len() + 1,
            forall|j: int| 0 <= j <= t@.len() ==> offs@[j] == byte_offset(t@, j),
            forall|j: int| 0 <= j < hits@.len() ==> hit_ok(*d, *p, t@, #[trigger] hits@[j]),
            out@.len() == i,
            forall|k: int| 0 <= k < i ==> reports(*d, t@, #[trigger] hits@[k], out@[k]),
        decreases hits@.len() - i,
    {
        assert(hit_ok(*d, *p, t@, hits@[i as int]));
        let m = make_match(d, t.as_slice(), &offs, hits[i]);
        out.push(m);
        i += 1;
    }
    (t, hits, out)
}

/// Search `text`: every match, or with `first_only` the first one.
pub fn find_in_text(d: &Dictionary, p: &TextProcessor, text: &str, o: Options, first_only: bool) -> (out: Vec<Match>)
    ensures
        reports_all(
            *d,
            text@,
            if first_only {
                first_spec(*d, *p, text@, o)
            } else {
                find_spec(*d, *p, text@, o)
            },
            out@,
        ),
        matches_ok(*d, *p, text@, out@),
        !first_only ==> forall|k: int| 0 <= k < out@.len() ==> phrase_hit_fits(
            *d,
            *p,
            text@,
            o,
            #[trigger] find_spec(*d, *p, text@, o)[k],
        ),
{
    let (t, hits, out) = search(d, p, text, o, first_only);
    proof {
        let hs = hits@;
        assert(t@.take(t@.len() as int) =~= t@);
        assert forall|k: int| 0 <= k < out@.len() implies (#[trigger] out@[k]).start < out@[k].end <= crate::text::byte_len(
            t@,
        ) by {
            assert(reports(*d, t@, hs[k], out@[k]));
            assert(hit_ok(*d, *p, t@, hs[k]));
            lemma_byte_offset_lt(t@, hs[k].start as int, hs[k].end as int);
            crate::text::lemma_byte_len_take_mono(t@, hs[k].end as int, t@.len() as int);
        }
        if !first_only {
            assert(sorted_disjoint(hs));
        } else {
            assert(hs.len() <= 1);
        }
        assert forall|a: int, b: int| 0 <= a < b < out@.len() implies (#[trigger] out@[a]).end <= (#[trigger] out@[b]).start by {
            assert(reports(*d, t@, hs[a], out@[a]));
            assert(reports(*d, t@, hs[b], out@[b]));
            assert(hs[a].end <= hs[b].start);
            assert(hit_ok(*d, *p, t@, hs[b]));
            crate::text::lemma_byte_len_take_mono(t@, hs[a].end as int, hs[b].start as int);
        }
        assert forall|k: int| 0 <= k < out@.len() && (#[trigger] out@[k]).kind != MatchKind::Phrase implies !d.whitelist_set().contains(
            p.process(out@[k].matched_text@),
        ) by {
            assert(reports(*d, t@, hs[k], out@[k]));
            assert(hit_ok(*d, *p, t@, hs[k]));
        }
    }
    out
}

proof fn lemma_byte_offset_lt(t: Seq<char>, i: int, j: int)
    requires
        0 <= i < j <= t.len(),
    ensures
        byte_offset(t, i) < byte_offset(t, j),
{
    crate::text::lemma_byte_len_take_mono(t, i, j - 1);
    assert(t.take(j).drop_last() =~= t.take(j - 1));
    crate::text::lemma_width_bounds(t[j - 1]);
}

/// Reusable buffers for [`crate::filter::ProfanityFilter::find_into`]; matching
/// here keeps no state between calls, so there is nothing to reuse.
#[derive(Debug, Clone)]
pub struct Scratch {}

impl Scratch {
    pub fn new() -> (s: Scratch) {
        Scratch {}
    }
}

/// With phrases on, a fuzzy match of a unit never names a multi-word entry.
pub proof fn law_fuzzy_hits_are_single_tokens(d: Dictionary, forms: Seq<(Seq<char>, MatchKind)>, o: Options, i: int)
    requires
        o.phrases,
    ensures
        fuzzy_from(d, forms, o, i) matches Some((id, _, _)) ==> 0 <= id < d.entries().len() && d.token_counts()[id] <= 1,
    decreases forms.len() - i,
{
    if 0 <= i < forms.len() {
        crate::fuzzy::law_fuzzy_skips_phrases(d, forms[i].0, o.match_threshold);
        law_fuzzy_hits_are_single_tokens(d, forms, o, i + 1);
    }
}

} // verus!
