//! Substring matching for glued evasion (`fuckyou`).
//!
//! Off by default: an entry occurring inside a longer word is the Scunthorpe
//! problem, so this is opt-in, guarded by a minimum entry length and by the
//! whitelist. Measured on a clean 73k-word English corpus, the false-positive
//! rate is 2.35% at length 4, 0.64% at 5, 0.23% at 6 (the default) and 0.03% at 7.
use vstd::prelude::*;
use crate::dict::Dictionary;
use crate::text::strings_view;

verus! {

/// Pattern indices of the leftmost-longest, non-overlapping occurrences of
/// `patterns` in `haystack`, left to right, as an Aho-Corasick automaton
/// reports them; `None` when the automaton cannot be built.
pub uninterp spec fn leftmost_longest(patterns: Seq<Seq<char>>, haystack: Seq<char>) -> Option<Seq<usize>>;

/// Whether `p` occurs in `h` starting at position `i`.
pub open spec fn occurs_at(p: Seq<char>, h: Seq<char>, i: int) -> bool {
    0 <= i && i + p.len() <= h.len() && h.subrange(i, i + p.len()) == p
}

/// The longest of the first `n` patterns occurring at `i`.
pub open spec fn longest_at(ps: Seq<Seq<char>>, h: Seq<char>, i: int, n: int) -> Option<int>
    decreases n,
{
    if n <= 0 {
        None
    } else {
        let prev = longest_at(ps, h, i, n - 1);
        if occurs_at(ps[n - 1], h, i) && (prev matches Some(k) ==> ps[n - 1].len() > ps[k].len()) {
            Some(n - 1)
        } else {
            prev
        }
    }
}

/// Leftmost-longest, non-overlapping occurrences from position `i` on: at
/// the first position where a pattern occurs, the longest one there; then
/// on from its end.
pub open spec fn leftmost_longest_from(ps: Seq<Seq<char>>, h: Seq<char>, i: int) -> Seq<int>
    decreases h.len() - i,
{
    if i < 0 || i >= h.len() {
        seq![]
    } else {
        match longest_at(ps, h, i, ps.len() as int) {
            Some(k) => if 0 < ps[k].len() && i + ps[k].len() <= h.len() {
                seq![k] + leftmost_longest_from(ps, h, i + ps[k].len())
            } else {
                leftmost_longest_from(ps, h, i + 1)
            },
            None => leftmost_longest_from(ps, h, i + 1),
        }
    }
}

/// Whether the patterns are non-empty and pairwise different.
pub open spec fn plain_patterns(ps: Seq<Seq<char>>) -> bool {
    &&& forall|k: int| 0 <= k < ps.len() ==> (#[trigger] ps[k]).len() > 0
    &&& forall|a: int, b: int| 0 <= a < b < ps.len() ==> #[trigger] ps[a] != #[trigger] ps[b]
}

/// Searches `haystack` with an `aho_corasick::AhoCorasick` built over
/// `patterns` with `MatchKind::LeftmostLongest`, and lists the pattern index
/// of each match of `find_iter`. The contract claims that the result is the
/// named one, that every index is a position in `patterns`, as the crate
/// documents for `Match::pattern`, and, for non-empty and pairwise different
/// patterns, that the matches are the leftmost-longest, non-overlapping
/// occurrences `MatchKind::LeftmostLongest` documents (UTF-8 matches in
/// valid text start and end on character boundaries, so the byte-level
/// search agrees with this character-level statement). When the build fails
/// is left to the name.
#[verifier::external_body]
fn search_leftmost_longest(patterns: &Vec<String>, haystack: &str) -> (r: Option<Vec<usize>>)
    ensures
        match r {
            Some(v) => leftmost_longest(strings_view(patterns@), haystack@) == Some(v@) && (forall|k: int|
                0 <= k < v@.len() ==> #[trigger] v@[k] < patterns@.len()) && (plain_patterns(strings_view(patterns@))
                ==> v@.map_values(|x: usize| x as int) == leftmost_longest_from(strings_view(patterns@), haystack@, 0)),
            None => leftmost_longest(strings_view(patterns@), haystack@) is None,
        },
{
    let ac = aho_corasick::AhoCorasick::builder()
        .match_kind(aho_corasick::MatchKind::LeftmostLongest)
        .build(patterns)
        .ok()?;
    let mut out: Vec<usize> = Vec::new();
    for m in ac.find_iter(haystack) {
        out.push(m.pattern().as_usize());
    }
    Some(out)
}

/// Whether entry `id` is live and a single token.
pub open spec fn is_single_token(d: Dictionary, id: int) -> bool {
    d.entries()[id].0.len() > 0 && d.token_counts()[id] <= 1
}

/// Ids below `n` of live single-token entries, ascending.
pub open spec fn single_token_ids_upto(d: Dictionary, n: int) -> Seq<int>
    decreases n,
{
    if n <= 0 {
        seq![]
    } else {
        let prev = single_token_ids_upto(d, n - 1);
        if is_single_token(d, n - 1) {
            prev.push(n - 1)
        } else {
            prev
        }
    }
}

/// Ids of live single-token entries, ascending: the automaton's patterns.
pub open spec fn single_token_ids(d: Dictionary) -> Seq<int> {
    single_token_ids_upto(d, d.entries().len() as int)
}

/// The forms of the automaton's patterns.
pub open spec fn pattern_forms(d: Dictionary) -> Seq<Seq<char>> {
    single_token_ids(d).map_values(|id: int| d.entries()[id].0)
}

/// Whether a hit on entry `id` counts: long enough (lengths saturate at
/// 65535) and not whitelisted.
pub open spec fn substring_accepts(d: Dictionary, id: int, min_len: usize) -> bool {
    let len = d.entries()[id].0.len();
    &&& (if len > 65535 { 65535 } else { len }) >= min_len
    &&& !d.whitelist_set().contains(d.entries()[id].0)
}

/// The entry of the first hit from `k` on that counts.
pub open spec fn first_accepted(d: Dictionary, ids: Seq<int>, hits: Seq<usize>, min_len: usize, k: int) -> Option<int>
    decreases hits.len() - k,
{
    if k < 0 || k >= hits.len() {
        None
    } else if hits[k] < ids.len() && substring_accepts(d, ids[hits[k] as int], min_len) {
        Some(ids[hits[k] as int])
    } else {
        first_accepted(d, ids, hits, min_len, k + 1)
    }
}

/// The entry a substring search of `haystack` reports.
pub open spec fn substring_hit(d: Dictionary, haystack: Seq<char>, min_len: usize) -> Option<int> {
    if single_token_ids(d).len() == 0 {
        None
    } else {
        match leftmost_longest(pattern_forms(d), haystack) {
            Some(hits) => first_accepted(d, single_token_ids(d), hits, min_len, 0),
            None => None,
        }
    }
}

/// Pattern ids are ids of live single-token entries.
pub proof fn lemma_single_token_ids(d: Dictionary, n: int)
    ensures
        forall|k: int| 0 <= k < single_token_ids_upto(d, n).len() ==> 0 <= #[trigger] single_token_ids_upto(d, n)[k] < n
            && is_single_token(d, single_token_ids_upto(d, n)[k]),
    decreases n,
{
    if n > 0 {
        lemma_single_token_ids(d, n - 1);
        let prev = single_token_ids_upto(d, n - 1);
        if is_single_token(d, n - 1) {
            assert(single_token_ids_upto(d, n) == prev.push(n - 1));
            assert forall|k: int| 0 <= k < single_token_ids_upto(d, n).len() implies 0 <= #[trigger] single_token_ids_upto(d, n)[k] < n
                && is_single_token(d, single_token_ids_upto(d, n)[k]) by {
                if k < prev.len() {
                    assert(single_token_ids_upto(d, n)[k] == prev[k]);
                }
            }
        } else {
            assert(single_token_ids_upto(d, n) == prev);
        }
    }
}

/// A substring hit is a live single-token entry.
pub proof fn lemma_substring_hit(d: Dictionary, haystack: Seq<char>, min_len: usize)
    ensures
        substring_hit(d, haystack, min_len) matches Some(id) ==> 0 <= id < d.entries().len() && is_single_token(d, id),
{
    lemma_single_token_ids(d, d.entries().len() as int);
    if single_token_ids(d).len() > 0 {
        match leftmost_longest(pattern_forms(d), haystack) {
            Some(hits) => lemma_first_accepted(d, single_token_ids(d), hits, min_len, 0),
            None => {},
        }
    }
}

proof fn lemma_first_accepted(d: Dictionary, ids: Seq<int>, hits: Seq<usize>, min_len: usize, k: int)
    ensures
        first_accepted(d, ids, hits, min_len, k) matches Some(id) ==> exists|j: int| 0 <= j < ids.len() && ids[j] == id,
    decreases hits.len() - k,
{
    if 0 <= k < hits.len() {
        if hits[k] < ids.len() && substring_accepts(d, ids[hits[k] as int], min_len) {
            assert(ids[hits[k] as int] == ids[hits[k] as int]);
        } else {
            lemma_first_accepted(d, ids, hits, min_len, k + 1);
        }
    }
}

/// The live single-token entries, as pattern ids and pattern forms.
fn single_token_patterns(d: &Dictionary) -> (r: (Vec<usize>, Vec<String>))
    ensures
        r.0@.len() == r.1@.len(),
        r.0@.map_values(|i: usize| i as int) == single_token_ids(*d),
        strings_view(r.1@) == pattern_forms(*d),
        forall|k: int| 0 <= k < r.0@.len() ==> (#[trigger] r.0@[k]) < d.entries().len(),
{
    let n = d.capacity();
    let mut ids: Vec<usize> = Vec::new();
    let mut forms: Vec<String> = Vec::new();
    let mut id: usize = 0;
    while id < n
        invariant
            n == d.entries().len(),
            id <= n,
            ids@.len() == forms@.len(),
            ids@.map_values(|i: usize| i as int) == single_token_ids_upto(*d, id as int),
            strings_view(forms@) == single_token_ids_upto(*d, id as int).map_values(|i: int| d.entries()[i].0),
            forall|k: int| 0 <= k < ids@.len() ==> (#[trigger] ids@[k]) < id,
        decreases n - id,
    {
        let e = d.entry(id);
        if !e.form.as_str().is_empty() && e.token_count <= 1 {
            let ghost before = ids@;
            let ghost fbefore = forms@;
            ids.push(id);
            forms.push(e.form.clone());
            proof {
                assert(ids@.map_values(|i: usize| i as int) =~= before.map_values(|i: usize| i as int).push(id as int));
                crate::text::lemma_strings_view_push(fbefore, forms@.last());
                assert(single_token_ids_upto(*d, id + 1) == single_token_ids_upto(*d, id as int).push(id as int));
                assert(strings_view(forms@) =~= single_token_ids_upto(*d, id + 1).map_values(|i: int| d.entries()[i].0));
            }
        } else {
            proof {
                assert(single_token_ids_upto(*d, id + 1) == single_token_ids_upto(*d, id as int));
            }
        }
        id += 1;
    }
    (ids, forms)
}

/// The entry of the first hit that counts: `hits` are pattern indices into
/// `ids`, and a hit counts when its entry is long enough and not whitelisted.
pub fn first_accepted_hit(d: &Dictionary, ids: &[usize], hits: &[usize], min_len: usize) -> (r: Option<usize>)
    requires
        forall|k: int| 0 <= k < ids@.len() ==> (#[trigger] ids@[k]) < d.entries().len(),
    ensures
        r matches Some(id) ==> first_accepted(*d, ids@.map_values(|i: usize| i as int), hits@, min_len, 0) == Some(
            id as int,
        ),
        r is None ==> first_accepted(*d, ids@.map_values(|i: usize| i as int), hits@, min_len, 0) is None,
{
    let ghost iv = ids@.map_values(|i: usize| i as int);
    let mut k: usize = 0;
    while k < hits.len()
        invariant
            k <= hits@.len(),
            iv == ids@.map_values(|i: usize| i as int),
            forall|j: int| 0 <= j < ids@.len() ==> (#[trigger] ids@[j]) < d.entries().len(),
            first_accepted(*d, iv, hits@, min_len, 0) == first_accepted(*d, iv, hits@, min_len, k as int),
        decreases hits@.len() - k,
    {
        let h = hits[k];
        if h < ids.len() {
            let id = ids[h];
            let e = d.entry(id);
            if (e.char_len as usize) >= min_len && !d.is_whitelisted(e.form.as_str()) {
                return Some(id);
            }
        }
        k += 1;
    }
    None
}

/// The first dictionary entry of at least `min_len` characters occurring in
/// `haystack` that is not whitelisted, over the leftmost-longest occurrences
/// of every live single-token entry.
pub fn find_substring(d: &Dictionary, haystack: &str, min_len: usize) -> (r: Option<usize>)
    ensures
        r matches Some(id) ==> substring_hit(*d, haystack@, min_len) == Some(id as int),
        r is None ==> substring_hit(*d, haystack@, min_len) is None,
{
    let (ids, forms) = single_token_patterns(d);
    if ids.len() == 0 {
        return None;
    }
    match search_leftmost_longest(&forms, haystack) {
        None => None,
        Some(hits) => first_accepted_hit(d, ids.as_slice(), hits.as_slice(), min_len),
    }
}

/// Whether the substring search takes a hit on entry `id`: the entry is at
/// least `min_len` characters long, a minimum above 65535 (the longest
/// length counted) being never met, and its form is not whitelisted.
pub open spec fn hit_counts(d: Dictionary, id: int, min_len: usize) -> bool {
    &&& d.entries()[id].0.len() >= min_len
    &&& min_len <= 65535
    &&& !d.whitelist_set().contains(d.entries()[id].0)
}

/// A rejected hit does not end the search: the substring search reports the
/// entry of the first hit, in leftmost-longest order, whose entry is long
/// enough and not whitelisted, and nothing only when no hit's entry is.
pub proof fn law_first_accepted_hit(d: Dictionary, ids: Seq<int>, hits: Seq<usize>, min_len: usize)
    ensures
        forall|k: int|
            0 <= k < hits.len() && hits[k] < ids.len() && #[trigger] hit_counts(d, ids[hits[k] as int], min_len) && (forall|
                j: int,
            | 0 <= j < k && hits[j] < ids.len() ==> !hit_counts(d, ids[hits[j] as int], min_len))
                ==> first_accepted(d, ids, hits, min_len, 0) == Some(ids[hits[k] as int]),
        (forall|j: int| 0 <= j < hits.len() && hits[j] < ids.len() ==> !hit_counts(d, ids[hits[j] as int], min_len))
            ==> first_accepted(d, ids, hits, min_len, 0) is None,
{
    assert forall|id: int| #[trigger] hit_counts(d, id, min_len) == substring_accepts(d, id, min_len) by {}
    assert forall|k: int|
        0 <= k < hits.len() && hits[k] < ids.len() && #[trigger] hit_counts(d, ids[hits[k] as int], min_len) && (forall|
            j: int,
        | 0 <= j < k && hits[j] < ids.len() ==> !hit_counts(d, ids[hits[j] as int], min_len))
        implies first_accepted(d, ids, hits, min_len, 0) == Some(ids[hits[k] as int]) by {
        lemma_first_accepted_from(d, ids, hits, min_len, 0, k);
    }
    if forall|j: int| 0 <= j < hits.len() && hits[j] < ids.len() ==> !hit_counts(d, ids[hits[j] as int], min_len) {
        lemma_first_accepted_none(d, ids, hits, min_len, 0);
    }
}

proof fn lemma_first_accepted_from(d: Dictionary, ids: Seq<int>, hits: Seq<usize>, min_len: usize, i: int, k: int)
    requires
        0 <= i <= k < hits.len(),
        hits[k] < ids.len(),
        substring_accepts(d, ids[hits[k] as int], min_len),
        forall|j: int| i <= j < k && hits[j] < ids.len() ==> !substring_accepts(d, ids[hits[j] as int], min_len),
    ensures
        first_accepted(d, ids, hits, min_len, i) == Some(ids[hits[k] as int]),
    decreases k - i,
{
    if i < k {
        lemma_first_accepted_from(d, ids, hits, min_len, i + 1, k);
    }
}

proof fn lemma_first_accepted_none(d: Dictionary, ids: Seq<int>, hits: Seq<usize>, min_len: usize, i: int)
    requires
        0 <= i,
        forall|j: int| 0 <= j < hits.len() && hits[j] < ids.len() ==> !substring_accepts(d, ids[hits[j] as int], min_len),
    ensures
        first_accepted(d, ids, hits, min_len, i) is None,
    decreases hits.len() - i,
{
    if i < hits.len() {
        lemma_first_accepted_none(d, ids, hits, min_len, i + 1);
    }
}

} // verus!
