//! Language registry: canonical codes, human names and aliases.
//!
//! The registry is also what keeps caller-supplied strings out of file
//! names: a word list is only ever looked up through the `file` recorded
//! here.
use vstd::prelude::*;
use crate::error::Error;
use crate::text::{
    all_ascii, ascii_lower, char_is_whitespace, is_ascii_char, from_chars, is_whitespace, lemma_lex_asymmetric, lemma_lex_irreflexive,
    lemma_lex_total, lemma_lex_transitive, lex_lt, lowercase, push_char, str_eq, str_less, to_chars,
    to_lowercase, strings_view, lemma_strings_view_push,
};

verus! {

/// A language known to the filter.
#[derive(Debug, PartialEq, Eq)]
pub struct LanguageInfo {
    /// Canonical code, e.g. `pt_br`.
    pub code: String,
    /// Human-readable name, e.g. `Portuguese (Brazil)`.
    pub name: String,
    /// Word list file name inside the resource directory.
    pub file: String,
}

impl LanguageInfo {
    pub open spec fn view(&self) -> (Seq<char>, Seq<char>, Seq<char>) {
        (self.code@, self.name@, self.file@)
    }

    /// A copy with the same fields.
    pub fn duplicate(&self) -> (r: LanguageInfo)
        ensures
            r.view() == self.view(),
    {
        LanguageInfo { code: self.code.clone(), name: self.name.clone(), file: self.file.clone() }
    }
}

/// Outcome of resolving a caller-supplied code.
#[derive(Debug, Clone, Copy, PartialEq, Eq)]
pub struct Resolved<'a> {
    /// The canonical code the input maps to.
    pub canonical: &'a str,
    /// Set when the input was a deprecated alias; explains what to use instead.
    pub deprecated: Option<&'a str>,
}

/// An alias, its canonical target, and a note when the alias is deprecated.
#[derive(Debug)]
pub struct Alias {
    pub alias: String,
    pub target: String,
    pub note: Option<String>,
}

impl Alias {
    pub open spec fn view(&self) -> (Seq<char>, Seq<char>, Option<Seq<char>>) {
        (
            self.alias@,
            self.target@,
            match self.note {
                Some(n) => Some(n@),
                None => None,
            },
        )
    }
}

/// Codes strictly increasing.
pub open spec fn strictly_sorted(codes: Seq<Seq<char>>) -> bool {
    forall|i: int, j: int| 0 <= i < j < codes.len() ==> lex_lt(#[trigger] codes[i], #[trigger] codes[j])
}

pub open spec fn infos_view(v: Seq<LanguageInfo>) -> Seq<(Seq<char>, Seq<char>, Seq<char>)> {
    v.map_values(|l: LanguageInfo| l.view())
}

pub open spec fn codes_of(v: Seq<LanguageInfo>) -> Seq<Seq<char>> {
    v.map_values(|l: LanguageInfo| l.code@)
}

/// Index of the first non-whitespace character of `s[i..]`, or `s.len()`.
pub open spec fn first_non_ws(s: Seq<char>, i: int) -> int
    decreases s.len() - i,
{
    if i >= s.len() {
        s.len() as int
    } else if !char_is_whitespace(s[i]) {
        i
    } else {
        first_non_ws(s, i + 1)
    }
}

/// One past the last non-whitespace character of `s[lo..hi]`, or `lo`.
pub open spec fn last_non_ws_end(s: Seq<char>, lo: int, hi: int) -> int
    decreases hi - lo,
{
    if hi <= lo {
        lo
    } else if !char_is_whitespace(s[hi - 1]) {
        hi
    } else {
        last_non_ws_end(s, lo, hi - 1)
    }
}

/// The characters of `s` without leading and trailing whitespace.
pub open spec fn trim(s: Seq<char>) -> Seq<char> {
    let a = first_non_ws(s, 0);
    s.subrange(a, last_non_ws_end(s, a, s.len() as int))
}

proof fn lemma_first_non_ws(s: Seq<char>, i: int)
    requires
        0 <= i <= s.len(),
    ensures
        i <= first_non_ws(s, i) <= s.len(),
    decreases s.len() - i,
{
    if i < s.len() && char_is_whitespace(s[i]) {
        lemma_first_non_ws(s, i + 1);
    }
}

proof fn lemma_last_non_ws(s: Seq<char>, lo: int, hi: int)
    requires
        0 <= lo <= hi <= s.len(),
    ensures
        lo <= last_non_ws_end(s, lo, hi) <= hi,
    decreases hi - lo,
{
    if lo < hi && char_is_whitespace(s[hi - 1]) {
        lemma_last_non_ws(s, lo, hi - 1);
    }
}

pub proof fn lemma_push_contains<A>(s: Seq<A>, y: A, x: A)
    ensures
        s.push(y).contains(x) <==> s.contains(x) || x == y,
{
    if s.push(y).contains(x) && x != y {
        let m = choose|m: int| 0 <= m < s.push(y).len() && s.push(y)[m] == x;
        assert(s[m] == x);
    }
    if s.contains(x) {
        let m = choose|m: int| 0 <= m < s.len() && s[m] == x;
        assert(s.push(y)[m] == x);
    }
    if x == y {
        assert(s.push(y)[s.len() as int] == x);
    }
}

/// Whether `v` holds `x`, by content.
pub fn contains_string(v: &[String], x: &str) -> (r: bool)
    ensures
        r == strings_view(v@).contains(x@),
{
    let mut i: usize = 0;
    while i < v.len()
        invariant
            i <= v@.len(),
            forall|k: int| 0 <= k < i ==> #[trigger] strings_view(v@)[k] != x@,
        decreases v@.len() - i,
    {
        if str_eq(v[i].as_str(), x) {
            assert(strings_view(v@)[i as int] == x@);
            return true;
        }
        i += 1;
    }
    false
}

pub open spec fn opt_str_view(o: Option<&str>) -> Option<Seq<char>> {
    match o {
        Some(s) => Some(s@),
        None => None,
    }
}

/// `t` without leading and trailing whitespace.
pub fn trim_chars(t: &[char]) -> (r: Vec<char>)
    ensures
        r@ == trim(t@),
{
    let mut a: usize = 0;
    while a < t.len() && is_whitespace(t[a])
        invariant
            a <= t@.len(),
            first_non_ws(t@, a as int) == first_non_ws(t@, 0),
        decreases t@.len() - a,
    {
        a += 1;
    }
    let mut b: usize = t.len();
    while b > a && is_whitespace(t[b - 1])
        invariant
            a <= b <= t@.len(),
            first_non_ws(t@, 0) == a,
            last_non_ws_end(t@, a as int, b as int) == last_non_ws_end(t@, a as int, t@.len() as int),
        decreases b,
    {
        b -= 1;
    }
    let mut trimmed: Vec<char> = Vec::new();
    let mut k: usize = a;
    while k < b
        invariant
            a <= k <= b <= t@.len(),
            trimmed@ == t@.subrange(a as int, k as int),
        decreases b - k,
    {
        trimmed.push(t[k]);
        k += 1;
        assert(trimmed@ =~= t@.subrange(a as int, k as int));
    }
    trimmed
}

/// A caller-supplied code, normalized: trimmed, lowercased, `-` read as `_`.
pub open spec fn normalize_code_spec(code: Seq<char>) -> Seq<char> {
    lowercase(trim(code)).map_values(|c: char| if c == '-' { '_' } else { c })
}

proof fn lemma_first_non_ws_found(s: Seq<char>, i: int)
    requires
        0 <= i <= s.len(),
    ensures
        first_non_ws(s, i) < s.len() ==> !char_is_whitespace(s[first_non_ws(s, i)]),
    decreases s.len() - i,
{
    if i < s.len() && char_is_whitespace(s[i]) {
        lemma_first_non_ws_found(s, i + 1);
    }
}

proof fn lemma_last_non_ws_found(s: Seq<char>, lo: int, hi: int)
    requires
        0 <= lo <= hi <= s.len(),
    ensures
        last_non_ws_end(s, lo, hi) > lo ==> !char_is_whitespace(s[last_non_ws_end(s, lo, hi) - 1]),
    decreases hi - lo,
{
    if lo < hi && char_is_whitespace(s[hi - 1]) {
        lemma_last_non_ws_found(s, lo, hi - 1);
    }
}

/// A trimmed text starts and ends with a character that is not whitespace.
proof fn lemma_trim_ends(s: Seq<char>)
    ensures
        trim(s).len() > 0 ==> !char_is_whitespace(trim(s)[0]) && !char_is_whitespace(trim(s).last()),
        forall|i: int| 0 <= i < trim(s).len() ==> #[trigger] trim(s)[i] == s[first_non_ws(s, 0) + i],
{
    let a = first_non_ws(s, 0);
    lemma_first_non_ws(s, 0);
    lemma_last_non_ws(s, a, s.len() as int);
    lemma_first_non_ws_found(s, 0);
    lemma_last_non_ws_found(s, a, s.len() as int);
}

/// A text that starts and ends with non-whitespace is its own trim.
proof fn lemma_trim_fixed(s: Seq<char>)
    requires
        s.len() > 0 ==> !char_is_whitespace(s[0]) && !char_is_whitespace(s.last()),
    ensures
        trim(s) == s,
{
    if s.len() > 0 {
        assert(first_non_ws(s, 0) == 0);
        assert(last_non_ws_end(s, 0, s.len() as int) == s.len());
    }
    assert(trim(s) =~= s);
}

/// Normalizing an ASCII code a second time changes nothing, and a
/// normalized ASCII code has no whitespace at either end.
pub proof fn law_normalize_code_is_idempotent(code: Seq<char>)
    requires
        all_ascii(code),
    ensures
        normalize_code_spec(normalize_code_spec(code)) == normalize_code_spec(code),
        normalize_code_spec(code).len() > 0 ==> !char_is_whitespace(normalize_code_spec(code)[0])
            && !char_is_whitespace(normalize_code_spec(code).last()),
{
    let tr = trim(code);
    lemma_trim_ends(code);
    lemma_first_non_ws(code, 0);
    lemma_last_non_ws(code, first_non_ws(code, 0), code.len() as int);
    assert(all_ascii(tr)) by {
        assert forall|i: int| 0 <= i < tr.len() implies is_ascii_char(#[trigger] tr[i]) by {
            assert(tr[i] == code[first_non_ws(code, 0) + i]);
        }
    }
    let n = normalize_code_spec(code);
    assert(lowercase(tr) == tr.map_values(|c: char| ascii_lower(c)));
    assert(n.len() == tr.len());
    assert forall|i: int| 0 <= i < n.len() implies #[trigger] n[i] == (if ascii_lower(tr[i]) == '-' {
        '_'
    } else {
        ascii_lower(tr[i])
    }) by {}
    assert(all_ascii(n));
    lemma_trim_fixed(n);
    let n2 = normalize_code_spec(n);
    assert(lowercase(n) == n.map_values(|c: char| ascii_lower(c)));
    assert(n2 =~= n);
}

/// Insert `info` in code order unless its code is already present.
fn insert_sorted(v: &mut Vec<LanguageInfo>, info: LanguageInfo)
    requires
        strictly_sorted(codes_of(old(v)@)),
    ensures
        strictly_sorted(codes_of(final(v)@)),
        codes_of(old(v)@).contains(info.code@) ==> final(v)@ == old(v)@,
        !codes_of(old(v)@).contains(info.code@) ==> infos_view(final(v)@).to_set() == infos_view(
            old(v)@,
        ).to_set().insert(info.view()),
        forall|c: Seq<char>| #[trigger] codes_of(final(v)@).contains(c) <==> codes_of(old(v)@).contains(c)
            || c == info.code@,
{
    let ghost old_v = v@;
    let ghost codes = codes_of(v@);
    let mut j: usize = 0;
    while j < v.len() && str_less(v[j].code.as_str(), info.code.as_str())
        invariant
            j <= v@.len(),
            v@ == old_v,
            codes == codes_of(v@),
            forall|k: int| 0 <= k < j ==> lex_lt(#[trigger] codes[k], info.code@),
        decreases v@.len() - j,
    {
        j += 1;
    }
    if j < v.len() && str_eq(v[j].code.as_str(), info.code.as_str()) {
        assert(codes[j as int] == info.code@);
        return;
    }
    proof {
        assert forall|k: int| j <= k < codes.len() implies lex_lt(info.code@, #[trigger] codes[k]) by {
            lemma_lex_total(codes[j as int], info.code@);
            if k > j {
                lemma_lex_transitive(info.code@, codes[j as int], codes[k]);
            }
        }
        assert(!codes.contains(info.code@)) by {
            if codes.contains(info.code@) {
                let k = choose|k: int| 0 <= k < codes.len() && codes[k] == info.code@;
                if k < j {
                    lemma_lex_irreflexive(info.code@);
                } else {
                    lemma_lex_irreflexive(info.code@);
                }
            }
        }
    }
    let ghost iv = info.view();
    let ghost ic = info.code@;
    v.insert(j, info);
    proof {
        let nc = codes_of(v@);
        assert(nc =~= codes.insert(j as int, ic));
        assert forall|a: int, b: int| 0 <= a < b < nc.len() implies lex_lt(#[trigger] nc[a], #[trigger] nc[b]) by {
            if b < j {
            } else if a < j && b == j {
            } else if a < j && b > j {
                lemma_lex_transitive(nc[a], ic, nc[b]);
            } else if a == j {
            } else {
            }
        }
        assert(infos_view(v@) =~= infos_view(old_v).insert(j as int, iv));
        assert(infos_view(v@).to_set() =~= infos_view(old_v).to_set().insert(iv)) by {
            assert forall|x| infos_view(v@).to_set().contains(x) implies infos_view(old_v).to_set().insert(iv).contains(x) by {
                let k = choose|k: int| 0 <= k < infos_view(v@).len() && infos_view(v@)[k] == x;
                if k < j {
                    assert(infos_view(old_v)[k] == x);
                } else if k > j {
                    assert(infos_view(old_v)[k - 1] == x);
                }
            }
            assert forall|x| infos_view(old_v).to_set().insert(iv).contains(x) implies infos_view(v@).to_set().contains(x) by {
                if x == iv {
                    assert(infos_view(v@)[j as int] == x);
                } else {
                    let k = choose|k: int| 0 <= k < infos_view(old_v).len() && infos_view(old_v)[k] == x;
                    if k < j {
                        assert(infos_view(v@)[k] == x);
                    } else {
                        assert(infos_view(v@)[k + 1] == x);
                    }
                }
            }
        }
        assert forall|c: Seq<char>| #[trigger] nc.contains(c) <==> codes.contains(c) || c == ic by {
            if nc.contains(c) {
                let k = choose|k: int| 0 <= k < nc.len() && nc[k] == c;
                if k < j {
                    assert(codes[k] == c);
                } else if k > j {
                    assert(codes[k - 1] == c);
                }
            }
            if codes.contains(c) {
                let k = choose|k: int| 0 <= k < codes.len() && codes[k] == c;
                if k < j {
                    assert(nc[k] == c);
                } else {
                    assert(nc[k + 1] == c);
                }
            }
            if c == ic {
                assert(nc[j as int] == c);
            }
        }
    }
}

/// Insert `x` in order unless it is already present.
pub(crate) fn insert_sorted_string(v: &mut Vec<String>, x: String)
    requires
        strictly_sorted(strings_view(old(v)@)),
    ensures
        strictly_sorted(strings_view(final(v)@)),
        forall|c: Seq<char>| #[trigger] strings_view(final(v)@).contains(c) <==> strings_view(old(v)@).contains(c)
            || c == x@,
{
    let ghost old_v = v@;
    let ghost codes = strings_view(v@);
    let mut j: usize = 0;
    while j < v.len() && str_less(v[j].as_str(), x.as_str())
        invariant
            j <= v@.len(),
            v@ == old_v,
            codes == strings_view(v@),
            forall|k: int| 0 <= k < j ==> lex_lt(#[trigger] codes[k], x@),
        decreases v@.len() - j,
    {
        j += 1;
    }
    if j < v.len() && str_eq(v[j].as_str(), x.as_str()) {
        assert(codes[j as int] == x@);
        return;
    }
    proof {
        assert forall|k: int| j <= k < codes.len() implies lex_lt(x@, #[trigger] codes[k]) by {
            lemma_lex_total(codes[j as int], x@);
            if k > j {
                lemma_lex_transitive(x@, codes[j as int], codes[k]);
            }
        }
    }
    let ghost xc = x@;
    v.insert(j, x);
    proof {
        let nc = strings_view(v@);
        assert(nc =~= codes.insert(j as int, xc));
        assert forall|a: int, b: int| 0 <= a < b < nc.len() implies lex_lt(#[trigger] nc[a], #[trigger] nc[b]) by {
            if a < j && b > j {
                lemma_lex_transitive(nc[a], xc, nc[b]);
            }
        }
        assert forall|c: Seq<char>| #[trigger] nc.contains(c) <==> codes.contains(c) || c == xc by {
            if nc.contains(c) {
                let k = choose|k: int| 0 <= k < nc.len() && nc[k] == c;
                if k < j {
                    assert(codes[k] == c);
                } else if k > j {
                    assert(codes[k - 1] == c);
                }
            }
            if codes.contains(c) {
                let k = choose|k: int| 0 <= k < codes.len() && codes[k] == c;
                if k < j {
                    assert(nc[k] == c);
                } else {
                    assert(nc[k + 1] == c);
                }
            }
            if c == xc {
                assert(nc[j as int] == c);
            }
        }
    }
}

pub open spec fn alias_input_view(v: Seq<(String, String, bool, String)>) -> Seq<(Seq<char>, Seq<char>, bool, Seq<char>)> {
    v.map_values(|a: (String, String, bool, String)| (a.0@, a.1@, a.2, a.3@))
}

/// The aliases a registry keeps: those whose target is one of `codes`, the
/// first of each name, with the note only when deprecated.
pub open spec fn kept_aliases(codes: Seq<Seq<char>>, input: Seq<(Seq<char>, Seq<char>, bool, Seq<char>)>) -> Seq<(Seq<char>, Seq<char>, Option<Seq<char>>)>
    decreases input.len(),
{
    if input.len() == 0 {
        seq![]
    } else {
        let prev = kept_aliases(codes, input.drop_last());
        let x = input.last();
        if codes.contains(x.1) && !(exists|k: int| 0 <= k < prev.len() && #[trigger] prev[k].0 == x.0) {
            prev.push((x.0, x.1, if x.2 { Some(x.3) } else { None }))
        } else {
            prev
        }
    }
}

/// Whether `input[k]` is the first entry with its code.
pub open spec fn first_of_code(input: Seq<(Seq<char>, Seq<char>, Seq<char>)>, k: int) -> bool {
    0 <= k < input.len() && forall|j: int| 0 <= j < k ==> #[trigger] input[j].0 != input[k].0
}

/// The languages a registry keeps, by file name.
pub open spec fn kept_languages(infos: Seq<(Seq<char>, Seq<char>, Seq<char>)>, present: Seq<Seq<char>>) -> Seq<(Seq<char>, Seq<char>, Seq<char>)>
    decreases infos.len(),
{
    if infos.len() == 0 {
        seq![]
    } else if present.contains(infos.last().2) {
        kept_languages(infos.drop_last(), present).push(infos.last())
    } else {
        kept_languages(infos.drop_last(), present)
    }
}

/// The aliases that point at one of `codes`.
pub open spec fn live_aliases(aliases: Seq<(Seq<char>, Seq<char>, Option<Seq<char>>)>, codes: Seq<Seq<char>>) -> Seq<(Seq<char>, Seq<char>, Option<Seq<char>>)>
    decreases aliases.len(),
{
    if aliases.len() == 0 {
        seq![]
    } else if codes.contains(aliases.last().1) {
        live_aliases(aliases.drop_last(), codes).push(aliases.last())
    } else {
        live_aliases(aliases.drop_last(), codes)
    }
}

/// Canonical codes, their word list files, and the alias table.
#[derive(Debug)]
pub struct LanguageRegistry {
    languages: Vec<LanguageInfo>,
    aliases: Vec<Alias>,
}

impl LanguageRegistry {
    /// Languages sorted by code, codes unique, and every alias pointing at
    /// one of them.
    #[verifier::type_invariant]
    closed spec fn inv(self) -> bool {
        &&& strictly_sorted(codes_of(self.languages@))
        &&& forall|k: int| 0 <= k < self.aliases@.len() ==> codes_of(self.languages@).contains(
            #[trigger] self.aliases@[k].target@,
        )
        &&& forall|i: int, j: int| 0 <= i < j < self.aliases@.len() ==> #[trigger] self.aliases@[i].alias@
            != #[trigger] self.aliases@[j].alias@
    }

    /// Every language as `(code, name, file)`, sorted by code.
    pub closed spec fn infos(&self) -> Seq<(Seq<char>, Seq<char>, Seq<char>)> {
        infos_view(self.languages@)
    }

    /// Every canonical code, sorted.
    pub closed spec fn codes(&self) -> Seq<Seq<char>> {
        codes_of(self.languages@)
    }

    /// The canonical codes are the codes of the language infos, in the
    /// same order: `canonical_codes()` and `languages()` list the same
    /// languages.
    pub proof fn lemma_codes_are_info_codes(&self)
        ensures
            self.codes().len() == self.infos().len(),
            forall|i: int| 0 <= i < self.infos().len() ==> #[trigger] self.codes()[i] == self.infos()[i].0,
    {
    }

    /// The alias table as `(alias, target, deprecation note)`.
    pub closed spec fn alias_table(&self) -> Seq<(Seq<char>, Seq<char>, Option<Seq<char>>)> {
        self.aliases@.map_values(|a: Alias| a.view())
    }

    /// Index of the first alias entry named `key`.
    pub open spec fn alias_index(&self, key: Seq<char>) -> Option<int> {
        if exists|k: int| 0 <= k < self.alias_table().len() && #[trigger] self.alias_table()[k].0 == key {
            Some(choose|k: int| 0 <= k < self.alias_table().len() && #[trigger] self.alias_table()[k].0 == key
                && forall|j: int| 0 <= j < k ==> self.alias_table()[j].0 != key)
        } else {
            None
        }
    }

    /// A key the alias table holds has a first entry, which `alias_index`
    /// names.
    pub proof fn lemma_alias_index_found(&self, key: Seq<char>, k: int)
        requires
            0 <= k < self.alias_table().len(),
            self.alias_table()[k].0 == key,
        ensures
            self.alias_index(key) matches Some(a) && 0 <= a < self.alias_table().len() && self.alias_table()[a].0 == key,
    {
        lemma_first_alias(self.alias_table(), key, k);
    }

    /// What `resolve` answers for a normalized key: the canonical code and
    /// the deprecation note, if any.
    pub open spec fn resolve_spec(&self, key: Seq<char>) -> Option<(Seq<char>, Option<Seq<char>>)> {
        if self.codes().contains(key) {
            Some((key, None))
        } else {
            match self.alias_index(key) {
                Some(k) => Some((self.alias_table()[k].1, self.alias_table()[k].2)),
                None => None,
            }
        }
    }

    /// A registry with no languages.
    pub fn empty() -> (r: Self)
        ensures
            r.infos().len() == 0,
            r.codes().len() == 0,
            r.alias_table().len() == 0,
    {
        let r = LanguageRegistry { languages: Vec::new(), aliases: Vec::new() };
        assert(codes_of(r.languages@) =~= Seq::<Seq<char>>::empty());
        r
    }

    /// Whether there are no languages.
    pub fn is_empty(&self) -> (b: bool)
        ensures
            b == (self.infos().len() == 0),
    {
        self.languages.len() == 0
    }

    /// Every language, sorted by code.
    pub fn languages(&self) -> (r: &[LanguageInfo])
        ensures
            infos_view(r@) == self.infos(),
    {
        self.languages.as_slice()
    }

    /// All canonical codes, sorted.
    pub fn canonical_codes(&self) -> (r: Vec<String>)
        ensures
            strings_view(r@) == self.codes(),
            strictly_sorted(self.codes()),
            forall|k: int| 0 <= k < self.alias_table().len() ==> self.codes().contains(#[trigger] self.alias_table()[k].1),
    {
        proof {
            use_type_invariant(self);
        }
        let mut r: Vec<String> = Vec::new();
        let mut i: usize = 0;
        assert(codes_of(self.languages@).len() == self.languages@.len());
        assert(self.codes().len() == self.languages@.len());
        while i < self.languages.len()
            invariant
                i <= self.languages@.len(),
                self.codes().len() == self.languages@.len(),
                strings_view(r@) == self.codes().take(i as int),
            decreases self.languages@.len() - i,
        {
            let c = self.languages[i].code.clone();
            let ghost before = r@;
            r.push(c);
            proof {
                lemma_strings_view_push(before, c);
                assert(self.codes()[i as int] == self.languages@[i as int].code@);
                assert(self.codes().take(i + 1) =~= self.codes().take(i as int).push(self.codes()[i as int]));
            }
            i += 1;
            assert(strings_view(r@) =~= self.codes().take(i as int));
        }
        assert(self.codes().take(self.codes().len() as int) =~= self.codes());
        r
    }

    /// Position of the language with exactly this code.
    fn position(&self, code: &str) -> (r: Option<usize>)
        ensures
            r matches Some(i) ==> i < self.codes().len() && self.codes()[i as int] == code@,
            r is None ==> !self.codes().contains(code@),
    {
        let mut i: usize = 0;
        while i < self.languages.len()
            invariant
                i <= self.languages@.len(),
                forall|k: int| 0 <= k < i ==> #[trigger] self.codes()[k] != code@,
            decreases self.languages@.len() - i,
        {
            if str_eq(self.languages[i].code.as_str(), code) {
                return Some(i);
            }
            i += 1;
        }
        None
    }

    /// Normalize a caller-supplied code: trim, lowercase, `-` to `_`.
    pub fn normalize_code(code: &str) -> (r: String)
        ensures
            r@ == normalize_code_spec(code@),
    {
        let t = to_chars(code);
        let trimmed = trim_chars(t.as_slice());
        assert(trimmed@ == trim(code@));
        let trimmed_s = from_chars(trimmed.as_slice());
        let low = to_chars(to_lowercase(trimmed_s.as_str()).as_str());
        let mut out = String::new();
        let mut i: usize = 0;
        let ghost target = normalize_code_spec(code@);
        while i < low.len()
            invariant
                i <= low@.len(),
                low@ == lowercase(trim(code@)),
                target == normalize_code_spec(code@),
                out@ == target.take(i as int),
            decreases low@.len() - i,
        {
            let c = low[i];
            if c == '-' {
                push_char(&mut out, '_');
            } else {
                push_char(&mut out, c);
            }
            i += 1;
            assert(out@ =~= target.take(i as int));
        }
        assert(target.take(low@.len() as int) =~= target);
        out
    }

    /// Position of the first alias named `key`.
    fn alias_position(&self, key: &str) -> (r: Option<usize>)
        ensures
            r matches Some(k) ==> self.alias_index(key@) == Some(k as int),
            r is None ==> self.alias_index(key@) is None,
    {
        let mut i: usize = 0;
        while i < self.aliases.len()
            invariant
                i <= self.aliases@.len(),
                forall|k: int| 0 <= k < i ==> #[trigger] self.alias_table()[k].0 != key@,
            decreases self.aliases@.len() - i,
        {
            if str_eq(self.aliases[i].alias.as_str(), key) {
                assert(self.alias_table()[i as int].0 == key@);
                let ghost c = choose|k: int| 0 <= k < self.alias_table().len() && #[trigger] self.alias_table()[k].0
                    == key@ && forall|j: int| 0 <= j < k ==> self.alias_table()[j].0 != key@;
                assert(c == i);
                return Some(i);
            }
            i += 1;
        }
        None
    }

    /// Resolve a code or alias to its canonical form.
    ///
    /// The code is normalized first; a language code wins over an alias of
    /// the same spelling. An unknown code is an [`Error::UnknownLanguage`]
    /// carrying the code as given and every canonical code.
    pub fn resolve(&self, code: &str) -> (r: Result<Resolved<'_>, Error>)
        ensures
            r matches Ok(res) ==> self.resolve_spec(normalize_code_spec(code@)) == Some(
                (res.canonical@, opt_str_view(res.deprecated)),
            ) && self.codes().contains(res.canonical@),
            r is Err <==> self.resolve_spec(normalize_code_spec(code@)) is None,
            r matches Err(e) ==> e matches Error::UnknownLanguage { code: c, available } && c@ == code@
                && strings_view(available@) == self.codes(),
    {
        proof {
            use_type_invariant(self);
        }
        let key = Self::normalize_code(code);
        match self.position(key.as_str()) {
            Some(i) => {
                return Ok(Resolved { canonical: self.languages[i].code.as_str(), deprecated: None });
            },
            None => {},
        }
        match self.alias_position(key.as_str()) {
            Some(k) => {
                let entry = &self.aliases[k];
                assert(self.alias_table()[k as int] == entry.view());
                match self.position(entry.target.as_str()) {
                    Some(i) => {
                        let deprecated = match &entry.note {
                            Some(n) => Some(n.as_str()),
                            None => None,
                        };
                        Ok(Resolved { canonical: self.languages[i].code.as_str(), deprecated })
                    },
                    None => {
                        assert(self.codes().contains(self.aliases@[k as int].target@));
                        Err(Error::UnknownLanguage { code: code.to_string(), available: self.canonical_codes() })
                    },
                }
            },
            None => Err(Error::UnknownLanguage { code: code.to_string(), available: self.canonical_codes() }),
        }
    }

    /// Look up a canonical code (not normalized).
    pub fn info(&self, canonical: &str) -> (r: Option<&LanguageInfo>)
        ensures
            r matches Some(l) ==> self.infos().contains(l.view()) && l.code@ == canonical@ && self.info_of(canonical@)
                == Some(l.view()),
            r is None ==> !self.codes().contains(canonical@) && self.info_of(canonical@) is None,
    {
        proof {
            use_type_invariant(self);
        }
        match self.position(canonical) {
            Some(i) => {
                assert(self.infos()[i as int] == self.languages@[i as int].view());
                assert(self.infos().contains(self.languages@[i as int].view()));
                proof {
                    assert(self.codes()[i as int] == self.languages@[i as int].code@);
                    assert(self.infos()[i as int].0 == canonical@);
                    let k = choose|k: int| 0 <= k < self.infos().len() && #[trigger] self.infos()[k].0 == canonical@;
                    assert(self.infos()[k] == self.languages@[k].view());
                    assert(self.codes()[k] == self.languages@[k].code@);
                    assert(self.codes()[k] == self.infos()[k].0);
                    if k < i {
                        assert(lex_lt(self.codes()[k], self.codes()[i as int]));
                        crate::text::lemma_lex_irreflexive(self.codes()[k]);
                    } else if k > i {
                        assert(lex_lt(self.codes()[i as int], self.codes()[k]));
                        crate::text::lemma_lex_irreflexive(self.codes()[k]);
                    }
                }
                Some(&self.languages[i])
            },
            None => {
                proof {
                    if exists|k: int| 0 <= k < self.infos().len() && #[trigger] self.infos()[k].0 == canonical@ {
                        let k = choose|k: int| 0 <= k < self.infos().len() && #[trigger] self.infos()[k].0 == canonical@;
                        assert(self.infos()[k] == self.languages@[k].view());
                        assert(self.codes()[k] == self.languages@[k].code@);
                        assert(self.codes()[k] == canonical@);
                    }
                }
                None
            },
        }
    }

    /// The entry of the language with code `code`.
    pub open spec fn info_of(&self, code: Seq<char>) -> Option<(Seq<char>, Seq<char>, Seq<char>)> {
        if exists|k: int| 0 <= k < self.infos().len() && #[trigger] self.infos()[k].0 == code {
            Some(self.infos()[choose|k: int| 0 <= k < self.infos().len() && #[trigger] self.infos()[k].0 == code])
        } else {
            None
        }
    }

    /// A registry from bare file stems, for resource sets that ship no
    /// `languages.json`: every stem is canonical, named after itself, with
    /// word list `<code>.txt`, and there are no aliases.
    pub fn from_codes(codes: Vec<String>) -> (r: Self)
        ensures
            strictly_sorted(r.codes()),
            forall|c: Seq<char>| #[trigger] r.codes().contains(c) <==> strings_view(codes@).contains(c),
            forall|k: int| 0 <= k < r.infos().len() ==> (#[trigger] r.infos()[k]).1 == r.infos()[k].0
                && r.infos()[k].2 == r.infos()[k].0 + seq!['.', 't', 'x', 't'],
            r.alias_table().len() == 0,
    {
        let mut languages: Vec<LanguageInfo> = Vec::new();
        let mut i: usize = 0;
        while i < codes.len()
            invariant
                i <= codes@.len(),
                strictly_sorted(codes_of(languages@)),
                forall|c: Seq<char>| #[trigger] codes_of(languages@).contains(c) <==> strings_view(codes@).take(
                    i as int,
                ).contains(c),
                forall|k: int| 0 <= k < languages@.len() ==> (#[trigger] languages@[k]).name@ == languages@[k].code@
                    && languages@[k].file@ == languages@[k].code@ + seq!['.', 't', 'x', 't'],
            decreases codes@.len() - i,
        {
            let code = codes[i].clone();
            let mut file = code.clone();
            push_char(&mut file, '.');
            push_char(&mut file, 't');
            push_char(&mut file, 'x');
            push_char(&mut file, 't');
            assert(file@ =~= code@ + seq!['.', 't', 'x', 't']);
            let info = LanguageInfo { code: code.clone(), name: code, file };
            let ghost old_l = languages@;
            let ghost iv = info.view();
            insert_sorted(&mut languages, info);
            proof {
                let prev = strings_view(codes@).take(i as int);
                let next = strings_view(codes@).take(i + 1);
                assert(next =~= prev.push(codes@[i as int]@));
                assert forall|c: Seq<char>| #[trigger] codes_of(languages@).contains(c) <==> next.contains(c) by {
                    if next.contains(c) && c != codes@[i as int]@ {
                        let m = choose|m: int| 0 <= m < next.len() && next[m] == c;
                        assert(prev[m] == c);
                    }
                    if prev.contains(c) {
                        let m = choose|m: int| 0 <= m < prev.len() && prev[m] == c;
                        assert(next[m] == c);
                    }
                    if c == codes@[i as int]@ {
                        assert(next[i as int] == c);
                    }
                }
                assert forall|k: int| 0 <= k < languages@.len() implies (#[trigger] languages@[k]).name@
                    == languages@[k].code@ && languages@[k].file@ == languages@[k].code@ + seq!['.', 't', 'x', 't'] by {
                    if languages@ != old_l {
                        assert(infos_view(languages@)[k] == languages@[k].view());
                        assert(infos_view(languages@).to_set().contains(languages@[k].view()));
                        if languages@[k].view() != iv {
                            assert(infos_view(old_l).to_set().contains(languages@[k].view()));
                            let m = choose|m: int| 0 <= m < infos_view(old_l).len() && infos_view(old_l)[m]
                                == languages@[k].view();
                            assert(old_l[m].view() == languages@[k].view());
                        }
                    }
                }
            }
            i += 1;
        }
        assert(strings_view(codes@).take(codes@.len() as int) =~= strings_view(codes@));
        let r = LanguageRegistry { languages, aliases: Vec::new() };
        assert(r.alias_table() =~= Seq::<(Seq<char>, Seq<char>, Option<Seq<char>>)>::empty());
        r
    }

    /// A registry from parsed `languages.json` contents: languages sorted by
    /// code (the first of any repeated code kept), and the aliases whose
    /// target is a known language, each carrying its note only when it is
    /// deprecated.
    pub fn from_parts(languages: Vec<LanguageInfo>, aliases: Vec<(String, String, bool, String)>) -> (r: Self)
        ensures
            strictly_sorted(r.codes()),
            forall|c: Seq<char>| #[trigger] r.codes().contains(c) <==> codes_of(languages@).contains(c),
            forall|x| #[trigger] r.infos().contains(x) <==> exists|k: int| first_of_code(infos_view(languages@), k)
                && infos_view(languages@)[k] == x,
            r.alias_table() == kept_aliases(r.codes(), alias_input_view(aliases@)),
    {
        let ghost input = infos_view(languages@);
        let mut langs: Vec<LanguageInfo> = Vec::new();
        let mut i: usize = 0;
        while i < languages.len()
            invariant
                i <= languages@.len(),
                input == infos_view(languages@),
                strictly_sorted(codes_of(langs@)),
                forall|c: Seq<char>| #[trigger] codes_of(langs@).contains(c) <==> codes_of(languages@).take(
                    i as int,
                ).contains(c),
                forall|x| #[trigger] infos_view(langs@).to_set().contains(x) <==> exists|k: int| 0 <= k < i
                    && first_of_code(input, k) && input[k] == x,
            decreases languages@.len() - i,
        {
            let info = languages[i].duplicate();
            let ghost old_l = langs@;
            let ghost iv = info.view();
            let ghost prev_codes = codes_of(languages@).take(i as int);
            let ghost next_codes = codes_of(languages@).take(i + 1);
            insert_sorted(&mut langs, info);
            proof {
                assert(next_codes =~= prev_codes.push(iv.0));
                assert(input[i as int] == iv);
                assert(codes_of(languages@)[i as int] == iv.0);
                assert forall|c: Seq<char>| #[trigger] codes_of(langs@).contains(c) <==> next_codes.contains(c) by {
                    if next_codes.contains(c) && c != iv.0 {
                        let m = choose|m: int| 0 <= m < next_codes.len() && next_codes[m] == c;
                        assert(prev_codes[m] == c);
                    }
                    if prev_codes.contains(c) {
                        let m = choose|m: int| 0 <= m < prev_codes.len() && prev_codes[m] == c;
                        assert(next_codes[m] == c);
                    }
                    if c == iv.0 {
                        assert(next_codes[i as int] == c);
                    }
                }
                let is_first = first_of_code(input, i as int);
                if codes_of(old_l).contains(iv.0) {
                    let m = choose|m: int| 0 <= m < prev_codes.len() && prev_codes[m] == iv.0;
                    assert(input[m].0 == iv.0);
                    assert(!is_first);
                } else {
                    assert(is_first) by {
                        assert forall|j: int| 0 <= j < i implies #[trigger] input[j].0 != input[i as int].0 by {
                            assert(prev_codes[j] == input[j].0);
                        }
                    }
                }
                assert forall|x| #[trigger] infos_view(langs@).to_set().contains(x) <==> exists|k: int| 0 <= k < i + 1
                    && first_of_code(input, k) && input[k] == x by {
                    if exists|k: int| 0 <= k < i + 1 && first_of_code(input, k) && input[k] == x {
                        let k = choose|k: int| 0 <= k < i + 1 && first_of_code(input, k) && input[k] == x;
                        if k < i {
                            assert(infos_view(old_l).to_set().contains(x));
                        }
                    }
                }
            }
            i += 1;
        }
        assert(codes_of(languages@).take(languages@.len() as int) =~= codes_of(languages@));
        assert forall|x| #[trigger] infos_view(langs@).contains(x) <==> exists|k: int| first_of_code(input, k)
            && input[k] == x by {
            assert(infos_view(langs@).to_set().contains(x) == infos_view(langs@).contains(x));
        }
        let ghost final_codes = codes_of(langs@);
        let ghost ain = alias_input_view(aliases@);
        let mut kept: Vec<Alias> = Vec::new();
        let mut j: usize = 0;
        while j < aliases.len()
            invariant
                j <= aliases@.len(),
                ain == alias_input_view(aliases@),
                final_codes == codes_of(langs@),
                kept@.map_values(|a: Alias| a.view()) == kept_aliases(final_codes, ain.take(j as int)),
                forall|k: int| 0 <= k < kept@.len() ==> final_codes.contains(#[trigger] kept@[k].target@),
                forall|a: int, b: int| 0 <= a < b < kept@.len() ==> #[trigger] kept@[a].alias@ != #[trigger] kept@[b].alias@,
            decreases aliases@.len() - j,
        {
            let ghost kv = kept@.map_values(|a: Alias| a.view());
            proof {
                assert(ain.take(j + 1).drop_last() =~= ain.take(j as int));
                assert(ain.take(j + 1).last() == ain[j as int]);
            }
            let mut target_known = false;
            let mut p: usize = 0;
            while p < langs.len()
                invariant
                    p <= langs@.len(),
                    j < aliases@.len(),
                    final_codes == codes_of(langs@),
                    target_known == final_codes.take(p as int).contains(aliases@[j as int].1@),
                decreases langs@.len() - p,
            {
                let ghost before = final_codes.take(p as int);
                if str_eq(langs[p].code.as_str(), aliases[j].1.as_str()) {
                    target_known = true;
                }
                p += 1;
                proof {
                    let after = final_codes.take(p as int);
                    assert(after =~= before.push(final_codes[p - 1]));
                    assert(final_codes[p - 1] == langs@[p - 1].code@);
                    lemma_push_contains(before, final_codes[p - 1], aliases@[j as int].1@);
                }
            }
            assert(final_codes.take(langs@.len() as int) =~= final_codes);
            let mut seen = false;
            let mut q: usize = 0;
            while q < kept.len()
                invariant
                    q <= kept@.len(),
                    j < aliases@.len(),
                    kv == kept@.map_values(|a: Alias| a.view()),
                    seen == exists|k: int| 0 <= k < q && #[trigger] kv[k].0 == aliases@[j as int].0@,
                decreases kept@.len() - q,
            {
                if str_eq(kept[q].alias.as_str(), aliases[j].0.as_str()) {
                    seen = true;
                    assert(kv[q as int].0 == aliases@[j as int].0@);
                }
                q += 1;
            }
            if target_known && !seen {
                let note = if aliases[j].2 {
                    Some(aliases[j].3.clone())
                } else {
                    None
                };
                let entry = Alias { alias: aliases[j].0.clone(), target: aliases[j].1.clone(), note };
                kept.push(entry);
                proof {
                    assert(kept@.map_values(|a: Alias| a.view()) =~= kv.push(
                        (ain[j as int].0, ain[j as int].1, if ain[j as int].2 { Some(ain[j as int].3) } else { None }),
                    ));
                    assert forall|a: int, b: int| 0 <= a < b < kept@.len() implies #[trigger] kept@[a].alias@
                        != #[trigger] kept@[b].alias@ by {
                        if b == kept@.len() - 1 {
                            assert(kv[a].0 == kept@[a].alias@);
                        }
                    }
                }
            }
            j += 1;
        }
        assert(ain.take(aliases@.len() as int) =~= ain);
        LanguageRegistry { languages: langs, aliases: kept }
    }

    /// Restrict the registry to the languages whose word list is present,
    /// and the aliases to those still pointing at one of them.
    pub fn retain_files(&mut self, present: &[String])
        ensures
            final(self).infos() == kept_languages(old(self).infos(), strings_view(present@)),
            final(self).alias_table() == live_aliases(old(self).alias_table(), final(self).codes()),
    {
        proof {
            use_type_invariant(&*self);
        }
        let ghost old_infos = self.infos();
        let ghost pv = strings_view(present@);
        let mut langs: Vec<LanguageInfo> = Vec::new();
        let mut i: usize = 0;
        while i < self.languages.len()
            invariant
                i <= self.languages@.len(),
                old_infos == self.infos(),
                pv == strings_view(present@),
                strictly_sorted(codes_of(self.languages@)),
                infos_view(langs@) == kept_languages(old_infos.take(i as int), pv),
                forall|a: int, b: int| 0 <= a < langs@.len() && i <= b < self.languages@.len() ==> lex_lt(
                    #[trigger] codes_of(langs@)[a],
                    #[trigger] codes_of(self.languages@)[b],
                ),
                strictly_sorted(codes_of(langs@)),
            decreases self.languages@.len() - i,
        {
            proof {
                assert(old_infos.take(i + 1).drop_last() =~= old_infos.take(i as int));
                assert(old_infos.take(i + 1).last() == self.languages@[i as int].view());
            }
            let keep = contains_string(present, self.languages[i].file.as_str());
            if keep {
                let info = self.languages[i].duplicate();
                let ghost prev = langs@;
                langs.push(info);
                proof {
                    assert(infos_view(langs@) =~= infos_view(prev).push(self.languages@[i as int].view()));
                    let cl = codes_of(langs@);
                    let oc = codes_of(self.languages@);
                    assert(cl =~= codes_of(prev).push(oc[i as int]));
                    assert forall|a: int, b: int| 0 <= a < b < cl.len() implies lex_lt(#[trigger] cl[a], #[trigger] cl[b]) by {
                        if b == cl.len() - 1 {
                            assert(lex_lt(codes_of(prev)[a], oc[i as int]));
                        } else {
                            assert(cl[a] == codes_of(prev)[a]);
                            assert(cl[b] == codes_of(prev)[b]);
                        }
                    }
                    assert forall|a: int, b: int| 0 <= a < langs@.len() && i + 1 <= b < self.languages@.len() implies lex_lt(
                        #[trigger] cl[a],
                        #[trigger] oc[b],
                    ) by {
                        if a == cl.len() - 1 {
                            assert(lex_lt(oc[i as int], oc[b]));
                        } else {
                            assert(cl[a] == codes_of(prev)[a]);
                        }
                    }
                }
            }
            i += 1;
        }
        assert(old_infos.take(old_infos.len() as int) =~= old_infos);
        let ghost new_codes = codes_of(langs@);
        let ghost old_aliases = self.alias_table();
        let mut kept: Vec<Alias> = Vec::new();
        let mut j: usize = 0;
        while j < self.aliases.len()
            invariant
                j <= self.aliases@.len(),
                old_aliases == self.alias_table(),
                new_codes == codes_of(langs@),
                kept@.map_values(|a: Alias| a.view()) == live_aliases(old_aliases.take(j as int), new_codes),
                forall|k: int| 0 <= k < kept@.len() ==> new_codes.contains(#[trigger] kept@[k].target@),
                forall|k: int, m: int| 0 <= k < kept@.len() && j <= m < self.aliases@.len() ==> #[trigger] kept@[k].alias@
                    != #[trigger] self.aliases@[m].alias@,
                forall|a: int, b: int| 0 <= a < b < kept@.len() ==> #[trigger] kept@[a].alias@ != #[trigger] kept@[b].alias@,
                forall|a: int, b: int| 0 <= a < b < self.aliases@.len() ==> #[trigger] self.aliases@[a].alias@
                    != #[trigger] self.aliases@[b].alias@,
            decreases self.aliases@.len() - j,
        {
            proof {
                assert(old_aliases.take(j + 1).drop_last() =~= old_aliases.take(j as int));
                assert(old_aliases.take(j + 1).last() == self.aliases@[j as int].view());
            }
            let mut live = false;
            let mut p: usize = 0;
            while p < langs.len()
                invariant
                    p <= langs@.len(),
                    j < self.aliases@.len(),
                    new_codes == codes_of(langs@),
                    live == new_codes.take(p as int).contains(self.aliases@[j as int].target@),
                decreases langs@.len() - p,
            {
                let ghost before = new_codes.take(p as int);
                if str_eq(langs[p].code.as_str(), self.aliases[j].target.as_str()) {
                    live = true;
                }
                p += 1;
                proof {
                    let after = new_codes.take(p as int);
                    assert(after =~= before.push(new_codes[p - 1]));
                    assert(new_codes[p - 1] == langs@[p - 1].code@);
                    lemma_push_contains(before, new_codes[p - 1], self.aliases@[j as int].target@);
                }
            }
            assert(new_codes.take(langs@.len() as int) =~= new_codes);
            if live {
                let note = match &self.aliases[j].note {
                    Some(n) => Some(n.clone()),
                    None => None,
                };
                let entry = Alias {
                    alias: self.aliases[j].alias.clone(),
                    target: self.aliases[j].target.clone(),
                    note,
                };
                let ghost prev = kept@;
                kept.push(entry);
                proof {
                    assert(kept@.map_values(|a: Alias| a.view()) =~= prev.map_values(|a: Alias| a.view()).push(
                        self.aliases@[j as int].view(),
                    ));
                    assert forall|k: int, m: int| 0 <= k < kept@.len() && j + 1 <= m < self.aliases@.len() implies #[trigger] kept@[k].alias@
                        != #[trigger] self.aliases@[m].alias@ by {
                        if k == kept@.len() - 1 {
                            assert(kept@[k].alias@ == self.aliases@[j as int].alias@);
                        } else {
                            assert(kept@[k] == prev[k]);
                        }
                    }
                    assert forall|a: int, b: int| 0 <= a < b < kept@.len() implies #[trigger] kept@[a].alias@
                        != #[trigger] kept@[b].alias@ by {
                        assert(kept@[a] == prev[a]);
                        if b < kept@.len() - 1 {
                            assert(kept@[b] == prev[b]);
                        } else {
                            assert(kept@[b].alias@ == self.aliases@[j as int].alias@);
                        }
                    }
                }
            }
            j += 1;
        }
        assert(old_aliases.take(old_aliases.len() as int) =~= old_aliases);
        *self = LanguageRegistry { languages: langs, aliases: kept };
    }

    /// Aliases pointing at a canonical code, sorted.
    pub fn aliases_for(&self, canonical: &str) -> (r: Vec<String>)
        ensures
            strictly_sorted(strings_view(r@)),
            forall|a: Seq<char>| #[trigger] strings_view(r@).contains(a) <==> exists|k: int| 0 <= k
                < self.alias_table().len() && #[trigger] self.alias_table()[k] == (a, canonical@, self.alias_table()[k].2),
    {
        let mut found: Vec<String> = Vec::new();
        let mut i: usize = 0;
        while i < self.aliases.len()
            invariant
                i <= self.aliases@.len(),
                strictly_sorted(strings_view(found@)),
                forall|a: Seq<char>| #[trigger] strings_view(found@).contains(a) <==> exists|k: int| 0 <= k < i
                    && #[trigger] self.alias_table()[k] == (a, canonical@, self.alias_table()[k].2),
            decreases self.aliases@.len() - i,
        {
            assert(self.alias_table()[i as int] == self.aliases@[i as int].view());
            if str_eq(self.aliases[i].target.as_str(), canonical) {
                insert_sorted_string(&mut found, self.aliases[i].alias.clone());
            }
            i += 1;
        }
        found
    }
}


/// Every kept language's file is present.
pub proof fn lemma_kept_languages_present(infos: Seq<(Seq<char>, Seq<char>, Seq<char>)>, present: Seq<Seq<char>>)
    ensures
        forall|k: int| 0 <= k < kept_languages(infos, present).len() ==> present.contains(
            #[trigger] kept_languages(infos, present)[k].2,
        ),
    decreases infos.len(),
{
    if infos.len() > 0 {
        lemma_kept_languages_present(infos.drop_last(), present);
        let prev = kept_languages(infos.drop_last(), present);
        let all = kept_languages(infos, present);
        assert forall|k: int| 0 <= k < all.len() implies present.contains(#[trigger] all[k].2) by {
            if k < prev.len() {
                assert(all[k] == prev[k]);
            }
        }
    }
}

/// Every kept alias points at one of the codes.
pub proof fn lemma_live_aliases_point_at(aliases: Seq<(Seq<char>, Seq<char>, Option<Seq<char>>)>, codes: Seq<Seq<char>>)
    ensures
        forall|k: int| 0 <= k < live_aliases(aliases, codes).len() ==> codes.contains(
            #[trigger] live_aliases(aliases, codes)[k].1,
        ),
    decreases aliases.len(),
{
    if aliases.len() > 0 {
        lemma_live_aliases_point_at(aliases.drop_last(), codes);
        let prev = live_aliases(aliases.drop_last(), codes);
        let all = live_aliases(aliases, codes);
        assert forall|k: int| 0 <= k < all.len() implies codes.contains(#[trigger] all[k].1) by {
            if k < prev.len() {
                assert(all[k] == prev[k]);
            }
        }
    }
}

/// Where a key occurs in an alias table, it has a first occurrence.
proof fn lemma_first_alias(t: Seq<(Seq<char>, Seq<char>, Option<Seq<char>>)>, key: Seq<char>, k: int)
    requires
        0 <= k < t.len(),
        t[k].0 == key,
    ensures
        exists|a: int| 0 <= a < t.len() && #[trigger] t[a].0 == key && forall|j: int| 0 <= j < a ==> t[j].0 != key,
    decreases k,
{
    if exists|j: int| 0 <= j < k && t[j].0 == key {
        let j = choose|j: int| 0 <= j < k && t[j].0 == key;
        lemma_first_alias(t, key, j);
    } else {
        assert(forall|j: int| 0 <= j < k ==> t[j].0 != key);
    }
}

/// Which languages are kept depends only on which files are present.
pub proof fn lemma_kept_languages_same_contains(
    infos: Seq<(Seq<char>, Seq<char>, Seq<char>)>,
    a: Seq<Seq<char>>,
    b: Seq<Seq<char>>,
)
    requires
        forall|x: Seq<char>| #[trigger] a.contains(x) <==> b.contains(x),
    ensures
        kept_languages(infos, a) == kept_languages(infos, b),
    decreases infos.len(),
{
    if infos.len() > 0 {
        lemma_kept_languages_same_contains(infos.drop_last(), a, b);
        assert(a.contains(infos.last().2) <==> b.contains(infos.last().2));
    }
}

impl LanguageRegistry {
    /// A registry with the same languages and aliases.
    pub fn duplicate(&self) -> (r: Self)
        ensures
            r.infos() == self.infos(),
            r.alias_table() == self.alias_table(),
    {
        proof {
            use_type_invariant(self);
        }
        let mut languages: Vec<LanguageInfo> = Vec::new();
        let mut i: usize = 0;
        while i < self.languages.len()
            invariant
                i <= self.languages@.len(),
                languages@.len() == i,
                forall|k: int| 0 <= k < i ==> (#[trigger] languages@[k]).view() == self.languages@[k].view(),
            decreases self.languages@.len() - i,
        {
            languages.push(self.languages[i].duplicate());
            i += 1;
        }
        let mut aliases: Vec<Alias> = Vec::new();
        let mut j: usize = 0;
        while j < self.aliases.len()
            invariant
                j <= self.aliases@.len(),
                aliases@.len() == j,
                forall|k: int| 0 <= k < j ==> (#[trigger] aliases@[k]).view() == self.aliases@[k].view(),
            decreases self.aliases@.len() - j,
        {
            let a = &self.aliases[j];
            let note = match &a.note {
                Some(n) => Some(n.clone()),
                None => None,
            };
            aliases.push(Alias { alias: a.alias.clone(), target: a.target.clone(), note });
            j += 1;
        }
        proof {
            assert(infos_view(languages@) =~= infos_view(self.languages@));
            assert(codes_of(languages@) =~= codes_of(self.languages@));
            assert(aliases@.map_values(|a: Alias| a.view()) =~= self.aliases@.map_values(|a: Alias| a.view()));
            assert forall|k: int| 0 <= k < aliases@.len() implies #[trigger] aliases@[k].target@ == self.aliases@[k].target@
                && aliases@[k].alias@ == self.aliases@[k].alias@ by {
                assert(aliases@[k].view() == self.aliases@[k].view());
            }
        }
        LanguageRegistry { languages, aliases }
    }
}
} // verus!
