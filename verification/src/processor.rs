//! Text processing: normalization, transliteration, homoglyphs.
use vstd::prelude::*;
use crate::error::Error;
use crate::text::{
    char_is_alphanumeric, char_is_whitespace, from_chars, is_alphanumeric, is_whitespace, lowercase,
    nfkc, str_eq, to_chars, to_lowercase, to_nfkc,
};

verus! {

/// What `serde_json::from_str` yields for a JSON object whose values are
/// objects of strings, read into `BTreeMap<String, BTreeMap<String, String>>`
/// (so keys come in sorted order); `None` when it fails.
pub uninterp spec fn json_string_maps(json: Seq<char>) -> Option<Seq<(Seq<char>, Seq<(Seq<char>, Seq<char>)>)>>;

/// What `serde_json::from_str` yields for a JSON object whose values are
/// arrays of strings, read into `BTreeMap<String, Vec<String>>`; `None` when
/// it fails.
pub uninterp spec fn json_string_lists(json: Seq<char>) -> Option<Seq<(Seq<char>, Seq<Seq<char>>)>>;

/// What `serde_json::from_str` yields for a JSON object read into
/// `BTreeMap<String, serde_json::Value>`: its members in key order, each
/// value written back as JSON text; `None` when it fails.
pub uninterp spec fn json_members(json: Seq<char>) -> Option<Seq<(Seq<char>, Seq<char>)>>;

/// What `serde_json::from_str` yields for a JSON array read into
/// `Vec<serde_json::Value>`: its elements, each written back as JSON text;
/// `None` when it fails.
pub uninterp spec fn json_elements(json: Seq<char>) -> Option<Seq<Seq<char>>>;

/// What `serde_json::from_str` yields for a JSON object of strings, read
/// into `BTreeMap<String, String>`; `None` when it fails.
pub uninterp spec fn json_string_map(json: Seq<char>) -> Option<Seq<(Seq<char>, Seq<char>)>>;

pub open spec fn pairs_view(v: Seq<(String, String)>) -> Seq<(Seq<char>, Seq<char>)> {
    v.map_values(|p: (String, String)| (p.0@, p.1@))
}

pub open spec fn maps_view(v: Seq<(String, Vec<(String, String)>)>) -> Seq<(Seq<char>, Seq<(Seq<char>, Seq<char>)>)> {
    v.map_values(|p: (String, Vec<(String, String)>)| (p.0@, pairs_view(p.1@)))
}

pub open spec fn lists_view(v: Seq<(String, Vec<String>)>) -> Seq<(Seq<char>, Seq<Seq<char>>)> {
    v.map_values(|p: (String, Vec<String>)| (p.0@, p.1@.map_values(|s: String| s@)))
}

/// `serde_json::from_str::<BTreeMap<String, BTreeMap<String, String>>>`,
/// with the maps handed out as vectors in key order and the error as its
/// message. The contract names the result; the JSON grammar is not restated.
#[verifier::external_body]
fn parse_string_maps(json: &str) -> (r: Result<Vec<(String, Vec<(String, String)>)>, String>)
    ensures
        r is Ok <==> json_string_maps(json@) is Some,
        r matches Ok(v) ==> maps_view(v@) == json_string_maps(json@)->0,
{
    let parsed: std::collections::BTreeMap<String, std::collections::BTreeMap<String, String>> =
        serde_json::from_str(json).map_err(|e| e.to_string())?;
    Ok(parsed.into_iter().map(|(k, m)| (k, m.into_iter().collect())).collect())
}

/// `serde_json::from_str::<BTreeMap<String, Vec<String>>>`, handed out as a
/// vector in key order. The contract names the result.
#[verifier::external_body]
fn parse_string_lists(json: &str) -> (r: Result<Vec<(String, Vec<String>)>, String>)
    ensures
        r is Ok <==> json_string_lists(json@) is Some,
        r matches Ok(v) ==> lists_view(v@) == json_string_lists(json@)->0,
{
    let parsed: std::collections::BTreeMap<String, Vec<String>> =
        serde_json::from_str(json).map_err(|e| e.to_string())?;
    Ok(parsed.into_iter().collect())
}

/// `serde_json::from_str::<BTreeMap<String, serde_json::Value>>`, handed
/// out in key order with each value written back as JSON text. The contract
/// names the result.
#[verifier::external_body]
fn parse_members(json: &str) -> (r: Result<Vec<(String, String)>, String>)
    ensures
        r is Ok <==> json_members(json@) is Some,
        r matches Ok(v) ==> pairs_view(v@) == json_members(json@)->0,
{
    let parsed: std::collections::BTreeMap<String, serde_json::Value> =
        serde_json::from_str(json).map_err(|e| e.to_string())?;
    Ok(parsed.into_iter().map(|(k, v)| (k, v.to_string())).collect())
}

/// `serde_json::from_str::<Vec<serde_json::Value>>`, each element written
/// back as JSON text. The contract names the result.
#[verifier::external_body]
fn parse_elements(json: &str) -> (r: Result<Vec<String>, String>)
    ensures
        r is Ok <==> json_elements(json@) is Some,
        r matches Ok(v) ==> v@.map_values(|s: String| s@) == json_elements(json@)->0,
{
    let parsed: Vec<serde_json::Value> = serde_json::from_str(json).map_err(|e| e.to_string())?;
    Ok(parsed.into_iter().map(|v| v.to_string()).collect())
}

/// `serde_json::from_str::<BTreeMap<String, String>>`, handed out in key
/// order. The contract names the result.
#[verifier::external_body]
fn parse_string_map(json: &str) -> (r: Result<Vec<(String, String)>, String>)
    ensures
        r is Ok <==> json_string_map(json@) is Some,
        r matches Ok(v) ==> pairs_view(v@) == json_string_map(json@)->0,
{
    let parsed: std::collections::BTreeMap<String, String> =
        serde_json::from_str(json).map_err(|e| e.to_string())?;
    Ok(parsed.into_iter().collect())
}

/// The value of the last pair whose key is `k`.
pub open spec fn lookup<K, V>(l: Seq<(K, V)>, k: K) -> Option<V>
    decreases l.len(),
{
    if l.len() == 0 {
        None
    } else if l.last().0 == k {
        Some(l.last().1)
    } else {
        lookup(l.drop_last(), k)
    }
}

fn lookup_char(l: &Vec<(char, char)>, k: char) -> (r: Option<char>)
    ensures
        r == lookup(l@, k),
{
    let mut i = l.len();
    assert(l@.take(l@.len() as int) =~= l@);
    while i > 0
        invariant
            i <= l@.len(),
            lookup(l@, k) == lookup(l@.take(i as int), k),
        decreases i,
    {
        proof {
            assert(l@.take(i as int).drop_last() =~= l@.take(i - 1));
        }
        if l[i - 1].0 == k {
            return Some(l[i - 1].1);
        }
        i -= 1;
    }
    None
}

pub open spec fn str_pairs_view<V>(l: Seq<(char, String)>) -> Seq<(char, Seq<char>)> {
    l.map_values(|p: (char, String)| (p.0, p.1@))
}

pub open spec fn rev_pairs_view(l: Seq<(String, char)>) -> Seq<(Seq<char>, char)> {
    l.map_values(|p: (String, char)| (p.0@, p.1))
}

fn lookup_latin(l: &Vec<(char, String)>, k: char) -> (r: Option<&String>)
    ensures
        r matches Some(s) ==> lookup(str_pairs_view::<()>(l@), k) == Some(s@),
        r is None ==> lookup(str_pairs_view::<()>(l@), k) is None,
{
    let ghost v = str_pairs_view::<()>(l@);
    let mut i = l.len();
    assert(v.take(v.len() as int) =~= v);
    while i > 0
        invariant
            i <= l@.len(),
            v == str_pairs_view::<()>(l@),
            lookup(v, k) == lookup(v.take(i as int), k),
        decreases i,
    {
        proof {
            assert(v.take(i as int).drop_last() =~= v.take(i - 1));
        }
        if l[i - 1].0 == k {
            return Some(&l[i - 1].1);
        }
        i -= 1;
    }
    None
}

fn lookup_cyrillic(l: &Vec<(String, char)>, k: &[char]) -> (r: Option<char>)
    ensures
        r == lookup(rev_pairs_view(l@), k@),
{
    let ghost v = rev_pairs_view(l@);
    let key = from_chars(k);
    let mut i = l.len();
    assert(v.take(v.len() as int) =~= v);
    while i > 0
        invariant
            i <= l@.len(),
            v == rev_pairs_view(l@),
            key@ == k@,
            lookup(v, k@) == lookup(v.take(i as int), k@),
        decreases i,
    {
        proof {
            assert(v.take(i as int).drop_last() =~= v.take(i - 1));
        }
        if str_eq(l[i - 1].0.as_str(), key.as_str()) {
            return Some(l[i - 1].1);
        }
        i -= 1;
    }
    None
}

/// Every character replaced through a lookup table, when it has an entry.
pub open spec fn map_chars(l: Seq<(char, char)>, s: Seq<char>) -> Seq<char> {
    s.map_values(|c: char| match lookup(l, c) {
        Some(m) => m,
        None => c,
    })
}

/// Characters that survive the normalization filter.
pub open spec fn keep_char(c: char, allow_underscore: bool) -> bool {
    char_is_alphanumeric(c) || char_is_whitespace(c) || (allow_underscore && c == '_')
}

pub open spec fn keep_chars(s: Seq<char>, allow_underscore: bool) -> Seq<char>
    decreases s.len(),
{
    if s.len() == 0 {
        seq![]
    } else if keep_char(s.last(), allow_underscore) {
        keep_chars(s.drop_last(), allow_underscore).push(s.last())
    } else {
        keep_chars(s.drop_last(), allow_underscore)
    }
}

/// The words of `s` (maximal runs of non-whitespace) joined by single
/// spaces: `split_whitespace().join(" ")`.
pub open spec fn squeeze(s: Seq<char>) -> Seq<char>
    decreases s.len(),
{
    if s.len() == 0 {
        seq![]
    } else {
        let prev = squeeze(s.drop_last());
        let c = s.last();
        if char_is_whitespace(c) {
            prev
        } else if s.len() >= 2 && !char_is_whitespace(s[s.len() - 2]) {
            prev.push(c)
        } else if prev.len() == 0 {
            prev.push(c)
        } else {
            prev.push(' ').push(c)
        }
    }
}

/// Every character replaced by its latin spelling, when it has one.
pub open spec fn to_latin(l: Seq<(char, Seq<char>)>, s: Seq<char>) -> Seq<char>
    decreases s.len(),
{
    if s.len() == 0 {
        seq![]
    } else {
        to_latin(l, s.drop_last()) + match lookup(l, s.last()) {
            Some(m) => m,
            None => seq![s.last()],
        }
    }
}

/// The longest chunk of `s` starting at `i`, of at most `len` characters,
/// that the table maps to a cyrillic letter.
pub open spec fn best_chunk(l: Seq<(Seq<char>, char)>, s: Seq<char>, i: int, len: int) -> Option<(int, char)>
    decreases len,
{
    if len <= 0 {
        None
    } else if i + len <= s.len() && lookup(l, s.subrange(i, i + len)) is Some {
        Some((len, lookup(l, s.subrange(i, i + len))->0))
    } else {
        best_chunk(l, s, i, len - 1)
    }
}

/// Greedy longest-match transliteration of `s[i..]` to cyrillic, trying
/// chunks of four characters down to one.
pub open spec fn to_cyrillic_from(l: Seq<(Seq<char>, char)>, s: Seq<char>, i: int) -> Seq<char>
    decreases s.len() - i,
{
    if i >= s.len() || i < 0 {
        seq![]
    } else {
        match best_chunk(l, s, i, 4) {
            Some((n, c)) => if n >= 1 && i + n <= s.len() {
                seq![c] + to_cyrillic_from(l, s, i + n)
            } else {
                seq![]
            },
            None => seq![s[i]] + to_cyrillic_from(l, s, i + 1),
        }
    }
}

/// Whether `s` holds a character of the Cyrillic block `U+0400..=U+04FF`.
pub open spec fn has_cyrillic(s: Seq<char>) -> bool {
    exists|i: int| 0 <= i < s.len() && '\u{0400}' <= #[trigger] s[i] && s[i] <= '\u{04FF}'
}

/// Normalization tables and switches.
#[derive(Debug)]
pub struct TextProcessor {
    pub normalize_text: bool,
    pub aggressive_normalize: bool,
    pub transliterate: bool,
    pub replace_homoglyphs: bool,
    unicode_mappings: Vec<(char, char)>,
    homoglyph_map: Vec<(char, char)>,
    cyrillic_to_latin: Vec<(char, String)>,
    latin_to_cyrillic: Vec<(String, char)>,
}


/// `(first char of key, first char of value)` for every pair whose key and
/// value are both non-empty.
pub open spec fn mapping_pairs(m: Seq<(Seq<char>, Seq<char>)>) -> Seq<(char, char)>
    decreases m.len(),
{
    if m.len() == 0 {
        seq![]
    } else {
        let p = m.last();
        if p.0.len() > 0 && p.1.len() > 0 {
            mapping_pairs(m.drop_last()).push((p.0[0], p.1[0]))
        } else {
            mapping_pairs(m.drop_last())
        }
    }
}

/// The unicode mapping table read from `unicode_mappings.json`: every
/// category's pairs, in order.
pub open spec fn unicode_table_of(cats: Seq<(Seq<char>, Seq<(Seq<char>, Seq<char>)>)>) -> Seq<(char, char)>
    decreases cats.len(),
{
    if cats.len() == 0 {
        seq![]
    } else {
        unicode_table_of(cats.drop_last()) + mapping_pairs(cats.last().1)
    }
}

/// `(first char of variant, standard)` for every non-empty variant.
pub open spec fn variant_pairs(standard: char, vs: Seq<Seq<char>>) -> Seq<(char, char)>
    decreases vs.len(),
{
    if vs.len() == 0 {
        seq![]
    } else if vs.last().len() > 0 {
        variant_pairs(standard, vs.drop_last()).push((vs.last()[0], standard))
    } else {
        variant_pairs(standard, vs.drop_last())
    }
}

/// The homoglyph table read from `homoglyphs.json`: every variant of every
/// standard character maps to it.
pub open spec fn homoglyph_table_of(lists: Seq<(Seq<char>, Seq<Seq<char>>)>) -> Seq<(char, char)>
    decreases lists.len(),
{
    if lists.len() == 0 {
        seq![]
    } else if lists.last().0.len() > 0 {
        homoglyph_table_of(lists.drop_last()) + variant_pairs(lists.last().0[0], lists.last().1)
    } else {
        homoglyph_table_of(lists.drop_last())
    }
}

/// Cyrillic letter to latin spelling, for every pair with a non-empty key.
pub open spec fn latin_table_of(m: Seq<(Seq<char>, Seq<char>)>) -> Seq<(char, Seq<char>)>
    decreases m.len(),
{
    if m.len() == 0 {
        seq![]
    } else if m.last().0.len() > 0 {
        latin_table_of(m.drop_last()).push((m.last().0[0], m.last().1))
    } else {
        latin_table_of(m.drop_last())
    }
}

/// Latin spelling to cyrillic letter, the reverse of [`latin_table_of`].
pub open spec fn cyrillic_table_of(m: Seq<(Seq<char>, Seq<char>)>) -> Seq<(Seq<char>, char)>
    decreases m.len(),
{
    if m.len() == 0 {
        seq![]
    } else if m.last().0.len() > 0 {
        cyrillic_table_of(m.drop_last()).push((m.last().1, m.last().0[0]))
    } else {
        cyrillic_table_of(m.drop_last())
    }
}

/// The `cyrillic_to_latin` object of a transliteration file, which must be
/// an object of strings: the file is a JSON object whose other members are
/// ignored, or an array holding just that object.
pub open spec fn translit_table(json: Seq<char>) -> Option<Seq<(Seq<char>, Seq<char>)>> {
    match json_members(json) {
        Some(members) => match lookup(members, "cyrillic_to_latin"@) {
            None => None,
            Some(text) => json_string_map(text),
        },
        None => match json_elements(json) {
            Some(elements) => if elements.len() == 1 {
                json_string_map(elements[0])
            } else {
                None
            },
            None => None,
        },
    }
}

/// Append `mapping_pairs(m)` to `out`.
fn push_mapping_pairs(out: &mut Vec<(char, char)>, m: &Vec<(String, String)>)
    ensures
        final(out)@ == old(out)@ + mapping_pairs(pairs_view(m@)),
{
    let ghost start = out@;
    let ghost mv = pairs_view(m@);
    let mut j: usize = 0;
    while j < m.len()
        invariant
            j <= m@.len(),
            mv == pairs_view(m@),
            out@ == start + mapping_pairs(mv.take(j as int)),
        decreases m@.len() - j,
    {
        proof {
            assert(mv.take(j + 1).drop_last() =~= mv.take(j as int));
        }
        let k = to_chars(m[j].0.as_str());
        let v = to_chars(m[j].1.as_str());
        if k.len() > 0 && v.len() > 0 {
            out.push((k[0], v[0]));
        }
        j += 1;
        proof {
            assert(mv.take(j as int).last() == (m@[j - 1].0@, m@[j - 1].1@));
            assert(out@ =~= start + mapping_pairs(mv.take(j as int)));
        }
    }
    assert(mv.take(m@.len() as int) =~= mv);
}

/// Index of the last category named `key`.
fn last_with_key(members: &Vec<(String, String)>, key: &str) -> (r: Option<usize>)
    ensures
        r matches Some(k) ==> k < members@.len() && lookup(pairs_view(members@), key@) == Some(
            members@[k as int].1@,
        ),
        r is None ==> lookup(pairs_view(members@), key@) is None,
{
    let ghost mv = pairs_view(members@);
    let mut i = members.len();
    assert(mv.take(mv.len() as int) =~= mv);
    while i > 0
        invariant
            i <= members@.len(),
            mv == pairs_view(members@),
            lookup(mv, key@) == lookup(mv.take(i as int), key@),
        decreases i,
    {
        proof {
            assert(mv.take(i as int).drop_last() =~= mv.take(i - 1));
        }
        if str_eq(members[i - 1].0.as_str(), key) {
            return Some(i - 1);
        }
        i -= 1;
    }
    None
}

proof fn lemma_maps_view_take(v: Seq<(String, Vec<(String, String)>)>, i: int)
    requires
        0 <= i < v.len(),
    ensures
        maps_view(v).take(i + 1).drop_last() == maps_view(v).take(i),
        maps_view(v).take(i + 1).last() == (v[i].0@, pairs_view(v[i].1@)),
{
    assert(maps_view(v).take(i + 1).drop_last() =~= maps_view(v).take(i));
}

impl TextProcessor {
    /// `(normalize_text, aggressive_normalize, transliterate, replace_homoglyphs)`.
    pub closed spec fn flags(&self) -> (bool, bool, bool, bool) {
        (self.normalize_text, self.aggressive_normalize, self.transliterate, self.replace_homoglyphs)
    }

    /// The unicode mapping table, as pairs; later pairs win.
    pub closed spec fn unicode_table(&self) -> Seq<(char, char)> {
        self.unicode_mappings@
    }

    /// The homoglyph table, as pairs; later pairs win.
    pub closed spec fn homoglyph_table(&self) -> Seq<(char, char)> {
        self.homoglyph_map@
    }

    /// Cyrillic letter to latin spelling.
    pub closed spec fn latin_table(&self) -> Seq<(char, Seq<char>)> {
        str_pairs_view::<()>(self.cyrillic_to_latin@)
    }

    /// Latin spelling to cyrillic letter.
    pub closed spec fn cyrillic_table(&self) -> Seq<(Seq<char>, char)> {
        rev_pairs_view(self.latin_to_cyrillic@)
    }

    /// NFKC, lowercase, the unicode mappings, the character filter and
    /// whitespace collapsing, in that order.
    pub open spec fn normalized(&self, t: Seq<char>, allow_underscore: bool) -> Seq<char> {
        squeeze(keep_chars(map_chars(self.unicode_table(), lowercase(nfkc(t))), allow_underscore))
    }

    /// Both transliteration passes.
    pub open spec fn transliterated(&self, t: Seq<char>) -> Seq<char> {
        let a = if has_cyrillic(t) {
            to_latin(self.latin_table(), t)
        } else {
            t
        };
        to_cyrillic_from(self.cyrillic_table(), a, 0)
    }

    /// What the matcher sees of `t`: normalization (NFKC, lowercase, the
    /// unicode table, the character filter, collapsed whitespace) when either
    /// normalization switch is on, then transliteration, then homoglyphs.
    pub open spec fn process(&self, t: Seq<char>) -> Seq<char> {
        let (normalize, aggressive, transliterate, homoglyphs) = self.flags();
        let s1 = if normalize || aggressive {
            self.normalized(t, normalize && !aggressive)
        } else {
            t
        };
        let s2 = if transliterate {
            self.transliterated(s1)
        } else {
            s1
        };
        if homoglyphs {
            map_chars(self.homoglyph_table(), s2)
        } else {
            s2
        }
    }

    /// With every switch off, processing hands the text back unchanged.
    pub proof fn lemma_process_all_off(&self, t: Seq<char>)
        requires
            self.flags() == (false, false, false, false),
        ensures
            self.process(t) == t,
    {
    }

    /// A processor with the given switches and empty tables.
    pub fn new(
        normalize_text: bool,
        aggressive_normalize: bool,
        transliterate: bool,
        replace_homoglyphs: bool,
    ) -> (p: Self)
        ensures
            p.flags() == (normalize_text, aggressive_normalize, transliterate, replace_homoglyphs),
            p.unicode_table().len() == 0,
            p.homoglyph_table().len() == 0,
            p.latin_table().len() == 0,
            p.cyrillic_table().len() == 0,
    {
        TextProcessor {
            normalize_text,
            aggressive_normalize,
            transliterate,
            replace_homoglyphs,
            unicode_mappings: Vec::new(),
            homoglyph_map: Vec::new(),
            cyrillic_to_latin: Vec::new(),
            latin_to_cyrillic: Vec::new(),
        }
    }

    fn parse_unicode_mappings(content: &str) -> (r: Result<Vec<(char, char)>, Error>)
        ensures
            r is Ok <==> json_string_maps(content@) is Some,
            r matches Ok(v) ==> v@ == unicode_table_of(json_string_maps(content@)->0),
            r matches Err(e) ==> e is Json,
    {
        match parse_string_maps(content) {
            Err(message) => Err(Error::Json { resource: "unicode_mappings.json".to_string(), message }),
            Ok(cats) => Ok(Self::unicode_table_from(&cats)),
        }
    }

    /// The unicode table of parsed `unicode_mappings.json` categories: the
    /// first characters of each key and value, category after category.
    pub fn unicode_table_from(cats: &Vec<(String, Vec<(String, String)>)>) -> (r: Vec<(char, char)>)
        ensures
            r@ == unicode_table_of(maps_view(cats@)),
    {
        let ghost cv = maps_view(cats@);
        let mut out: Vec<(char, char)> = Vec::new();
        let mut i: usize = 0;
        while i < cats.len()
            invariant
                i <= cats@.len(),
                cv == maps_view(cats@),
                out@ == unicode_table_of(cv.take(i as int)),
            decreases cats@.len() - i,
        {
            proof {
                lemma_maps_view_take(cats@, i as int);
            }
            push_mapping_pairs(&mut out, &cats[i].1);
            i += 1;
        }
        assert(cv.take(cats@.len() as int) =~= cv);
        out
    }

    fn parse_homoglyph_map(content: &str) -> (r: Result<Vec<(char, char)>, Error>)
        ensures
            r is Ok <==> json_string_lists(content@) is Some,
            r matches Ok(v) ==> v@ == homoglyph_table_of(json_string_lists(content@)->0),
            r matches Err(e) ==> e is Json,
    {
        match parse_string_lists(content) {
            Err(message) => Err(Error::Json { resource: "homoglyphs.json".to_string(), message }),
            Ok(lists) => Ok(Self::homoglyph_table_from(&lists)),
        }
    }

    /// The homoglyph table of parsed `homoglyphs.json` lists: each variant's
    /// first character maps to the first character of its standard.
    pub fn homoglyph_table_from(lists: &Vec<(String, Vec<String>)>) -> (r: Vec<(char, char)>)
        ensures
            r@ == homoglyph_table_of(lists_view(lists@)),
    {
        let ghost lv = lists_view(lists@);
        let mut out: Vec<(char, char)> = Vec::new();
        let mut i: usize = 0;
        while i < lists.len()
            invariant
                i <= lists@.len(),
                lv == lists_view(lists@),
                out@ == homoglyph_table_of(lv.take(i as int)),
            decreases lists@.len() - i,
        {
            proof {
                assert(lv.take(i + 1).drop_last() =~= lv.take(i as int));
                assert(lv.take(i + 1).last() == lv[i as int]);
            }
            let standard = to_chars(lists[i].0.as_str());
            if standard.len() > 0 {
                let std_c = standard[0];
                let variants = &lists[i].1;
                let ghost vv = variants@.map_values(|s: String| s@);
                let ghost start = out@;
                let mut j: usize = 0;
                while j < variants.len()
                    invariant
                        j <= variants@.len(),
                        vv == variants@.map_values(|s: String| s@),
                        out@ == start + variant_pairs(std_c, vv.take(j as int)),
                    decreases variants@.len() - j,
                {
                    proof {
                        assert(vv.take(j + 1).drop_last() =~= vv.take(j as int));
                        assert(vv.take(j + 1).last() == variants@[j as int]@);
                    }
                    let var = to_chars(variants[j].as_str());
                    if var.len() > 0 {
                        out.push((var[0], std_c));
                    }
                    j += 1;
                    assert(out@ =~= start + variant_pairs(std_c, vv.take(j as int)));
                }
                assert(vv.take(variants@.len() as int) =~= vv);
                assert(lv[i as int].1 == vv);
            }
            i += 1;
        }
        assert(lv.take(lists@.len() as int) =~= lv);
        out
    }

    fn parse_transliteration(content: &str) -> (r: Result<(Vec<(char, String)>, Vec<(String, char)>), Error>)
        ensures
            r is Ok <==> translit_table(content@) is Some,
            r matches Ok(v) ==> str_pairs_view::<()>(v.0@) == latin_table_of(translit_table(content@)->0)
                && rev_pairs_view(v.1@) == cyrillic_table_of(translit_table(content@)->0),
            r matches Err(e) ==> e is Json,
    {
        let members = match parse_members(content) {
            Err(message) => {
                let elements = match parse_elements(content) {
                    Err(_) => {
                        return Err(Error::Json { resource: "transliteration.json".to_string(), message });
                    },
                    Ok(elements) => elements,
                };
                if elements.len() != 1 {
                    return Err(
                        Error::Json {
                            resource: "transliteration.json".to_string(),
                            message: "expected an array of one element".to_string(),
                        },
                    );
                }
                let section = match parse_string_map(elements[0].as_str()) {
                    Err(message) => {
                        return Err(Error::Json { resource: "transliteration.json".to_string(), message });
                    },
                    Ok(section) => section,
                };
                assert(elements@.map_values(|s: String| s@)[0] == elements@[0]@);
                assert(translit_table(content@) == Some(pairs_view(section@)));
                return Ok(Self::transliteration_tables_from(&section));
            },
            Ok(members) => members,
        };
        let key: Vec<char> = vec!['c', 'y', 'r', 'i', 'l', 'l', 'i', 'c', '_', 't', 'o', '_', 'l', 'a', 't', 'i', 'n'];
        proof {
            reveal_strlit("cyrillic_to_latin");
            assert(key@ =~= "cyrillic_to_latin"@);
        }
        let key_s = from_chars(key.as_slice());
        let idx = match last_with_key(&members, key_s.as_str()) {
            None => {
                return Err(
                    Error::Json {
                        resource: "transliteration.json".to_string(),
                        message: "missing field `cyrillic_to_latin`".to_string(),
                    },
                );
            },
            Some(idx) => idx,
        };
        let section = match parse_string_map(members[idx].1.as_str()) {
            Err(message) => {
                return Err(Error::Json { resource: "transliteration.json".to_string(), message });
            },
            Ok(section) => section,
        };
        assert(translit_table(content@) == Some(pairs_view(section@)));
        Ok(Self::transliteration_tables_from(&section))
    }

    /// The transliteration tables of a parsed `cyrillic_to_latin` object:
    /// the first character of each key to its value, and back.
    pub fn transliteration_tables_from(section: &Vec<(String, String)>) -> (r: (Vec<(char, String)>, Vec<(String, char)>))
        ensures
            str_pairs_view::<()>(r.0@) == latin_table_of(pairs_view(section@)),
            rev_pairs_view(r.1@) == cyrillic_table_of(pairs_view(section@)),
    {
        let ghost sv = pairs_view(section@);
        let mut to_latin: Vec<(char, String)> = Vec::new();
        let mut to_cyr: Vec<(String, char)> = Vec::new();
        let mut j: usize = 0;
        while j < section.len()
            invariant
                j <= section@.len(),
                sv == pairs_view(section@),
                str_pairs_view::<()>(to_latin@) == latin_table_of(sv.take(j as int)),
                rev_pairs_view(to_cyr@) == cyrillic_table_of(sv.take(j as int)),
            decreases section@.len() - j,
        {
            proof {
                assert(sv.take(j + 1).drop_last() =~= sv.take(j as int));
                assert(sv.take(j + 1).last() == (section@[j as int].0@, section@[j as int].1@));
            }
            let k = to_chars(section[j].0.as_str());
            if k.len() > 0 {
                let v = section[j].1.clone();
                to_latin.push((k[0], v.clone()));
                to_cyr.push((v, k[0]));
            }
            j += 1;
            assert(str_pairs_view::<()>(to_latin@) =~= latin_table_of(sv.take(j as int)));
            assert(rev_pairs_view(to_cyr@) =~= cyrillic_table_of(sv.take(j as int)));
        }
        assert(sv.take(section@.len() as int) =~= sv);
        (to_latin, to_cyr)
    }

    /// Load the three tables from their JSON texts.
    ///
    /// Tables are replaced in order (unicode mappings, homoglyphs, then the
    /// transliteration table when transliteration is on); a parse failure
    /// stops there, with [`Error::Json`] naming the table.
    pub fn load_from_str(
        &mut self,
        unicode_mappings_json: &str,
        homoglyphs_json: &str,
        transliteration_json: &str,
    ) -> (r: Result<(), Error>)
        ensures
            final(self).flags() == old(self).flags(),
            r is Ok <==> {
                &&& json_string_maps(unicode_mappings_json@) is Some
                &&& json_string_lists(homoglyphs_json@) is Some
                &&& old(self).flags().2 ==> translit_table(transliteration_json@) is Some
            },
            r matches Err(e) ==> e is Json,
            json_string_maps(unicode_mappings_json@) is Some ==> final(self).unicode_table()
                == unicode_table_of(json_string_maps(unicode_mappings_json@)->0),
            json_string_maps(unicode_mappings_json@) is None ==> final(self).unicode_table()
                == old(self).unicode_table(),
            json_string_maps(unicode_mappings_json@) is Some && json_string_lists(homoglyphs_json@) is Some
                ==> final(self).homoglyph_table() == homoglyph_table_of(json_string_lists(homoglyphs_json@)->0),
            !(json_string_maps(unicode_mappings_json@) is Some && json_string_lists(homoglyphs_json@) is Some)
                ==> final(self).homoglyph_table() == old(self).homoglyph_table(),
            r is Ok && old(self).flags().2 ==> {
                let sec = translit_table(transliteration_json@)->0;
                &&& final(self).latin_table() == latin_table_of(sec)
                &&& final(self).cyrillic_table() == cyrillic_table_of(sec)
            },
            !(r is Ok && old(self).flags().2) ==> final(self).latin_table() == old(self).latin_table()
                && final(self).cyrillic_table() == old(self).cyrillic_table(),
    {
        self.unicode_mappings = Self::parse_unicode_mappings(unicode_mappings_json)?;
        self.homoglyph_map = Self::parse_homoglyph_map(homoglyphs_json)?;
        if self.transliterate {
            let (c2l, l2c) = Self::parse_transliteration(transliteration_json)?;
            self.cyrillic_to_latin = c2l;
            self.latin_to_cyrillic = l2c;
        }
        Ok(())
    }

    /// Single-pass normalization: NFKC, lowercase, the unicode mappings, the
    /// character filter, and whitespace collapsed to single spaces.
    fn normalize_unicode_and_filter(&self, t: &[char], allow_underscore: bool) -> (r: Vec<char>)
        ensures
            r@ == self.normalized(t@, allow_underscore),
    {
        let input = from_chars(t);
        let nf = to_nfkc(input.as_str());
        let low = to_lowercase(nf.as_str());
        let chars = to_chars(low.as_str());
        let ghost src = chars@;
        let mut out: Vec<char> = Vec::new();
        let mut last_kept_word = false;
        let mut i: usize = 0;
        assert(src.take(0) =~= Seq::<char>::empty());
        assert(map_chars(self.unicode_table(), src.take(0)) =~= Seq::<char>::empty());
        while i < chars.len()
            invariant
                i <= src.len(),
                src == chars@,
                src == lowercase(nfkc(t@)),
                out@ == squeeze(keep_chars(map_chars(self.unicode_table(), src.take(i as int)), allow_underscore)),
                last_kept_word == {
                    let k = keep_chars(map_chars(self.unicode_table(), src.take(i as int)), allow_underscore);
                    k.len() > 0 && !char_is_whitespace(k.last())
                },
            decreases src.len() - i,
        {
            let ghost before = keep_chars(map_chars(self.unicode_table(), src.take(i as int)), allow_underscore);
            let c = chars[i];
            let m = match lookup_char(&self.unicode_mappings, c) {
                Some(m) => m,
                None => c,
            };
            let ghost mapped = map_chars(self.unicode_table(), src.take(i as int));
            proof {
                assert(map_chars(self.unicode_table(), src.take(i + 1)) =~= mapped.push(m));
                assert(mapped.push(m).drop_last() =~= mapped);
                assert(mapped.push(m).last() == m);
            }
            let keep = is_alphanumeric(m) || is_whitespace(m) || (allow_underscore && m == '_');
            if keep {
                let ws = is_whitespace(m);
                let ghost after = before.push(m);
                proof {
                    assert(after.drop_last() =~= before);
                    if after.len() >= 2 {
                        assert(after[after.len() - 2] == before.last());
                    }
                }
                if !ws {
                    if !last_kept_word && out.len() > 0 {
                        out.push(' ');
                    }
                    out.push(m);
                }
                last_kept_word = !ws;
            }
            i += 1;
        }
        assert(src.take(src.len() as int) =~= src);
        out
    }

    /// The latin spelling of `c` when it has one, else `c` itself.
    fn transliterate_char_latin(&self, c: char, out: &mut Vec<char>)
        ensures
            final(out)@ == old(out)@ + match lookup(self.latin_table(), c) {
                Some(m) => m,
                None => seq![c],
            },
    {
        match lookup_latin(&self.cyrillic_to_latin, c) {
            Some(spelling) => {
                let v = to_chars(spelling.as_str());
                let ghost start = out@;
                let mut j: usize = 0;
                while j < v.len()
                    invariant
                        j <= v@.len(),
                        out@ == start + v@.take(j as int),
                    decreases v@.len() - j,
                {
                    out.push(v[j]);
                    j += 1;
                    assert(out@ =~= start + v@.take(j as int));
                }
                assert(v@.take(v@.len() as int) =~= v@);
            },
            None => {
                out.push(c);
            },
        }
    }

    /// Every character spelled in latin where the table has a spelling.
    fn transliterate_to_latin(&self, t: &[char]) -> (r: Vec<char>)
        ensures
            r@ == to_latin(self.latin_table(), t@),
    {
        let mut out: Vec<char> = Vec::new();
        let mut i: usize = 0;
        assert(t@.take(0) =~= Seq::<char>::empty());
        while i < t.len()
            invariant
                i <= t@.len(),
                out@ == to_latin(self.latin_table(), t@.take(i as int)),
            decreases t@.len() - i,
        {
            self.transliterate_char_latin(t[i], &mut out);
            proof {
                assert(t@.take(i + 1).drop_last() =~= t@.take(i as int));
            }
            i += 1;
        }
        assert(t@.take(t@.len() as int) =~= t@);
        out
    }

    /// The longest chunk at `i`, four characters down to one, that has a
    /// cyrillic letter.
    fn best_chunk_at(&self, t: &[char], i: usize) -> (r: Option<(usize, char)>)
        requires
            i < t@.len(),
        ensures
            r matches Some((n, c)) ==> best_chunk(self.cyrillic_table(), t@, i as int, 4) == Some((n as int, c)),
            r is None ==> best_chunk(self.cyrillic_table(), t@, i as int, 4) is None,
            r matches Some((n, c)) ==> 1 <= n <= 4 && i + n <= t@.len(),
    {
        let mut len: usize = 4;
        while len > 0
            invariant
                len <= 4,
                i < t@.len(),
                best_chunk(self.cyrillic_table(), t@, i as int, 4) == best_chunk(self.cyrillic_table(), t@, i as int, len as int),
            decreases len,
        {
            if len <= t.len() - i {
                let mut chunk: Vec<char> = Vec::new();
                let mut k: usize = i;
                let stop = i + len;
                while k < stop
                    invariant
                        stop == i + len,
                        i <= k <= i + len <= t@.len(),
                        chunk@ == t@.subrange(i as int, k as int),
                    decreases i + len - k,
                {
                    chunk.push(t[k]);
                    k += 1;
                    assert(chunk@ =~= t@.subrange(i as int, k as int));
                }
                if let Some(c) = lookup_cyrillic(&self.latin_to_cyrillic, chunk.as_slice()) {
                    return Some((len, c));
                }
            }
            len -= 1;
        }
        None
    }

    /// Greedy longest-match transliteration to cyrillic.
    fn transliterate_to_cyrillic(&self, t: &[char]) -> (r: Vec<char>)
        ensures
            r@ == to_cyrillic_from(self.cyrillic_table(), t@, 0),
    {
        let mut out: Vec<char> = Vec::new();
        let mut i: usize = 0;
        while i < t.len()
            invariant
                i <= t@.len(),
                to_cyrillic_from(self.cyrillic_table(), t@, 0) == out@ + to_cyrillic_from(self.cyrillic_table(), t@, i as int),
            decreases t@.len() - i,
        {
            let ghost before = out@;
            match self.best_chunk_at(t, i) {
                Some((n, c)) => {
                    out.push(c);
                    assert(before + to_cyrillic_from(self.cyrillic_table(), t@, i as int) =~= out@ + to_cyrillic_from(
                        self.cyrillic_table(),
                        t@,
                        i + n,
                    ));
                    i += n;
                },
                None => {
                    out.push(t[i]);
                    assert(before + to_cyrillic_from(self.cyrillic_table(), t@, i as int) =~= out@ + to_cyrillic_from(
                        self.cyrillic_table(),
                        t@,
                        i + 1,
                    ));
                    i += 1;
                },
            }
        }
        assert(out@ + Seq::<char>::empty() =~= out@);
        out
    }

    /// Every character replaced by its standard form where it is a homoglyph.
    fn replace_homoglyphs(&self, t: &[char]) -> (r: Vec<char>)
        ensures
            r@ == map_chars(self.homoglyph_table(), t@),
    {
        let mut out: Vec<char> = Vec::new();
        let mut i: usize = 0;
        while i < t.len()
            invariant
                i <= t@.len(),
                out@ == map_chars(self.homoglyph_table(), t@.take(i as int)),
            decreases t@.len() - i,
        {
            let c = t[i];
            let m = match lookup_char(&self.homoglyph_map, c) {
                Some(m) => m,
                None => c,
            };
            out.push(m);
            i += 1;
            assert(out@ =~= map_chars(self.homoglyph_table(), t@.take(i as int)));
        }
        assert(t@.take(t@.len() as int) =~= t@);
        out
    }

    /// Whether the text holds a character of the Cyrillic block.
    fn contains_cyrillic(t: &[char]) -> (b: bool)
        ensures
            b == has_cyrillic(t@),
    {
        let mut i: usize = 0;
        while i < t.len()
            invariant
                i <= t@.len(),
                forall|k: int| 0 <= k < i ==> !('\u{0400}' <= #[trigger] t@[k] && t@[k] <= '\u{04FF}'),
            decreases t@.len() - i,
        {
            if '\u{0400}' <= t[i] && t[i] <= '\u{04FF}' {
                return true;
            }
            i += 1;
        }
        false
    }

    /// What the matcher sees of `t`: normalization, transliteration and
    /// homoglyph folding, each when switched on.
    pub fn process_chars(&self, t: &[char]) -> (r: Vec<char>)
        ensures
            r@ == self.process(t@),
    {
        let mut txt: Vec<char> = if self.normalize_text || self.aggressive_normalize {
            let allow_underscore = self.normalize_text && !self.aggressive_normalize;
            self.normalize_unicode_and_filter(t, allow_underscore)
        } else {
            let mut v: Vec<char> = Vec::new();
            let mut i: usize = 0;
            while i < t.len()
                invariant
                    i <= t@.len(),
                    v@ == t@.take(i as int),
                decreases t@.len() - i,
            {
                v.push(t[i]);
                i += 1;
                assert(v@ =~= t@.take(i as int));
            }
            assert(t@.take(t@.len() as int) =~= t@);
            v
        };
        if self.transliterate {
            if Self::contains_cyrillic(txt.as_slice()) {
                txt = self.transliterate_to_latin(txt.as_slice());
            }
            txt = self.transliterate_to_cyrillic(txt.as_slice());
        }
        if self.replace_homoglyphs {
            txt = self.replace_homoglyphs(txt.as_slice());
        }
        txt
    }

    /// The normalized form of a text, as the matcher sees it.
    pub fn process_text(&self, text: &str) -> (r: String)
        ensures
            r@ == self.process(text@),
    {
        let t = to_chars(text);
        let v = self.process_chars(t.as_slice());
        from_chars(v.as_slice())
    }
}

/// Latin-to-cyrillic transliteration takes the longest chunk: a chunk of up
/// to `n` characters at `i` is chosen only when it is a key of the table and
/// no longer chunk up to `n` is; when none is chosen, no chunk is a key.
pub proof fn law_best_chunk_is_longest(l: Seq<(Seq<char>, char)>, s: Seq<char>, i: int, n: int)
    requires
        0 <= i,
    ensures
        best_chunk(l, s, i, n) matches Some((k, c)) ==> {
            &&& 1 <= k <= n
            &&& i + k <= s.len()
            &&& lookup(l, s.subrange(i, i + k)) == Some(c)
            &&& forall|j: int| k < j <= n && i + j <= s.len() ==> lookup(l, #[trigger] s.subrange(i, i + j)) is None
        },
        best_chunk(l, s, i, n) is None ==> forall|j: int| 1 <= j <= n && i + j <= s.len() ==> lookup(
            l,
            #[trigger] s.subrange(i, i + j),
        ) is None,
    decreases n,
{
    if n > 0 {
        law_best_chunk_is_longest(l, s, i, n - 1);
    }
}

/// Latin-to-cyrillic transliteration reads the text greedily, chunks of up
/// to four characters: at each position the longest chunk that is a key of
/// the table becomes its cyrillic letter, and a character that starts no
/// key stays as it is.
pub proof fn law_to_cyrillic_is_greedy(l: Seq<(Seq<char>, char)>, s: Seq<char>, i: int)
    requires
        0 <= i < s.len(),
    ensures
        (forall|j: int| 1 <= j <= 4 && i + j <= s.len() ==> lookup(l, #[trigger] s.subrange(i, i + j)) is None)
            ==> to_cyrillic_from(l, s, i) == seq![s[i]] + to_cyrillic_from(l, s, i + 1),
        forall|k: int|
            1 <= k <= 4 && i + k <= s.len() && #[trigger] lookup(l, s.subrange(i, i + k)) is Some && (forall|j: int|
                k < j <= 4 && i + j <= s.len() ==> lookup(l, #[trigger] s.subrange(i, i + j)) is None)
                ==> to_cyrillic_from(l, s, i) == seq![lookup(l, s.subrange(i, i + k))->0] + to_cyrillic_from(l, s, i + k),
{
    law_best_chunk_is_longest(l, s, i, 4);
    assert forall|k: int|
        1 <= k <= 4 && i + k <= s.len() && #[trigger] lookup(l, s.subrange(i, i + k)) is Some && (forall|j: int|
            k < j <= 4 && i + j <= s.len() ==> lookup(l, #[trigger] s.subrange(i, i + j)) is None)
        implies to_cyrillic_from(l, s, i) == seq![lookup(l, s.subrange(i, i + k))->0] + to_cyrillic_from(l, s, i + k) by {
        assert(best_chunk(l, s, i, 4) is Some);
        let (k2, c) = best_chunk(l, s, i, 4)->0;
        if k2 < k {
            assert(lookup(l, s.subrange(i, i + k)) is None);
        }
        if k < k2 {
            assert(lookup(l, s.subrange(i, i + k2)) is None);
        }
    }
}

} // verus!
