//! The filter: construction, language and dictionary management, matching.
use vstd::prelude::*;
use crate::dict::{insert_spec, live_count_of, lookup_in, remove_spec, Dictionary, CUSTOM_LANG_BIT};
use crate::error::{Error, LanguageWarning, WarningModel};
use crate::lang::{kept_languages, lemma_kept_languages_present, lemma_live_aliases_point_at, live_aliases, LanguageRegistry};
use crate::matcher::{
    find_in_text, find_spec, first_spec, hit_ok, matches_ok, phrase_hit_fits, reports, reports_all, search, sorted_disjoint, Hit, Match,
    Scratch,
};
use crate::options::{default_options_spec, Options, Processing};
use crate::processor::{
    cyrillic_table_of, homoglyph_table_of, json_string_lists, json_string_maps, latin_table_of, translit_table,
    unicode_table_of, TextProcessor,
};
use crate::resources::{file_name_of, lemma_file_name_stem, lemma_word_list_of_key, stem_of, txt_suffix, word_list_spec, ResourceSource};
use crate::dict::{codes_mask, drop_langs, name_index};
use crate::lang::{contains_string, normalize_code_spec};
use crate::wordlist::{nonempty_trimmed, split_lines, text_lines, word_lines, word_lines_exec};
use crate::text::{byte_offset, char_is_whitespace, is_whitespace, push_char, strings_view, to_chars};

verus! {

/// A profanity filter.
///
/// Build one with [`ProfanityFilter::builder`], load languages, then match.
#[derive(Debug)]
pub struct ProfanityFilter {
    pub(crate) source: ResourceSource,
    pub(crate) processor: TextProcessor,
    pub(crate) processing: Processing,
    pub(crate) langs: Offered,
    pub(crate) loaded: Vec<String>,
    pub(crate) dict: Dictionary,
    pub(crate) warnings: Vec<LanguageWarning>,
    pub(crate) default_options: Options,
    /// Legacy `get_all_languages` reports available languages until `init` runs.
    pub(crate) initialized: bool,
}

/// The language registry of a filter, with the canonical codes it offers.
#[derive(Debug)]
pub(crate) struct Offered {
    pub(crate) registry: LanguageRegistry,
    pub(crate) available: Vec<String>,
}

impl Offered {
    /// What is offered is exactly the registry's canonical codes.
    #[verifier::type_invariant]
    spec fn offers_registry_codes(&self) -> bool {
        strings_view(self.available@) == self.registry.codes()
    }
}

/// The characters of every string slice.
pub open spec fn strs_view(v: Seq<&str>) -> Seq<Seq<char>> {
    v.map_values(|s: &str| s@)
}

/// Entries after adding `words` as custom words, in order.
pub open spec fn add_words_spec(p: TextProcessor, e: Seq<(Seq<char>, Seq<char>, u64)>, words: Seq<Seq<char>>) -> Seq<
    (Seq<char>, Seq<char>, u64),
>
    decreases words.len(),
{
    if words.len() == 0 {
        e
    } else {
        insert_spec(
            add_words_spec(p, e, words.drop_last()),
            p.process(words.last()),
            words.last(),
            CUSTOM_LANG_BIT,
        )
    }
}

/// Entries after removing `words`, in order.
pub open spec fn remove_words_spec(p: TextProcessor, e: Seq<(Seq<char>, Seq<char>, u64)>, words: Seq<Seq<char>>) -> Seq<
    (Seq<char>, Seq<char>, u64),
>
    decreases words.len(),
{
    if words.len() == 0 {
        e
    } else {
        remove_spec(remove_words_spec(p, e, words.drop_last()), p.process(words.last()))
    }
}

/// The normalized, non-empty forms of `words`.
pub open spec fn forms_of(p: TextProcessor, words: Seq<Seq<char>>) -> Set<Seq<char>> {
    Set::new(|f: Seq<char>| f.len() > 0 && exists|i: int| 0 <= i < words.len() && p.process(#[trigger] words[i]) == f)
}

/// Whether byte offset `o` falls inside a match.
pub open spec fn covered(ms: Seq<Match>, o: int) -> bool {
    exists|k: int| 0 <= k < ms.len() && (#[trigger] ms[k]).start <= o < ms[k].end
}

/// A character after censoring: whitespace survives, anything else inside a
/// match becomes `c`.
pub open spec fn censor_char(x: char, inside: bool, c: char) -> char {
    if inside && !char_is_whitespace(x) {
        c
    } else {
        x
    }
}

/// Whether character index `i` falls inside a hit.
pub open spec fn in_hits(hs: Seq<Hit>, i: int) -> bool {
    exists|k: int| 0 <= k < hs.len() && (#[trigger] hs[k]).start <= i < hs[k].end
}

/// `t` with every non-whitespace character inside a hit replaced by `c`.
pub open spec fn censored(t: Seq<char>, hs: Seq<Hit>, c: char) -> Seq<char> {
    Seq::new(t.len(), |i: int| censor_char(t[i], in_hits(hs, i), c))
}

/// The text up to the `k`-th hit with hits replaced by `outs`.
pub open spec fn splice_upto(t: Seq<char>, hs: Seq<Hit>, outs: Seq<Seq<char>>, k: int) -> Seq<char>
    decreases k,
{
    if k <= 0 {
        seq![]
    } else {
        splice_upto(t, hs, outs, k - 1) + t.subrange(
            if k == 1 {
                0
            } else {
                hs[k - 2].end as int
            },
            hs[k - 1].start as int,
        ) + outs[k - 1]
    }
}

/// The text with the `k`-th hit replaced by `outs[k]`.
pub open spec fn spliced(t: Seq<char>, hs: Seq<Hit>, outs: Seq<Seq<char>>) -> Seq<char> {
    splice_upto(t, hs, outs, hs.len() as int) + t.subrange(
        if hs.len() == 0 {
            0
        } else {
            hs.last().end as int
        },
        t.len() as int,
    )
}

proof fn lemma_splice_upto_prefix(t: Seq<char>, hs: Seq<Hit>, outs: Seq<Seq<char>>, x: Seq<char>, k: int)
    requires
        k <= outs.len(),
    ensures
        splice_upto(t, hs, outs.push(x), k) == splice_upto(t, hs, outs, k),
    decreases k,
{
    if k > 0 {
        lemma_splice_upto_prefix(t, hs, outs, x, k - 1);
        assert(outs.push(x)[k - 1] == outs[k - 1]);
    }
}

/// Whether a source's registry keeps at least one language, one whose word
/// list the source holds.
pub open spec fn keeps_registry(source: ResourceSource) -> bool {
    match source {
        ResourceSource::InMemory { languages: Some(reg), .. } => kept_languages(reg.infos(), word_files(source.words())).len() > 0,
        ResourceSource::InMemory { languages: None, .. } => false,
    }
}

/// The languages of a source's registry whose word list the source holds.
pub open spec fn kept_of(source: ResourceSource) -> Seq<(Seq<char>, Seq<char>, Seq<char>)> {
    kept_languages(source->languages->0.infos(), word_files(source.words()))
}

/// The codes of languages given as `(code, name, file)`.
pub open spec fn info_codes(infos: Seq<(Seq<char>, Seq<char>, Seq<char>)>) -> Seq<Seq<char>> {
    infos.map_values(|i: (Seq<char>, Seq<char>, Seq<char>)| i.0)
}

/// Whether some word list of `words` has `c` as the stem of its file name.
pub open spec fn stem_offered(words: Seq<(Seq<char>, Seq<char>)>, c: Seq<char>) -> bool {
    exists|k: int| 0 <= k < words.len() && stem_of(file_name_of(words[k].0)) == c
}

/// Whether a filter built from `source` offers the canonical code `c`: a
/// kept language of its registry, or else the stem of one of its word lists.
pub open spec fn offers_code(source: ResourceSource, c: Seq<char>) -> bool {
    if keeps_registry(source) {
        info_codes(kept_of(source)).contains(c)
    } else {
        stem_offered(source.words(), c)
    }
}

/// The aliases of a filter built from `source`: those of its registry that
/// point at a kept language.
pub open spec fn source_aliases(source: ResourceSource) -> Seq<(Seq<char>, Seq<char>, Option<Seq<char>>)> {
    if keeps_registry(source) {
        live_aliases(source->languages->0.alias_table(), info_codes(kept_of(source)))
    } else {
        seq![]
    }
}

/// Whether a caller-supplied code names a language of a filter built from
/// `source`: once normalized, a canonical code or an alias.
pub open spec fn source_resolves(source: ResourceSource, code: Seq<char>) -> bool {
    let key = normalize_code_spec(code);
    ||| offers_code(source, key)
    ||| exists|k: int| 0 <= k < source_aliases(source).len() && source_aliases(source)[k].0 == key
}

/// The registry a filter gets from `source` offers exactly the source's
/// codes and aliases, and every language in it has its word list.
pub(crate) proof fn lemma_source_registry(source: ResourceSource, reg: LanguageRegistry)
    requires
        keeps_registry(source) ==> reg.infos() == kept_of(source) && reg.alias_table() == live_aliases(
            source->languages->0.alias_table(),
            reg.codes(),
        ),
        !keeps_registry(source) ==> {
            &&& forall|c: Seq<char>| #[trigger] reg.codes().contains(c) <==> stem_offered(source.words(), c)
            &&& forall|k: int| 0 <= k < reg.infos().len() ==> (#[trigger] reg.infos()[k]).2 == reg.infos()[k].0
                + txt_suffix()
            &&& reg.alias_table().len() == 0
        },
    ensures
        forall|c: Seq<char>| #[trigger] reg.codes().contains(c) <==> offers_code(source, c),
        reg.alias_table() == source_aliases(source),
        forall|c: Seq<char>| #[trigger] reg.codes().contains(c) ==> reg.info_of(c) is Some && word_list_spec(
            source.words(),
            (reg.info_of(c)->0).2,
        ) is Some,
        forall|k: int| 0 <= k < reg.alias_table().len() ==> reg.codes().contains(#[trigger] reg.alias_table()[k].1),
{
    reg.lemma_codes_are_info_codes();
    assert(reg.codes() =~= info_codes(reg.infos()));
    let words = source.words();
    if keeps_registry(source) {
        lemma_live_aliases_point_at(source->languages->0.alias_table(), reg.codes());
        lemma_kept_languages_present(source->languages->0.infos(), word_files(words));
    } else {
        assert(reg.alias_table() =~= source_aliases(source));
    }
    assert forall|c: Seq<char>| #[trigger] reg.codes().contains(c) implies reg.info_of(c) is Some && word_list_spec(
        words,
        (reg.info_of(c)->0).2,
    ) is Some by {
        let j = choose|j: int| 0 <= j < reg.codes().len() && reg.codes()[j] == c;
        assert(reg.infos()[j].0 == c);
        let info = reg.info_of(c)->0;
        let i = choose|i: int| 0 <= i < reg.infos().len() && #[trigger] reg.infos()[i].0 == c;
        assert(info == reg.infos()[i]);
        if keeps_registry(source) {
            assert(word_files(words).contains(info.2));
            let k = choose|k: int| 0 <= k < word_files(words).len() && word_files(words)[k] == info.2;
            assert(file_name_of(words[k].0) == info.2);
            lemma_word_list_of_key(words, k);
        } else {
            assert(reg.codes().contains(c));
            let k = choose|k: int| 0 <= k < words.len() && stem_of(file_name_of(words[k].0)) == c;
            lemma_file_name_stem(words[k].0);
            assert(info.2 == file_name_of(words[k].0));
            lemma_word_list_of_key(words, k);
        }
    }
}

/// Whether the languages a builder asks for all name languages of `source`:
/// every language it offers when all are asked for, else each requested
/// code.
pub open spec fn requested_resolve(source: ResourceSource, all: bool, languages: Option<Seq<Seq<char>>>) -> bool {
    if all {
        forall|c: Seq<char>| #[trigger] offers_code(source, c) ==> source_resolves(source, c)
    } else {
        match languages {
            Some(codes) => forall|k: int| 0 <= k < codes.len() ==> source_resolves(source, #[trigger] codes[k]),
            None => true,
        }
    }
}

/// A code resolves in the registry of a filter built from `source` exactly
/// when it names one of the source's languages.
proof fn lemma_resolves_source(source: ResourceSource, reg: LanguageRegistry)
    requires
        forall|c: Seq<char>| #[trigger] reg.codes().contains(c) <==> offers_code(source, c),
        reg.alias_table() == source_aliases(source),
    ensures
        forall|code: Seq<char>| #[trigger] resolves(reg, code) is Some <==> source_resolves(source, code),
{
    assert forall|code: Seq<char>| #[trigger] resolves(reg, code) is Some <==> source_resolves(source, code) by {
        let key = normalize_code_spec(code);
        if exists|k: int| 0 <= k < source_aliases(source).len() && source_aliases(source)[k].0 == key {
            let k = choose|k: int| 0 <= k < source_aliases(source).len() && source_aliases(source)[k].0 == key;
            assert(reg.alias_table()[k].0 == key);
        }
    }
}

/// What every code resolves to is one of the registry's codes, and so is
/// every code of the list loading goes through.
proof fn lemma_canonicals_offered(reg: LanguageRegistry, codes: Seq<Seq<char>>)
    requires
        all_resolve(reg, codes),
        forall|k: int| 0 <= k < reg.alias_table().len() ==> reg.codes().contains(#[trigger] reg.alias_table()[k].1),
    ensures
        forall|k: int| 0 <= k < dedup_adjacent(canonicals(reg, codes)).len() ==> reg.codes().contains(
            #[trigger] dedup_adjacent(canonicals(reg, codes))[k],
        ),
{
    let cs = canonicals(reg, codes);
    assert forall|k: int| 0 <= k < cs.len() implies reg.codes().contains(#[trigger] cs[k]) by {
        assert(resolves(reg, codes[k]) is Some);
        let key = normalize_code_spec(codes[k]);
        if !reg.codes().contains(key) {
            let k0 = choose|k0: int| 0 <= k0 < reg.alias_table().len() && #[trigger] reg.alias_table()[k0].0 == key;
            reg.lemma_alias_index_found(key, k0);
            let a = reg.alias_index(key)->0;
            assert(reg.codes().contains(reg.alias_table()[a].1));
        }
    }
    lemma_dedup_within(cs);
    assert forall|k: int| 0 <= k < dedup_adjacent(cs).len() implies reg.codes().contains(
        #[trigger] dedup_adjacent(cs)[k],
    ) by {
        let j = choose|j: int| 0 <= j < cs.len() && cs[j] == dedup_adjacent(cs)[k];
    }
}

/// Every code left after dropping adjacent repeats was in the list.
proof fn lemma_dedup_within(s: Seq<Seq<char>>)
    ensures
        forall|k: int| 0 <= k < dedup_adjacent(s).len() ==> s.contains(#[trigger] dedup_adjacent(s)[k]),
    decreases s.len(),
{
    if s.len() >= 2 {
        lemma_dedup_within(s.drop_last());
        let prev = dedup_adjacent(s.drop_last());
        let all = dedup_adjacent(s);
        assert forall|k: int| 0 <= k < all.len() implies s.contains(#[trigger] all[k]) by {
            if k < prev.len() {
                assert(all[k] == prev[k]);
                let j = choose|j: int| 0 <= j < s.drop_last().len() && s.drop_last()[j] == prev[k];
                assert(s[j] == prev[k]);
            } else {
                assert(all[k] == s.last());
                assert(s[s.len() - 1] == s.last());
            }
        }
    } else {
        assert forall|k: int| 0 <= k < dedup_adjacent(s).len() implies s.contains(#[trigger] dedup_adjacent(s)[k]) by {
            assert(s[k] == dedup_adjacent(s)[k]);
        }
    }
}

/// Loading codes of the registry, each with its word list, never fails.
proof fn lemma_load_codes_clean(
    reg: LanguageRegistry,
    words: Seq<(Seq<char>, Seq<char>)>,
    p: TextProcessor,
    codes: Seq<Seq<char>>,
)
    requires
        forall|k: int| 0 <= k < codes.len() ==> reg.codes().contains(#[trigger] codes[k]),
        forall|c: Seq<char>| #[trigger] reg.codes().contains(c) ==> reg.info_of(c) is Some && word_list_spec(
            words,
            (reg.info_of(c)->0).2,
        ) is Some,
    ensures
        forall|st: LoadState| (#[trigger] load_codes_spec(reg, words, p, st, codes)).1 is None,
    decreases codes.len(),
{
    if codes.len() > 0 {
        lemma_load_codes_clean(reg, words, p, codes.drop_last());
        assert(reg.codes().contains(codes[codes.len() - 1]));
        assert forall|st: LoadState| (#[trigger] load_codes_spec(reg, words, p, st, codes)).1 is None by {
            assert(load_codes_spec(reg, words, p, st, codes.drop_last()).1 is None);
        }
    }
}

/// What a builder asks for resolves exactly when the codes it loads all
/// resolve in the registry built from its source.
pub(crate) proof fn lemma_requested(
    source: ResourceSource,
    reg: LanguageRegistry,
    all: bool,
    languages: Option<Seq<Seq<char>>>,
    codes: Seq<Seq<char>>,
)
    requires
        forall|c: Seq<char>| #[trigger] reg.codes().contains(c) <==> offers_code(source, c),
        reg.alias_table() == source_aliases(source),
        all ==> codes == reg.codes(),
        !all && languages is Some ==> codes == languages->0,
    ensures
        (all || languages is Some) ==> (requested_resolve(source, all, languages) <==> all_resolve(reg, codes)),
        !all && languages is None ==> requested_resolve(source, all, languages),
{
    lemma_resolves_source(source, reg);
    if all {
        if all_resolve(reg, codes) {
            assert forall|c: Seq<char>| #[trigger] offers_code(source, c) implies source_resolves(source, c) by {
                assert(reg.codes().contains(c));
                let k = choose|k: int| 0 <= k < codes.len() && codes[k] == c;
                assert(resolves(reg, codes[k]) is Some);
            }
        }
        if requested_resolve(source, all, languages) {
            assert forall|k: int| 0 <= k < codes.len() implies resolves(reg, #[trigger] codes[k]) is Some by {
                assert(reg.codes().contains(codes[k]));
                assert(offers_code(source, codes[k]));
            }
        }
    } else if languages is Some {
        if all_resolve(reg, codes) {
            assert forall|k: int| 0 <= k < codes.len() implies source_resolves(source, #[trigger] codes[k]) by {
                assert(resolves(reg, codes[k]) is Some);
            }
        }
        if requested_resolve(source, all, languages) {
            assert forall|k: int| 0 <= k < codes.len() implies resolves(reg, #[trigger] codes[k]) is Some by {
                assert(source_resolves(source, codes[k]));
            }
        }
    }
}

/// Loading the codes that all resolve never fails, when every language of
/// the registry has its word list.
pub(crate) proof fn lemma_load_resolved(reg: LanguageRegistry, words: Seq<(Seq<char>, Seq<char>)>, p: TextProcessor, codes: Seq<Seq<char>>)
    requires
        all_resolve(reg, codes),
        forall|k: int| 0 <= k < reg.alias_table().len() ==> reg.codes().contains(#[trigger] reg.alias_table()[k].1),
        forall|c: Seq<char>| #[trigger] reg.codes().contains(c) ==> reg.info_of(c) is Some && word_list_spec(
            words,
            (reg.info_of(c)->0).2,
        ) is Some,
    ensures
        forall|st: LoadState| (#[trigger] load_codes_spec(reg, words, p, st, dedup_adjacent(canonicals(reg, codes)))).1 is None,
{
    lemma_canonicals_offered(reg, codes);
    lemma_load_codes_clean(reg, words, p, dedup_adjacent(canonicals(reg, codes)));
}

/// The characters of every string of an optional list.
pub open spec fn strings_opt(v: Option<Vec<String>>) -> Option<Seq<Seq<char>>> {
    match v {
        Some(v) => Some(strings_view(v@)),
        None => None,
    }
}

/// Whether the tables of a source load.
pub open spec fn tables_load(tables: (Seq<char>, Seq<char>, Seq<char>), transliterate: bool) -> bool {
    &&& json_string_maps(tables.0) is Some
    &&& json_string_lists(tables.1) is Some
    &&& transliterate ==> translit_table(tables.2) is Some
}

/// The file names of a source's word lists.
pub open spec fn word_files(words: Seq<(Seq<char>, Seq<char>)>) -> Seq<Seq<char>> {
    words.map_values(|p: (Seq<char>, Seq<char>)| file_name_of(p.0))
}

/// Censoring keeps the number of characters, and every character outside
/// the matches.
pub proof fn law_censor_keeps_the_rest(t: Seq<char>, hs: Seq<Hit>, c: char)
    ensures
        censored(t, hs, c).len() == t.len(),
        forall|i: int| 0 <= i < t.len() && !in_hits(hs, i) ==> #[trigger] censored(t, hs, c)[i] == t[i],
        forall|i: int| 0 <= i < t.len() && in_hits(hs, i) ==> #[trigger] censored(t, hs, c)[i] == if char_is_whitespace(
            t[i],
        ) {
            t[i]
        } else {
            c
        },
{
}

/// Whether every non-empty form occurs at most once.
pub open spec fn forms_unique(e: Seq<(Seq<char>, Seq<char>, u64)>) -> bool {
    forall|a: int, b: int| 0 <= a < b < e.len() && e[a].0.len() > 0 ==> #[trigger] e[a].0 != #[trigger] e[b].0
}

/// The entry each non-empty form finds.
pub open spec fn same_lookups(r: Seq<(Seq<char>, Seq<char>, u64)>, e: Seq<(Seq<char>, Seq<char>, u64)>) -> bool {
    forall|g: Seq<char>| #![trigger lookup_in(r, g)] #![trigger lookup_in(e, g)] g.len() > 0 ==> {
        &&& (lookup_in(r, g) is Some <==> lookup_in(e, g) is Some)
        &&& lookup_in(e, g) is Some ==> r[lookup_in(r, g)->0] == e[lookup_in(e, g)->0]
    }
}

/// Adding a word and then removing it again leaves every lookup and the
/// number of words as they were,
/// unless the word was already one of the custom words or an entry that no
/// language provides.
pub proof fn law_add_then_remove_restores(p: TextProcessor, e: Seq<(Seq<char>, Seq<char>, u64)>, w: Seq<char>)
    requires
        forms_unique(e),
        lookup_in(e, p.process(w)) matches Some(i) ==> e[i].2 & CUSTOM_LANG_BIT == 0 && e[i].2 != 0,
    ensures
        same_lookups(remove_words_spec(p, add_words_spec(p, e, seq![w]), seq![w]), e),
        live_count_of(remove_words_spec(p, add_words_spec(p, e, seq![w]), seq![w])) == live_count_of(e),
{
    let form = p.process(w);
    assert(seq![w].drop_last() =~= Seq::<Seq<char>>::empty());
    assert(seq![w].last() == w);
    reveal_with_fuel(add_words_spec, 2);
    reveal_with_fuel(remove_words_spec, 2);
    let e1 = insert_spec(e, form, w, CUSTOM_LANG_BIT);
    assert(add_words_spec(p, e, seq![w]) == e1);
    let r = remove_spec(e1, form);
    assert(remove_words_spec(p, e1, seq![w]) == r);
    if form.len() == 0 {
        assert(r == e);
    } else {
        match lookup_in(e, form) {
            None => {
                let n = e.len() as int;
                assert(e1 == e.push((form, w, CUSTOM_LANG_BIT)));
                assert(e1[n].0 == form);
                assert(lookup_in(e1, form) == Some(n)) by {
                    let k = choose|k: int| 0 <= k < e1.len() && #[trigger] e1[k].0 == form;
                    if k < n {
                        assert(e[k].0 == form);
                    }
                }
                assert(CUSTOM_LANG_BIT & !CUSTOM_LANG_BIT == 0) by (bit_vector);
                assert(r =~= e.push((seq![], w, 0u64)));
                assert(r.drop_last() =~= e);
                assert forall|g: Seq<char>| g.len() > 0 implies {
                    &&& (#[trigger] lookup_in(r, g) is Some <==> lookup_in(e, g) is Some)
                    &&& lookup_in(e, g) is Some ==> r[lookup_in(r, g)->0] == e[lookup_in(e, g)->0]
                } by {
                    if lookup_in(e, g) is Some {
                        let j = lookup_in(e, g)->0;
                        assert(r[j].0 == g);
                        let k = lookup_in(r, g)->0;
                        assert(k < n);
                        assert(e[k].0 == g);
                        if k < j {
                            assert(e[k].0 != e[j].0);
                        } else if j < k {
                            assert(e[j].0 != e[k].0);
                        }
                    } else {
                        if lookup_in(r, g) is Some {
                            let k = choose|k: int| 0 <= k < r.len() && #[trigger] r[k].0 == g;
                            assert(k < n);
                            assert(e[k].0 == g);
                        }
                    }
                }
            },
            Some(i) => {
                let b = e[i].2;
                assert(e1 == e.update(i, (form, e[i].1, b | CUSTOM_LANG_BIT)));
                assert(lookup_in(e1, form) == Some(i)) by {
                    let k = choose|k: int| 0 <= k < e1.len() && #[trigger] e1[k].0 == form;
                    if k != i {
                        assert(e[k].0 == form);
                        if k < i {
                            assert(e[k].0 != e[i].0);
                        } else {
                            assert(e[i].0 != e[k].0);
                        }
                    }
                }
                assert((b | CUSTOM_LANG_BIT) & !CUSTOM_LANG_BIT == b && b != 0) by (bit_vector)
                    requires
                        b & CUSTOM_LANG_BIT == 0,
                        b != 0,
                ;
                assert(r =~= e);
            },
        }
    }
}

/// Removing a word that a language also provides keeps it in the
/// dictionary; removing a word only added by hand drops it.
pub proof fn law_remove_keeps_language_words(e: Seq<(Seq<char>, Seq<char>, u64)>, form: Seq<char>)
    requires
        lookup_in(e, form) is Some,
        forall|a: int, b: int| 0 <= a < b < e.len() && e[a].0.len() > 0 ==> #[trigger] e[a].0 != #[trigger] e[b].0,
    ensures
        e[lookup_in(e, form)->0].2 & !CUSTOM_LANG_BIT != 0 ==> lookup_in(remove_spec(e, form), form) is Some,
        e[lookup_in(e, form)->0].2 & !CUSTOM_LANG_BIT == 0 ==> lookup_in(remove_spec(e, form), form) is None,
{
    let i = lookup_in(e, form)->0;
    let r = remove_spec(e, form);
    if e[i].2 & !CUSTOM_LANG_BIT != 0 {
        assert(r[i].0 == form);
    } else {
        if lookup_in(r, form) is Some {
            let j = choose|j: int| 0 <= j < r.len() && #[trigger] r[j].0 == form;
            assert(j != i);
            assert(r[j] == e[j]);
            if j < i {
                assert(e[j].0 != e[i].0);
            } else {
                assert(e[i].0 != e[j].0);
            }
        }
    }
}

/// Which characters the matches cover: a character lies inside a hit
/// exactly when its byte offset lies inside the match reporting that hit.
/// With `censor`'s contract this says that censoring replaces exactly the
/// non-whitespace characters whose offset some reported match covers.
pub proof fn law_covered_by_byte_offsets(d: Dictionary, t: Seq<char>, hs: Seq<Hit>, ms: Seq<Match>, i: int)
    requires
        reports_all(d, t, hs, ms),
        forall|k: int| 0 <= k < hs.len() ==> (#[trigger] hs[k]).start <= hs[k].end <= t.len(),
        0 <= i < t.len(),
    ensures
        in_hits(hs, i) <==> exists|k: int| 0 <= k < ms.len() && (#[trigger] ms[k]).start <= byte_offset(t, i) < ms[k].end,
{
    if in_hits(hs, i) {
        let k = choose|k: int| 0 <= k < hs.len() && (#[trigger] hs[k]).start <= i < hs[k].end;
        assert(reports(d, t, hs[k], ms[k]));
        lemma_byte_offset_mono(t, hs[k].start as int, i);
        lemma_byte_offset_strict(t, i, hs[k].end as int);
    }
    if exists|k: int| 0 <= k < ms.len() && (#[trigger] ms[k]).start <= byte_offset(t, i) < ms[k].end {
        let k = choose|k: int| 0 <= k < ms.len() && (#[trigger] ms[k]).start <= byte_offset(t, i) < ms[k].end;
        assert(reports(d, t, hs[k], ms[k]));
        if i < hs[k].start {
            lemma_byte_offset_strict(t, i, hs[k].start as int);
        }
        if hs[k].end <= i {
            lemma_byte_offset_mono(t, hs[k].end as int, i);
        }
        assert(hs[k].start <= i < hs[k].end);
    }
}

proof fn lemma_byte_offset_strict(t: Seq<char>, i: int, j: int)
    requires
        0 <= i < j <= t.len(),
    ensures
        byte_offset(t, i) < byte_offset(t, j),
{
    crate::text::lemma_byte_len_take_mono(t, i, j - 1);
    assert(t.take(j).drop_last() =~= t.take(j - 1));
    crate::text::lemma_width_bounds(t[j - 1]);
}

proof fn lemma_byte_offset_mono(t: Seq<char>, i: int, j: int)
    requires
        0 <= i <= j <= t.len(),
    ensures
        byte_offset(t, i) <= byte_offset(t, j),
{
    crate::text::lemma_byte_len_take_mono(t, i, j);
}

/// A char index lies in a hit exactly when its byte offset lies in the
/// match reporting it.
proof fn lemma_covered(d: Dictionary, t: Seq<char>, hs: Seq<Hit>, ms: Seq<Match>, i: int)
    requires
        reports_all(d, t, hs, ms),
        forall|k: int| 0 <= k < hs.len() ==> (#[trigger] hs[k]).start <= hs[k].end <= t.len(),
        0 <= i < t.len(),
    ensures
        covered(ms, byte_offset(t, i) as int) == in_hits(hs, i),
{
    if in_hits(hs, i) {
        let k = choose|k: int| 0 <= k < hs.len() && (#[trigger] hs[k]).start <= i < hs[k].end;
        assert(reports(d, t, hs[k], ms[k]));
        lemma_byte_offset_mono(t, hs[k].start as int, i);
        lemma_byte_offset_strict(t, i, hs[k].end as int);
    }
    if covered(ms, byte_offset(t, i) as int) {
        let k = choose|k: int| 0 <= k < ms.len() && (#[trigger] ms[k]).start <= byte_offset(t, i) < ms[k].end;
        assert(reports(d, t, hs[k], ms[k]));
        if i < hs[k].start {
            lemma_byte_offset_strict(t, i, hs[k].start as int);
        }
        if i >= hs[k].end {
            lemma_byte_offset_mono(t, hs[k].end as int, i);
        }
    }
}

/// Why loading a language stopped.
#[derive(Debug, Clone, Copy, PartialEq, Eq)]
pub enum LoadFailure {
    /// The code is not a canonical code of the registry.
    UnknownLanguage,
    /// The source has no word list for the language.
    MissingWordList,
}

/// What loading languages works on: the loaded codes, the dictionary's
/// entries and language names, and the warnings.
pub struct LoadState {
    pub loaded: Seq<Seq<char>>,
    pub entries: Seq<(Seq<char>, Seq<char>, u64)>,
    pub names: Seq<Seq<char>>,
    pub warnings: Seq<WarningModel>,
}

/// The bit of language `c` and the language names after allocating it: an
/// existing name keeps its bit, a new one takes the next of 63, and none is
/// left (bit 0) once they are taken.
pub open spec fn lang_bit_spec(names: Seq<Seq<char>>, c: Seq<char>) -> (u64, Seq<Seq<char>>) {
    match name_index(names, c) {
        Some(k) => (1u64 << (k as u64), names),
        None => if names.len() >= 63 {
            (0u64, names)
        } else {
            (1u64 << (names.len() as u64), names.push(c))
        },
    }
}

/// Entries after inserting every line of a word list under `mask`.
pub open spec fn insert_lines(p: TextProcessor, e: Seq<(Seq<char>, Seq<char>, u64)>, lines: Seq<Seq<char>>, mask: u64) -> Seq<
    (Seq<char>, Seq<char>, u64),
>
    decreases lines.len(),
{
    if lines.len() == 0 {
        e
    } else {
        insert_spec(insert_lines(p, e, lines.drop_last(), mask), p.process(lines.last()), lines.last(), mask)
    }
}

/// Whether some line normalizes to something.
pub open spec fn has_form(p: TextProcessor, lines: Seq<Seq<char>>) -> bool {
    exists|i: int| 0 <= i < lines.len() && p.process(#[trigger] lines[i]).len() > 0
}

/// Loading one canonical code: a code already loaded only warns; else its
/// word list is read through the registry, every line inserted under the
/// language's bit, and an empty list warned about.
pub open spec fn load_one_spec(
    reg: LanguageRegistry,
    words: Seq<(Seq<char>, Seq<char>)>,
    p: TextProcessor,
    st: LoadState,
    c: Seq<char>,
) -> (LoadState, Option<LoadFailure>) {
    if st.loaded.contains(c) {
        (LoadState { warnings: st.warnings.push(WarningModel::AlreadyLoaded(c)), ..st }, None)
    } else {
        match reg.info_of(c) {
            None => (st, Some(LoadFailure::UnknownLanguage)),
            Some(info) => match word_list_spec(words, info.2) {
                None => (st, Some(LoadFailure::MissingWordList)),
                Some(content) => {
                    let (bit, names) = lang_bit_spec(st.names, c);
                    let lines = word_lines(content);
                    (
                        LoadState {
                            loaded: st.loaded.push(c),
                            entries: insert_lines(p, st.entries, lines, bit),
                            names,
                            warnings: if has_form(p, lines) {
                                st.warnings
                            } else {
                                st.warnings.push(WarningModel::EmptyWordList(c))
                            },
                        },
                        None,
                    )
                },
            },
        }
    }
}

/// Loading codes in order, stopping at the first failure.
pub open spec fn load_codes_spec(
    reg: LanguageRegistry,
    words: Seq<(Seq<char>, Seq<char>)>,
    p: TextProcessor,
    st: LoadState,
    codes: Seq<Seq<char>>,
) -> (LoadState, Option<LoadFailure>)
    decreases codes.len(),
{
    if codes.len() == 0 {
        (st, None)
    } else {
        let (s, f) = load_codes_spec(reg, words, p, st, codes.drop_last());
        if f is Some {
            (s, f)
        } else {
            load_one_spec(reg, words, p, s, codes.last())
        }
    }
}

/// What the registry resolves a caller-supplied code to.
pub open spec fn resolves(reg: LanguageRegistry, code: Seq<char>) -> Option<(Seq<char>, Option<Seq<char>>)> {
    reg.resolve_spec(normalize_code_spec(code))
}

/// Whether every code resolves.
pub open spec fn all_resolve(reg: LanguageRegistry, codes: Seq<Seq<char>>) -> bool {
    forall|k: int| 0 <= k < codes.len() ==> resolves(reg, #[trigger] codes[k]) is Some
}

/// Whether `k` is the first code that does not resolve.
pub open spec fn first_unresolved(reg: LanguageRegistry, codes: Seq<Seq<char>>, k: int) -> bool {
    &&& 0 <= k < codes.len()
    &&& resolves(reg, codes[k]) is None
    &&& forall|j: int| 0 <= j < k ==> resolves(reg, #[trigger] codes[j]) is Some
}

/// The canonical codes the codes resolve to.
pub open spec fn canonicals(reg: LanguageRegistry, codes: Seq<Seq<char>>) -> Seq<Seq<char>> {
    codes.map_values(|c: Seq<char>| (resolves(reg, c)->0).0)
}

/// A warning for each deprecated alias among the codes, in order.
pub open spec fn deprecations(reg: LanguageRegistry, codes: Seq<Seq<char>>) -> Seq<WarningModel>
    decreases codes.len(),
{
    if codes.len() == 0 {
        seq![]
    } else {
        let prev = deprecations(reg, codes.drop_last());
        match resolves(reg, codes.last()) {
            Some((canonical, Some(note))) => prev.push(WarningModel::DeprecatedAlias(codes.last(), canonical, note)),
            _ => prev,
        }
    }
}

/// `s` with each run of equal neighbours kept once (`Vec::dedup`).
pub open spec fn dedup_adjacent(s: Seq<Seq<char>>) -> Seq<Seq<char>>
    decreases s.len(),
{
    if s.len() < 2 {
        s
    } else if s.last() == s[s.len() - 2] {
        dedup_adjacent(s.drop_last())
    } else {
        dedup_adjacent(s.drop_last()).push(s.last())
    }
}

/// The codes of `s` that are not among `gone`, in order.
pub open spec fn without(s: Seq<Seq<char>>, gone: Seq<Seq<char>>) -> Seq<Seq<char>>
    decreases s.len(),
{
    if s.len() == 0 {
        seq![]
    } else if gone.contains(s.last()) {
        without(s.drop_last(), gone)
    } else {
        without(s.drop_last(), gone).push(s.last())
    }
}

/// What replacing the loaded languages of `f` with `codes` gives, when
/// every code resolves: the state and why loading stopped, if it did.
pub open spec fn reload_outcome(f: ProfanityFilter, codes: Seq<Seq<char>>) -> (LoadState, Option<LoadFailure>) {
    let reg = f.registry_view();
    load_codes_spec(
        reg,
        f.source_words(),
        f.processor_view(),
        LoadState {
            loaded: seq![],
            entries: seq![],
            names: f.dict_view().languages(),
            warnings: f.warnings_view() + deprecations(reg, codes),
        },
        dedup_adjacent(canonicals(reg, codes)),
    )
}

proof fn lemma_load_codes_stops(
    reg: LanguageRegistry,
    words: Seq<(Seq<char>, Seq<char>)>,
    p: TextProcessor,
    st: LoadState,
    codes: Seq<Seq<char>>,
    i: int,
)
    requires
        0 <= i <= codes.len(),
        load_codes_spec(reg, words, p, st, codes.take(i)).1 is Some,
    ensures
        load_codes_spec(reg, words, p, st, codes) == load_codes_spec(reg, words, p, st, codes.take(i)),
    decreases codes.len() - i,
{
    if i < codes.len() {
        assert(codes.take(i + 1).drop_last() =~= codes.take(i));
        lemma_load_codes_stops(reg, words, p, st, codes, i + 1);
    } else {
        assert(codes.take(i) =~= codes);
    }
}

impl ProfanityFilter {
    /// The dictionary.
    pub closed spec fn dict_view(&self) -> Dictionary {
        self.dict
    }

    /// The text processor.
    pub closed spec fn processor_view(&self) -> TextProcessor {
        self.processor
    }

    /// The processing options the filter was built with.
    pub closed spec fn processing_view(&self) -> Processing {
        self.processing
    }

    /// The language registry.
    pub closed spec fn registry_view(&self) -> LanguageRegistry {
        self.langs.registry
    }

    /// Languages the filter could load.
    pub closed spec fn available(&self) -> Seq<Seq<char>> {
        strings_view(self.langs.available@)
    }

    /// Languages loaded, in load order.
    pub closed spec fn loaded(&self) -> Seq<Seq<char>> {
        strings_view(self.loaded@)
    }

    /// Warnings collected so far, newest last.
    pub closed spec fn warnings_view(&self) -> Seq<WarningModel> {
        self.warnings@.map_values(|w: LanguageWarning| w.model())
    }

    /// Options of the deprecated 2.x entry points.
    pub closed spec fn default_options_view(&self) -> Options {
        self.default_options
    }

    /// Whether languages were loaded through the loading entry points.
    pub closed spec fn initialized_view(&self) -> bool {
        self.initialized
    }

    /// The word lists the filter reads from.
    pub closed spec fn source_words(&self) -> Seq<(Seq<char>, Seq<char>)> {
        self.source.words()
    }

    /// What the dictionary holds, for matching: everything but the
    /// language list and the source stays as it was.
    pub open spec fn same_except_dict(&self, other: &Self) -> bool {
        &&& self.processor_view() == other.processor_view()
        &&& self.processing_view() == other.processing_view()
        &&& self.registry_view() == other.registry_view()
        &&& self.available() == other.available()
        &&& self.source_words() == other.source_words()
        &&& self.default_options_view() == other.default_options_view()
    }

    // -- construction ---------------------------------------------------------

    /// Build from an explicit resource source.
    ///
    /// The normalization tables are parsed first ([`Error::Json`] when one is
    /// malformed). The registry keeps the languages whose word list the source
    /// has; without a registry, or when it keeps none, every word list is a
    /// language of its own, named by its file stem. Nothing is loaded yet.
    pub fn from_source(source: ResourceSource, processing: Processing) -> (r: Result<Self, Error>)
        ensures
            r is Ok <==> tables_load(source.tables(), processing.transliterate),
            r matches Err(e) ==> e is Json,
            r matches Ok(f) ==> {
                let (u, h, tr) = source.tables();
                &&& f.processing_view() == processing
                &&& f.processor_view().flags() == (
                    processing.normalize_text,
                    processing.aggressive_normalize,
                    processing.transliterate,
                    processing.replace_homoglyphs,
                )
                &&& f.processor_view().unicode_table() == unicode_table_of(json_string_maps(u)->0)
                &&& f.processor_view().homoglyph_table() == homoglyph_table_of(json_string_lists(h)->0)
                &&& processing.transliterate ==> f.processor_view().latin_table() == latin_table_of(
                    translit_table(tr)->0,
                ) && f.processor_view().cyrillic_table() == cyrillic_table_of(
                    translit_table(tr)->0,
                )
                &&& !processing.transliterate ==> f.processor_view().latin_table().len() == 0
                    && f.processor_view().cyrillic_table().len() == 0
                &&& f.source_words() == source.words()
                &&& f.available() == f.registry_view().codes()
                &&& f.loaded().len() == 0
                &&& f.warnings_view().len() == 0
                &&& f.dict_view().entries().len() == 0
                &&& f.dict_view().languages().len() == 0
                &&& f.dict_view().whitelist_set() == Set::<Seq<char>>::empty()
                &&& f.default_options_view() == default_options_spec()
                &&& !f.initialized_view()
                &&& (match source {
                    ResourceSource::InMemory { languages: Some(reg), .. } => kept_languages(
                        reg.infos(),
                        word_files(source.words()),
                    ).len() > 0,
                    ResourceSource::InMemory { languages: None, .. } => false,
                }) ==> {
                    let reg = source->languages->0;
                    &&& f.registry_view().infos() == kept_languages(reg.infos(), word_files(source.words()))
                    &&& f.registry_view().alias_table() == live_aliases(reg.alias_table(), f.registry_view().codes())
                }
                &&& !(match source {
                    ResourceSource::InMemory { languages: Some(reg), .. } => kept_languages(
                        reg.infos(),
                        word_files(source.words()),
                    ).len() > 0,
                    ResourceSource::InMemory { languages: None, .. } => false,
                }) ==> {
                    &&& forall|c: Seq<char>| #[trigger] f.registry_view().codes().contains(c) <==> exists|k: int|
                        0 <= k < source.words().len() && stem_of(file_name_of(source.words()[k].0)) == c
                    &&& forall|k: int| 0 <= k < f.registry_view().infos().len() ==> (#[trigger] f.registry_view().infos()[k]).1
                        == f.registry_view().infos()[k].0 && f.registry_view().infos()[k].2 == f.registry_view().infos()[k].0
                        + crate::resources::txt_suffix()
                    &&& f.registry_view().alias_table().len() == 0
                }
                &&& forall|c: Seq<char>| #[trigger] f.registry_view().codes().contains(c) <==> offers_code(source, c)
                &&& f.registry_view().alias_table() == source_aliases(source)
                &&& forall|c: Seq<char>| #[trigger] f.registry_view().codes().contains(c) ==> f.registry_view().info_of(c) is Some
                    && word_list_spec(source.words(), (f.registry_view().info_of(c)->0).2) is Some
            },
    {
        let mut processor = TextProcessor::new(
            processing.normalize_text,
            processing.aggressive_normalize,
            processing.transliterate,
            processing.replace_homoglyphs,
        );
        let ghost tables = source.tables();
        match &source {
            ResourceSource::InMemory { unicode_mappings, homoglyphs, transliteration, .. } => {
                processor.load_from_str(unicode_mappings.as_str(), homoglyphs.as_str(), transliteration.as_str())?;
            },
        }
        let files = source.word_list_files();
        let ghost wf = word_files(source.words());
        proof {
            assert forall|x: Seq<char>| #[trigger] strings_view(files@).contains(x) <==> wf.contains(x) by {
                if wf.contains(x) {
                    let k = choose|k: int| 0 <= k < wf.len() && wf[k] == x;
                    assert(file_name_of(source.words()[k].0) == x);
                }
                if strings_view(files@).contains(x) {
                    let k = choose|k: int| 0 <= k < source.words().len() && file_name_of(source.words()[k].0) == x;
                    assert(wf[k] == x);
                }
            }
        }
        let (mut registry, from_reg) = match &source {
            ResourceSource::InMemory { languages: Some(reg), .. } => {
                let mut r = reg.duplicate();
                r.retain_files(files.as_slice());
                proof {
                    crate::lang::lemma_kept_languages_same_contains(reg.infos(), strings_view(files@), wf);
                }
                (r, true)
            },
            ResourceSource::InMemory { languages: None, .. } => (LanguageRegistry::empty(), false),
        };
        if registry.is_empty() {
            let mut stems: Vec<String> = Vec::new();
            let mut i: usize = 0;
            while i < files.len()
                invariant
                    i <= files@.len(),
                    forall|x: Seq<char>| #[trigger] strings_view(files@).contains(x) <==> wf.contains(x),
                    wf == word_files(source.words()),
                    forall|c: Seq<char>| #[trigger] strings_view(stems@).contains(c) <==> exists|k: int| 0 <= k < i
                        && stem_of(strings_view(files@)[k]) == c,
                decreases files@.len() - i,
            {
                let stem = crate::resources::strip_txt(files[i].as_str());
                let ghost before = strings_view(stems@);
                stems.push(stem);
                proof {
                    assert forall|c: Seq<char>| #[trigger] strings_view(stems@).contains(c) <==> exists|k: int| 0 <= k < i + 1
                        && stem_of(strings_view(files@)[k]) == c by {
                        crate::lang::lemma_push_contains(before, stem_of(strings_view(files@)[i as int]), c);
                        assert(strings_view(stems@) =~= before.push(stem_of(strings_view(files@)[i as int])));
                        if exists|k: int| 0 <= k < i + 1 && stem_of(strings_view(files@)[k]) == c {
                            let k = choose|k: int| 0 <= k < i + 1 && stem_of(strings_view(files@)[k]) == c;
                            if k < i {
                                assert(before.contains(c));
                            }
                        }
                    }
                }
                i += 1;
            }
            proof {
                assert forall|c: Seq<char>| #[trigger] strings_view(stems@).contains(c) <==> (exists|k: int|
                    0 <= k < source.words().len() && stem_of(file_name_of(source.words()[k].0)) == c) by {
                    if exists|k: int| 0 <= k < files@.len() && stem_of(strings_view(files@)[k]) == c {
                        let k = choose|k: int| 0 <= k < files@.len() && stem_of(strings_view(files@)[k]) == c;
                        assert(strings_view(files@).contains(strings_view(files@)[k]));
                        assert(wf.contains(strings_view(files@)[k]));
                        let j = choose|j: int| 0 <= j < wf.len() && wf[j] == strings_view(files@)[k];
                        assert(stem_of(file_name_of(source.words()[j].0)) == c);
                    }
                    if exists|k: int| 0 <= k < source.words().len() && stem_of(file_name_of(source.words()[k].0)) == c {
                        let k = choose|k: int| 0 <= k < source.words().len() && stem_of(file_name_of(source.words()[k].0)) == c;
                        assert(wf[k] == file_name_of(source.words()[k].0));
                        assert(wf.contains(wf[k]));
                        assert(strings_view(files@).contains(wf[k]));
                        let j = choose|j: int| 0 <= j < strings_view(files@).len() && strings_view(files@)[j] == wf[k];
                        assert(stem_of(strings_view(files@)[j]) == c);
                    }
                }
            }
            registry = LanguageRegistry::from_codes(stems);
        }
        let available = registry.canonical_codes();
        let f = ProfanityFilter {
            source,
            processor,
            processing,
            langs: Offered { registry, available },
            loaded: Vec::new(),
            dict: Dictionary::new(),
            warnings: Vec::new(),
            default_options: Options::default(),
            initialized: false,
        };
        assert(f.loaded() =~= Seq::<Seq<char>>::empty());
        assert(f.warnings_view() =~= Seq::<WarningModel>::empty());
        proof {
            lemma_source_registry(f.source, f.registry_view());
        }
        Ok(f)
    }

    /// A filter with no resources at all: empty tables, no languages, no
    /// words. What the infallible legacy constructor falls back to.
    pub fn empty(processing: Processing) -> (f: Self)
        ensures
            f.processing_view() == processing,
            f.processor_view().flags() == (
                processing.normalize_text,
                processing.aggressive_normalize,
                processing.transliterate,
                processing.replace_homoglyphs,
            ),
            f.processor_view().unicode_table().len() == 0,
            f.processor_view().homoglyph_table().len() == 0,
            f.processor_view().latin_table().len() == 0,
            f.registry_view().codes().len() == 0,
            f.available().len() == 0,
            f.loaded().len() == 0,
            f.dict_view().entries().len() == 0,
            f.dict_view().whitelist_set() == Set::<Seq<char>>::empty(),
            f.warnings_view().len() == 0,
            f.default_options_view() == default_options_spec(),
            !f.initialized_view(),
            f.source_words().len() == 0,
    {
        let registry = LanguageRegistry::empty();
        let available: Vec<String> = Vec::new();
        assert(strings_view(available@) =~= registry.codes());
        let f = ProfanityFilter {
            source: ResourceSource::InMemory {
                unicode_mappings: "{}".to_string(),
                homoglyphs: "{}".to_string(),
                transliteration: "{\"cyrillic_to_latin\":{}}".to_string(),
                languages: None,
                words: Vec::new(),
            },
            processor: TextProcessor::new(
                processing.normalize_text,
                processing.aggressive_normalize,
                processing.transliterate,
                processing.replace_homoglyphs,
            ),
            processing,
            langs: Offered { registry, available },
            loaded: Vec::new(),
            dict: Dictionary::new(),
            warnings: Vec::new(),
            default_options: Options::default(),
            initialized: false,
        };
        proof {
            assert(f.source_words() =~= Seq::<(Seq<char>, Seq<char>)>::empty());
        }
        f
    }

    /// The configuration every operation but construction leaves alone.
    pub open spec fn same_config(&self, other: &Self) -> bool {
        &&& self.processor_view() == other.processor_view()
        &&& self.processing_view() == other.processing_view()
        &&& self.registry_view() == other.registry_view()
        &&& self.available() == other.available()
        &&& self.source_words() == other.source_words()
        &&& self.default_options_view() == other.default_options_view()
    }

    /// Everything but the dictionary's entries stays as it was.
    pub open spec fn only_entries_changed(&self, other: &Self) -> bool {
        &&& self.same_config(other)
        &&& self.loaded() == other.loaded()
        &&& self.warnings_view() == other.warnings_view()
        &&& self.initialized_view() == other.initialized_view()
        &&& self.dict_view().languages() == other.dict_view().languages()
        &&& self.dict_view().whitelist_set() == other.dict_view().whitelist_set()
    }

    /// Everything but the whitelist stays as it was.
    pub open spec fn only_whitelist_changed(&self, other: &Self) -> bool {
        &&& self.same_config(other)
        &&& self.loaded() == other.loaded()
        &&& self.warnings_view() == other.warnings_view()
        &&& self.initialized_view() == other.initialized_view()
        &&& self.dict_view().languages() == other.dict_view().languages()
        &&& self.dict_view().entries() == other.dict_view().entries()
    }

    // -- languages ------------------------------------------------------------

    /// Every language this filter could load. Never changes after construction.
    pub fn available_languages(&self) -> (r: &[String])
        ensures
            strings_view(r@) == self.available(),
            self.available() == self.registry_view().codes(),
    {
        proof {
            use_type_invariant(&self.langs);
        }
        self.langs.available.as_slice()
    }

    /// Languages whose word lists are loaded, as canonical codes.
    pub fn loaded_languages(&self) -> (r: &[String])
        ensures
            strings_view(r@) == self.loaded(),
    {
        self.loaded.as_slice()
    }

    /// The language registry, for code and alias lookups.
    pub fn registry(&self) -> (r: &LanguageRegistry)
        ensures
            *r == self.registry_view(),
    {
        &self.langs.registry
    }

    /// Non-fatal diagnostics collected so far, newest last.
    pub fn warnings(&self) -> (r: &[LanguageWarning])
        ensures
            r@.map_values(|w: LanguageWarning| w.model()) == self.warnings_view(),
    {
        self.warnings.as_slice()
    }

    /// Whether languages were loaded through the loading entry points.
    pub(crate) fn is_initialized(&self) -> (b: bool)
        ensures
            b == self.initialized_view(),
    {
        self.initialized
    }

    /// Clear collected warnings.
    pub fn clear_warnings(&mut self)
        ensures
            final(self).warnings_view().len() == 0,
            final(self).same_config(&*old(self)),
            final(self).loaded() == old(self).loaded(),
            final(self).dict_view() == old(self).dict_view(),
            final(self).initialized_view() == old(self).initialized_view(),
    {
        self.warnings = Vec::new();
        assert(self.warnings_view() =~= Seq::<WarningModel>::empty());
    }

    /// Resolve a code or alias to its canonical form.
    pub fn resolve_language(&self, code: &str) -> (r: Result<&str, Error>)
        ensures
            match r {
                Ok(c) => self.registry_view().resolve_spec(crate::lang::normalize_code_spec(code@)) matches Some(x)
                    && x.0 == c@,
                Err(e) => self.registry_view().resolve_spec(crate::lang::normalize_code_spec(code@)) is None && (
                e matches Error::UnknownLanguage { code: c, available } && c@ == code@ && strings_view(available@)
                    == self.registry_view().codes()),
            },
    {
        match self.langs.registry.resolve(code) {
            Ok(res) => Ok(res.canonical),
            Err(e) => Err(e),
        }
    }

    /// The state language loading works on.
    pub open spec fn load_state(&self) -> LoadState {
        LoadState {
            loaded: self.loaded(),
            entries: self.dict_view().entries(),
            names: self.dict_view().languages(),
            warnings: self.warnings_view(),
        }
    }

    fn push_warning(&mut self, w: LanguageWarning)
        ensures
            final(self).warnings_view() == old(self).warnings_view().push(w.model()),
            final(self).same_config(&*old(self)),
            final(self).loaded() == old(self).loaded(),
            final(self).dict_view() == old(self).dict_view(),
            final(self).initialized_view() == old(self).initialized_view(),
    {
        self.warnings.push(w);
        assert(self.warnings_view() =~= old(self).warnings_view().push(w.model()));
    }

    /// Resolve codes to canonical ones, keeping deprecation warnings; the
    /// first unknown code is an error, and nothing is recorded then.
    fn resolve_all(&mut self, codes: &[&str]) -> (r: Result<Vec<String>, Error>)
        ensures
            final(self).same_config(&*old(self)),
            final(self).loaded() == old(self).loaded(),
            final(self).dict_view() == old(self).dict_view(),
            final(self).initialized_view() == old(self).initialized_view(),
            r is Ok <==> all_resolve(old(self).registry_view(), strs_view(codes@)),
            r matches Ok(v) ==> {
                &&& strings_view(v@) == dedup_adjacent(canonicals(old(self).registry_view(), strs_view(codes@)))
                &&& final(self).warnings_view() == old(self).warnings_view() + deprecations(
                    old(self).registry_view(),
                    strs_view(codes@),
                )
            },
            r matches Err(e) ==> final(self).warnings_view() == old(self).warnings_view() && (e matches Error::UnknownLanguage {
                code,
                available,
            } && strings_view(available@) == old(self).registry_view().codes() && exists|k: int|
                first_unresolved(old(self).registry_view(), strs_view(codes@), k) && code@ == codes@[k]@),
    {
        let (resolved, mut warnings) = match resolve_codes(&self.langs.registry, codes) {
            Ok(x) => x,
            Err(e) => {
                assert(self.warnings_view() == old(self).warnings_view());
                assert(e matches Error::UnknownLanguage { code, available } && strings_view(available@) == old(
                    self,
                ).registry_view().codes());
                return Err(e);
            },
        };
        let ghost wold = self.warnings_view();
        let ghost wadd = warnings@.map_values(|w: LanguageWarning| w.model());
        self.warnings.append(&mut warnings);
        assert(self.warnings_view() =~= wold + wadd);
        Ok(dedup_strings(resolved))
    }

    /// Load one canonical code.
    fn load_one(&mut self, canonical: &str) -> (r: Result<(), Error>)
        ensures
            final(self).same_config(&*old(self)),
            final(self).initialized_view() == old(self).initialized_view(),
            final(self).dict_view().whitelist_set() == old(self).dict_view().whitelist_set(),
            final(self).load_state() == load_one_spec(
                old(self).registry_view(),
                old(self).source_words(),
                old(self).processor_view(),
                old(self).load_state(),
                canonical@,
            ).0,
            r is Ok <==> load_one_spec(
                old(self).registry_view(),
                old(self).source_words(),
                old(self).processor_view(),
                old(self).load_state(),
                canonical@,
            ).1 is None,
            load_one_spec(
                old(self).registry_view(),
                old(self).source_words(),
                old(self).processor_view(),
                old(self).load_state(),
                canonical@,
            ).1 == Some(LoadFailure::MissingWordList) ==> (r matches Err(Error::MissingResource { .. })),
            load_one_spec(
                old(self).registry_view(),
                old(self).source_words(),
                old(self).processor_view(),
                old(self).load_state(),
                canonical@,
            ).1 == Some(LoadFailure::UnknownLanguage) ==> r matches Err(Error::UnknownLanguage { .. }),
    {
        let ghost st = self.load_state();
        if contains_string(self.loaded.as_slice(), canonical) {
            self.push_warning(LanguageWarning::AlreadyLoaded { code: canonical.to_string() });
            return Ok(());
        }
        let file = match self.langs.registry.info(canonical) {
            Some(info) => info.file.clone(),
            None => {
                return Err(Error::UnknownLanguage { code: canonical.to_string(), available: copy_strings(&self.langs.available) });
            },
        };
        let content = match self.source.word_list(file.as_str()) {
            Some(c) => c.to_string(),
            None => {
                return Err(Error::MissingResource { what: "word list".to_string() });
            },
        };
        let bit = self.dict.language_bit(canonical);
        let lines = word_lines_exec(content.as_str());
        let ghost lv = strings_view(lines@);
        let ghost p = self.processor_view();
        let ghost e0 = self.dict_view().entries();
        let mut any = false;
        let mut i: usize = 0;
        while i < lines.len()
            invariant
                i <= lines@.len(),
                lv == strings_view(lines@),
                p == self.processor_view(),
                self.same_config(&*old(self)),
                self.loaded() == old(self).loaded(),
                self.warnings_view() == old(self).warnings_view(),
                self.initialized_view() == old(self).initialized_view(),
                self.dict_view().whitelist_set() == old(self).dict_view().whitelist_set(),
                self.dict_view().languages() == lang_bit_spec(st.names, canonical@).1,
                self.dict_view().entries() == insert_lines(p, e0, lv.take(i as int), bit),
                any == has_form(p, lv.take(i as int)),
            decreases lines@.len() - i,
        {
            proof {
                assert(lv.take(i + 1).drop_last() =~= lv.take(i as int));
                assert(lv.take(i + 1).last() == lv[i as int]);
            }
            let form = self.processor.process_text(lines[i].as_str());
            if !form.as_str().is_empty() {
                self.dict.insert(form.as_str(), lines[i].as_str(), bit);
                any = true;
                assert(p.process(lv.take(i + 1)[i as int]).len() > 0);
            } else {
                assert(insert_spec(self.dict_view().entries(), form@, lv[i as int], bit) == self.dict_view().entries());
                proof {
                    if has_form(p, lv.take(i + 1)) {
                        let j = choose|j: int| 0 <= j < i + 1 && p.process(#[trigger] lv.take(i + 1)[j]).len() > 0;
                        assert(lv.take(i as int)[j] == lv.take(i + 1)[j]);
                    }
                }
            }
            proof {
                if any && i > 0 && has_form(p, lv.take(i as int)) {
                    let j = choose|j: int| 0 <= j < i && p.process(#[trigger] lv.take(i as int)[j]).len() > 0;
                    assert(lv.take(i + 1)[j] == lv.take(i as int)[j]);
                }
            }
            i += 1;
        }
        assert(lv.take(lines@.len() as int) =~= lv);
        if !any {
            self.push_warning(LanguageWarning::EmptyWordList { code: canonical.to_string() });
        }
        let ghost lbefore = self.loaded@;
        self.loaded.push(canonical.to_string());
        proof {
            crate::text::lemma_strings_view_push(lbefore, self.loaded@.last());
        }
        Ok(())
    }

    /// Load codes in order, stopping at the first failure.
    fn load_codes(&mut self, codes: &Vec<String>) -> (r: Result<(), Error>)
        ensures
            final(self).same_config(&*old(self)),
            final(self).initialized_view() == old(self).initialized_view(),
            final(self).dict_view().whitelist_set() == old(self).dict_view().whitelist_set(),
            final(self).load_state() == load_codes_spec(
                old(self).registry_view(),
                old(self).source_words(),
                old(self).processor_view(),
                old(self).load_state(),
                strings_view(codes@),
            ).0,
            r is Ok <==> load_codes_spec(
                old(self).registry_view(),
                old(self).source_words(),
                old(self).processor_view(),
                old(self).load_state(),
                strings_view(codes@),
            ).1 is None,
            load_codes_spec(
                old(self).registry_view(),
                old(self).source_words(),
                old(self).processor_view(),
                old(self).load_state(),
                strings_view(codes@),
            ).1 == Some(LoadFailure::MissingWordList) ==> (r matches Err(Error::MissingResource { .. })),
    {
        let ghost cv = strings_view(codes@);
        let ghost reg = self.registry_view();
        let ghost words = self.source_words();
        let ghost p = self.processor_view();
        let ghost st0 = self.load_state();
        let mut i: usize = 0;
        while i < codes.len()
            invariant
                i <= codes@.len(),
                cv == strings_view(codes@),
                self.same_config(&*old(self)),
                reg == self.registry_view(),
                words == self.source_words(),
                p == self.processor_view(),
                self.initialized_view() == old(self).initialized_view(),
                self.dict_view().whitelist_set() == old(self).dict_view().whitelist_set(),
                load_codes_spec(reg, words, p, st0, cv.take(i as int)) == (self.load_state(), None::<LoadFailure>),
                st0 == old(self).load_state(),
            decreases codes@.len() - i,
        {
            proof {
                assert(cv.take(i + 1).drop_last() =~= cv.take(i as int));
                assert(cv.take(i + 1).last() == cv[i as int]);
            }
            let ghost si = self.load_state();
            assert(load_codes_spec(reg, words, p, st0, cv.take(i + 1)) == load_one_spec(reg, words, p, si, cv[i as int]));
            let r = self.load_one(codes[i].as_str());
            match r {
                Ok(()) => {},
                Err(e) => {
                    proof {
                        assert(load_one_spec(reg, words, p, si, cv[i as int]).1 is Some);
                        assert(load_codes_spec(reg, words, p, st0, cv.take(i + 1)).1 is Some);
                        lemma_load_codes_stops(reg, words, p, st0, cv, i + 1);
                        assert(self.load_state() == load_one_spec(reg, words, p, si, cv[i as int]).0);
                        assert(load_codes_spec(reg, words, p, st0, cv).0 == self.load_state());
                    }
                    return Err(e);
                },
            }
            i += 1;
        }
        assert(cv.take(codes@.len() as int) =~= cv);
        Ok(())
    }

    /// Load languages in addition to those already loaded.
    ///
    /// Every code is resolved first; an unknown one is an
    /// [`Error::UnknownLanguage`] and nothing is loaded then. Deprecated
    /// aliases are warned about; a language already loaded only warns.
    pub fn load_languages(&mut self, codes: &[&str]) -> (r: Result<(), Error>)
        ensures
            final(self).same_config(&*old(self)),
            final(self).dict_view().whitelist_set() == old(self).dict_view().whitelist_set(),
            !all_resolve(old(self).registry_view(), strs_view(codes@)) ==> {
                &&& final(self).load_state() == old(self).load_state()
                &&& final(self).dict_view() == old(self).dict_view()
                &&& final(self).initialized_view() == old(self).initialized_view()
                &&& r matches Err(Error::UnknownLanguage { code, available }) && strings_view(available@)
                    == old(self).available() && exists|k: int|
                    first_unresolved(old(self).registry_view(), strs_view(codes@), k) && code@ == codes@[k]@
            },
            all_resolve(old(self).registry_view(), strs_view(codes@)) ==> {
                let reg = old(self).registry_view();
                let st0 = LoadState {
                    warnings: old(self).warnings_view() + deprecations(reg, strs_view(codes@)),
                    ..old(self).load_state()
                };
                let res = load_codes_spec(
                    reg,
                    old(self).source_words(),
                    old(self).processor_view(),
                    st0,
                    dedup_adjacent(canonicals(reg, strs_view(codes@))),
                );
                &&& final(self).load_state() == res.0
                &&& r is Ok <==> res.1 is None
                &&& res.1 == Some(LoadFailure::MissingWordList) ==> (r matches Err(Error::MissingResource { .. }))
                &&& final(self).initialized_view() == (old(self).initialized_view() || res.1 is None)
            },
    {
        proof {
            use_type_invariant(&self.langs);
        }
        let resolved = match self.resolve_all(codes) {
            Ok(v) => v,
            Err(e) => {
                return Err(e);
            },
        };
        assert(self.load_state() == (LoadState {
            warnings: old(self).warnings_view() + deprecations(old(self).registry_view(), strs_view(codes@)),
            ..old(self).load_state()
        }));
        self.load_codes(&resolved)?;
        self.initialized = true;
        Ok(())
    }

    /// Replace the loaded set with exactly these languages.
    ///
    /// An unknown code is an [`Error::UnknownLanguage`] and nothing changes
    /// then. The dictionary keeps its whitelist and its language bits.
    pub fn reload_languages(&mut self, codes: &[&str]) -> (r: Result<(), Error>)
        ensures
            final(self).same_config(&*old(self)),
            final(self).dict_view().whitelist_set() == old(self).dict_view().whitelist_set(),
            !all_resolve(old(self).registry_view(), strs_view(codes@)) ==> {
                &&& final(self).load_state() == old(self).load_state()
                &&& final(self).dict_view() == old(self).dict_view()
                &&& final(self).initialized_view() == old(self).initialized_view()
                &&& r matches Err(Error::UnknownLanguage { code, available }) && strings_view(available@)
                    == old(self).available() && exists|k: int|
                    first_unresolved(old(self).registry_view(), strs_view(codes@), k) && code@ == codes@[k]@
            },
            all_resolve(old(self).registry_view(), strs_view(codes@)) ==> {
                let reg = old(self).registry_view();
                let st0 = LoadState {
                    loaded: seq![],
                    entries: seq![],
                    names: old(self).dict_view().languages(),
                    warnings: old(self).warnings_view() + deprecations(reg, strs_view(codes@)),
                };
                let res = load_codes_spec(
                    reg,
                    old(self).source_words(),
                    old(self).processor_view(),
                    st0,
                    dedup_adjacent(canonicals(reg, strs_view(codes@))),
                );
                &&& final(self).load_state() == res.0
                &&& r is Ok <==> res.1 is None
                &&& res.1 == Some(LoadFailure::MissingWordList) ==> (r matches Err(Error::MissingResource { .. }))
                &&& final(self).initialized_view() == (old(self).initialized_view() || res.1 is None)
            },
    {
        proof {
            use_type_invariant(&self.langs);
        }
        let resolved = match self.resolve_all(codes) {
            Ok(v) => v,
            Err(e) => {
                return Err(e);
            },
        };
        self.dict.clear();
        self.loaded = Vec::new();
        assert(self.dict_view().entries() =~= Seq::<(Seq<char>, Seq<char>, u64)>::empty());
        assert(self.loaded() =~= Seq::<Seq<char>>::empty());
        assert(self.load_state() == (LoadState {
            loaded: seq![],
            entries: seq![],
            names: old(self).dict_view().languages(),
            warnings: old(self).warnings_view() + deprecations(old(self).registry_view(), strs_view(codes@)),
        }));
        self.load_codes(&resolved)?;
        self.initialized = true;
        Ok(())
    }

    /// Load every available language, replacing the loaded set.
    pub fn load_all_languages(&mut self) -> (r: Result<(), Error>)
        ensures
            final(self).same_config(&*old(self)),
            final(self).dict_view().whitelist_set() == old(self).dict_view().whitelist_set(),
            all_resolve(old(self).registry_view(), old(self).available()) ==> {
                let reg = old(self).registry_view();
                let st0 = LoadState {
                    loaded: seq![],
                    entries: seq![],
                    names: old(self).dict_view().languages(),
                    warnings: old(self).warnings_view() + deprecations(reg, old(self).available()),
                };
                let res = load_codes_spec(
                    reg,
                    old(self).source_words(),
                    old(self).processor_view(),
                    st0,
                    dedup_adjacent(canonicals(reg, old(self).available())),
                );
                &&& final(self).load_state() == res.0
                &&& r is Ok <==> res.1 is None
                &&& final(self).initialized_view() == (old(self).initialized_view() || res.1 is None)
            },
            !all_resolve(old(self).registry_view(), old(self).available()) ==> (r matches Err(
                Error::UnknownLanguage { .. },
            )) && final(self).load_state() == old(self).load_state() && final(self).dict_view() == old(self).dict_view(),
    {
        let all = copy_strings(&self.langs.available);
        let codes = as_strs(&all);
        self.reload_languages(codes.as_slice())
    }

    /// Unload languages, dropping the entries only they provided.
    ///
    /// An unknown code is an [`Error::UnknownLanguage`] and nothing changes
    /// then.
    pub fn unload_languages(&mut self, codes: &[&str]) -> (r: Result<(), Error>)
        ensures
            final(self).same_config(&*old(self)),
            final(self).initialized_view() == old(self).initialized_view(),
            final(self).dict_view().whitelist_set() == old(self).dict_view().whitelist_set(),
            final(self).dict_view().languages() == old(self).dict_view().languages(),
            r is Ok <==> all_resolve(old(self).registry_view(), strs_view(codes@)),
            !all_resolve(old(self).registry_view(), strs_view(codes@)) ==> final(self).load_state() == old(
                self,
            ).load_state() && final(self).dict_view() == old(self).dict_view() && (r matches Err(
                Error::UnknownLanguage { .. },
            )),
            all_resolve(old(self).registry_view(), strs_view(codes@)) ==> {
                let reg = old(self).registry_view();
                let gone = dedup_adjacent(canonicals(reg, strs_view(codes@)));
                let mask = codes_mask(old(self).dict_view().languages(), gone);
                &&& final(self).dict_view().entries() == Seq::new(
                    old(self).dict_view().entries().len(),
                    |i: int| drop_langs(old(self).dict_view().entries()[i], mask),
                )
                &&& final(self).loaded() == without(old(self).loaded(), gone)
                &&& final(self).warnings_view() == old(self).warnings_view() + deprecations(reg, strs_view(codes@))
            },
    {
        proof {
            use_type_invariant(&self.langs);
        }
        let resolved = match self.resolve_all(codes) {
            Ok(v) => v,
            Err(e) => {
                return Err(e);
            },
        };
        self.dict.remove_languages(resolved.as_slice());
        let ghost gone = strings_view(resolved@);
        let ghost lold = self.loaded();
        let mut kept: Vec<String> = Vec::new();
        let mut i: usize = 0;
        while i < self.loaded.len()
            invariant
                i <= self.loaded@.len(),
                lold == strings_view(self.loaded@),
                gone == strings_view(resolved@),
                strings_view(kept@) == without(lold.take(i as int), gone),
            decreases self.loaded@.len() - i,
        {
            proof {
                assert(lold.take(i + 1).drop_last() =~= lold.take(i as int));
                assert(lold.take(i + 1).last() == lold[i as int]);
            }
            if !contains_string(resolved.as_slice(), self.loaded[i].as_str()) {
                let ghost before = kept@;
                kept.push(self.loaded[i].clone());
                proof {
                    crate::text::lemma_strings_view_push(before, kept@.last());
                }
            }
            i += 1;
        }
        assert(lold.take(self.loaded@.len() as int) =~= lold);
        self.loaded = kept;
        Ok(())
    }

    // -- dictionary -----------------------------------------------------------

    /// Add words on top of the loaded languages.
    pub fn add_words(&mut self, words: &[&str])
        ensures
            final(self).only_entries_changed(&*old(self)),
            final(self).dict_view().entries() == add_words_spec(
                old(self).processor_view(),
                old(self).dict_view().entries(),
                strs_view(words@),
            ),
    {
        let ghost wv = strs_view(words@);
        let mut i: usize = 0;
        while i < words.len()
            invariant
                i <= words@.len(),
                wv == strs_view(words@),
                self.only_entries_changed(&*old(self)),
                self.dict_view().entries() == add_words_spec(
                    old(self).processor_view(),
                    old(self).dict_view().entries(),
                    wv.take(i as int),
                ),
            decreases words@.len() - i,
        {
            proof {
                assert(wv.take(i + 1).drop_last() =~= wv.take(i as int));
                assert(wv.take(i + 1).last() == words@[i as int]@);
            }
            let form = self.processor.process_text(words[i]);
            if !form.as_str().is_empty() {
                self.dict.insert(form.as_str(), words[i], CUSTOM_LANG_BIT);
            } else {
                assert(insert_spec(self.dict_view().entries(), form@, words@[i as int]@, CUSTOM_LANG_BIT) == self.dict_view().entries());
            }
            i += 1;
        }
        assert(wv.take(words@.len() as int) =~= wv);
    }

    /// Add every line of `text` that is not blank, trimmed, as a word: a
    /// whole word list in one call.
    pub fn add_words_from_text(&mut self, text: &str)
        ensures
            final(self).only_entries_changed(&*old(self)),
            final(self).dict_view().entries() == add_words_spec(
                old(self).processor_view(),
                old(self).dict_view().entries(),
                nonempty_trimmed(split_lines(text@)),
            ),
    {
        let lines = text_lines(text);
        let strs = as_strs(&lines);
        self.add_words(strs.as_slice());
    }

    /// Remove words. A word a loaded language also provides stays.
    pub fn remove_words(&mut self, words: &[&str])
        ensures
            final(self).only_entries_changed(&*old(self)),
            final(self).dict_view().entries() == remove_words_spec(
                old(self).processor_view(),
                old(self).dict_view().entries(),
                strs_view(words@),
            ),
    {
        let ghost wv = strs_view(words@);
        let mut i: usize = 0;
        while i < words.len()
            invariant
                i <= words@.len(),
                wv == strs_view(words@),
                self.only_entries_changed(&*old(self)),
                self.dict_view().entries() == remove_words_spec(
                    old(self).processor_view(),
                    old(self).dict_view().entries(),
                    wv.take(i as int),
                ),
            decreases words@.len() - i,
        {
            proof {
                assert(wv.take(i + 1).drop_last() =~= wv.take(i as int));
                assert(wv.take(i + 1).last() == words@[i as int]@);
            }
            let form = self.processor.process_text(words[i]);
            if !form.as_str().is_empty() {
                self.dict.remove(form.as_str());
            } else {
                assert(lookup_in(self.dict_view().entries(), form@) is None);
            }
            i += 1;
        }
        assert(wv.take(words@.len() as int) =~= wv);
    }

    /// Drop every word, including those from loaded languages.
    pub fn clear_words(&mut self)
        ensures
            final(self).same_config(&*old(self)),
            final(self).dict_view().entries().len() == 0,
            final(self).loaded().len() == 0,
            final(self).dict_view().languages() == old(self).dict_view().languages(),
            final(self).dict_view().whitelist_set() == old(self).dict_view().whitelist_set(),
            final(self).warnings_view() == old(self).warnings_view(),
            final(self).initialized_view() == old(self).initialized_view(),
    {
        self.dict.clear();
        self.loaded = Vec::new();
        assert(self.loaded() =~= Seq::<Seq<char>>::empty());
    }

    /// Number of distinct entries.
    pub fn word_count(&self) -> (n: usize)
        ensures
            n == self.dict_view().live_count(),
    {
        self.dict.len()
    }

    /// Whether a word is in the dictionary, after normalization.
    pub fn contains_word(&self, word: &str) -> (b: bool)
        ensures
            b == (self.processor_view().process(word@).len() > 0 && self.dict_view().lookup_spec(
                self.processor_view().process(word@),
            ) is Some),
    {
        let form = self.processor.process_text(word);
        !form.as_str().is_empty() && self.dict.lookup(form.as_str()).is_some()
    }

    // -- whitelist ------------------------------------------------------------

    /// Never report these words, even when a rule would match them.
    ///
    /// The whitelist is consulted per token: in substring mode whitelisting
    /// `assess` suppresses the `ass` hit inside it.
    pub fn add_whitelist(&mut self, words: &[&str])
        ensures
            final(self).only_whitelist_changed(&*old(self)),
            final(self).dict_view().whitelist_set() == old(self).dict_view().whitelist_set().union(
                forms_of(old(self).processor_view(), strs_view(words@)),
            ),
    {
        let ghost wv = strs_view(words@);
        let ghost p = self.processor_view();
        let mut i: usize = 0;
        while i < words.len()
            invariant
                i <= words@.len(),
                wv == strs_view(words@),
                p == old(self).processor_view(),
                self.only_whitelist_changed(&*old(self)),
                self.dict_view().whitelist_set() == old(self).dict_view().whitelist_set().union(
                    forms_of(p, wv.take(i as int)),
                ),
            decreases words@.len() - i,
        {
            let form = self.processor.process_text(words[i]);
            self.dict.whitelist_insert(form.as_str());
            proof {
                let before = forms_of(p, wv.take(i as int));
                let after = forms_of(p, wv.take(i + 1));
                assert forall|f: Seq<char>| #[trigger] after.contains(f) <==> before.contains(f) || (f.len() > 0 && f
                    == form@) by {
                    if after.contains(f) {
                        let j = choose|j: int| 0 <= j < i + 1 && p.process(#[trigger] wv.take(i + 1)[j]) == f;
                        if j < i {
                            assert(wv.take(i as int)[j] == wv.take(i + 1)[j]);
                        }
                    }
                    if before.contains(f) {
                        let j = choose|j: int| 0 <= j < i && p.process(#[trigger] wv.take(i as int)[j]) == f;
                        assert(wv.take(i + 1)[j] == wv.take(i as int)[j]);
                    }
                    if f.len() > 0 && f == form@ {
                        assert(wv.take(i + 1)[i as int] == words@[i as int]@);
                    }
                }
                assert(self.dict_view().whitelist_set() =~= old(self).dict_view().whitelist_set().union(after));
            }
            i += 1;
        }
        assert(wv.take(words@.len() as int) =~= wv);
    }

    /// Drop words from the whitelist.
    pub fn remove_whitelist(&mut self, words: &[&str])
        ensures
            final(self).only_whitelist_changed(&*old(self)),
            forall|f: Seq<char>| #[trigger] final(self).dict_view().whitelist_set().contains(f) <==> old(
                self,
            ).dict_view().whitelist_set().contains(f) && forall|j: int| 0 <= j < words@.len() ==> old(
                self,
            ).processor_view().process(#[trigger] words@[j]@) != f,
    {
        let ghost p = self.processor_view();
        let mut i: usize = 0;
        while i < words.len()
            invariant
                i <= words@.len(),
                p == old(self).processor_view(),
                self.only_whitelist_changed(&*old(self)),
                forall|f: Seq<char>| #[trigger] self.dict_view().whitelist_set().contains(f) <==> old(
                    self,
                ).dict_view().whitelist_set().contains(f) && forall|j: int| 0 <= j < i ==> p.process(
                    #[trigger] words@[j]@,
                ) != f,
            decreases words@.len() - i,
        {
            let form = self.processor.process_text(words[i]);
            self.dict.whitelist_remove(form.as_str());
            i += 1;
        }
    }

    /// Empty the whitelist.
    pub fn clear_whitelist(&mut self)
        ensures
            final(self).only_whitelist_changed(&*old(self)),
            final(self).dict_view().whitelist_set() == Set::<Seq<char>>::empty(),
    {
        self.dict.whitelist_clear();
    }

    /// Whether a word is whitelisted, after normalization.
    pub fn is_whitelisted(&self, word: &str) -> (b: bool)
        ensures
            b == self.dict_view().whitelist_set().contains(self.processor_view().process(word@)),
    {
        let form = self.processor.process_text(word);
        self.dict.is_whitelisted(form.as_str())
    }

    // -- matching -------------------------------------------------------------

    /// Whether the text contains profanity. Stops at the first match.
    pub fn is_profane(&self, text: &str, opts: Options) -> (b: bool)
        ensures
            b == (first_spec(self.dict_view(), self.processor_view(), text@, opts).len() > 0),
    {
        let out = find_in_text(&self.dict, &self.processor, text, opts, true);
        out.len() > 0
    }

    /// Every match, sorted by position and non-overlapping.
    pub fn find(&self, text: &str, opts: Options) -> (r: Vec<Match>)
        ensures
            reports_all(self.dict_view(), text@, find_spec(self.dict_view(), self.processor_view(), text@, opts), r@),
            matches_ok(self.dict_view(), self.processor_view(), text@, r@),
            forall|k: int| 0 <= k < r@.len() ==> phrase_hit_fits(
                self.dict_view(),
                self.processor_view(),
                text@,
                opts,
                #[trigger] find_spec(self.dict_view(), self.processor_view(), text@, opts)[k],
            ),
    {
        find_in_text(&self.dict, &self.processor, text, opts, false)
    }

    /// The first match, if any.
    pub fn find_first(&self, text: &str, opts: Options) -> (r: Option<Match>)
        ensures
            match r {
                Some(m) => first_spec(self.dict_view(), self.processor_view(), text@, opts).len() == 1 && reports(
                    self.dict_view(),
                    text@,
                    first_spec(self.dict_view(), self.processor_view(), text@, opts)[0],
                    m,
                ),
                None => first_spec(self.dict_view(), self.processor_view(), text@, opts).len() == 0,
            },
    {
        let mut out = find_in_text(&self.dict, &self.processor, text, opts, true);
        if out.len() == 0 {
            None
        } else {
            Some(out.remove(0))
        }
    }

    /// [`ProfanityFilter::find`] into a caller-owned vector.
    pub fn find_into(&self, text: &str, opts: Options, scratch: &mut Scratch, out: &mut Vec<Match>)
        ensures
            reports_all(
                self.dict_view(),
                text@,
                find_spec(self.dict_view(), self.processor_view(), text@, opts),
                final(out)@,
            ),
            matches_ok(self.dict_view(), self.processor_view(), text@, final(out)@),
    {
        *out = find_in_text(&self.dict, &self.processor, text, opts, false);
    }

    /// Replace every match with `replace_char`, keeping everything else.
    ///
    /// Punctuation attached to a word survives, and whitespace inside a matched
    /// phrase is preserved: `"hey fuck, ok"` becomes `"hey ****, ok"`.
    pub fn censor(&self, text: &str, replace_char: char, opts: Options) -> (r: String)
        ensures
            r@ == censored(text@, find_spec(self.dict_view(), self.processor_view(), text@, opts), replace_char),
    {
        let matches = self.find(text, opts);
        if matches.len() == 0 {
            proof {
                assert(censored(text@, find_spec(self.dict_view(), self.processor_view(), text@, opts), replace_char)
                    =~= text@);
            }
            return text.to_string();
        }
        self.censor_found(text, &matches, replace_char, Ghost(opts))
    }

    /// Censor the matches a search of `text` found.
    pub(crate) fn censor_found(&self, text: &str, matches: &Vec<Match>, replace_char: char, Ghost(opts): Ghost<Options>) -> (r: String)
        requires
            reports_all(self.dict_view(), text@, find_spec(self.dict_view(), self.processor_view(), text@, opts), matches@),
        ensures
            r@ == censored(text@, find_spec(self.dict_view(), self.processor_view(), text@, opts), replace_char),
    {
        let _chars = text.unicode_len();
        let _entries = self.dict.capacity();
        proof {
            assert forall|i: int| 0 <= i < text@.len() implies covered(matches@, byte_offset(text@, i) as int) == in_hits(
                find_spec(self.dict_view(), self.processor_view(), text@, opts),
                i,
            ) by {
                crate::matcher::lemma_find_spec_hits_in_text(self.dict_view(), self.processor_view(), text@, opts);
                lemma_covered(
                    self.dict_view(),
                    text@,
                    find_spec(self.dict_view(), self.processor_view(), text@, opts),
                    matches@,
                    i,
                );
            }
        }
        let r = apply_censor(text, matches, replace_char);
        assert(r@ =~= censored(text@, find_spec(self.dict_view(), self.processor_view(), text@, opts), replace_char));
        r
    }

    /// Replace every match with the output of `f`.
    pub fn censor_with<F: Fn(&Match) -> String>(&self, text: &str, f: F, opts: Options) -> (r: String)
        requires
            forall|m: &Match| #[trigger] f.requires((m,)),
        ensures
            exists|ms: Seq<Match>, outs: Seq<String>|
                {
                    &&& reports_all(
                        self.dict_view(),
                        text@,
                        find_spec(self.dict_view(), self.processor_view(), text@, opts),
                        ms,
                    )
                    &&& outs.len() == ms.len()
                    &&& forall|k: int| 0 <= k < ms.len() ==> f.ensures((&ms[k],), #[trigger] outs[k])
                    &&& r@ == spliced(
                        text@,
                        find_spec(self.dict_view(), self.processor_view(), text@, opts),
                        outs.map_values(|s: String| s@),
                    )
                },
    {
        let (t, hits, ms) = search(&self.dict, &self.processor, text, opts, false);
        let ghost hs = hits@;
        let mut out: Vec<char> = Vec::new();
        let mut pos: usize = 0;
        let ghost mut outs: Seq<String> = seq![];
        let mut k: usize = 0;
        while k < ms.len()
            invariant
                k <= ms@.len(),
                t@ == text@,
                hs == hits@,
                hs.len() == ms@.len(),
                forall|j: int| 0 <= j < hs.len() ==> hit_ok(self.dict_view(), self.processor_view(), t@, #[trigger] hs[j]),
                sorted_disjoint(hs),
                forall|m: &Match| #[trigger] f.requires((m,)),
                outs.len() == k,
                forall|j: int| 0 <= j < k ==> f.ensures((&ms@[j],), #[trigger] outs[j]),
                pos == if k == 0 {
                    0
                } else {
                    hs[k - 1].end as int
                },
                pos <= t@.len(),
                out@ == splice_upto(t@, hs, outs.map_values(|s: String| s@), k as int),
            decreases ms@.len() - k,
        {
            let h = hits[k];
            assert(hit_ok(self.dict_view(), self.processor_view(), t@, hs[k as int]));
            proof {
                if k > 0 {
                    assert(hs[k - 1].end <= hs[k as int].start);
                }
            }
            let ghost before = out@;
            let mut i: usize = pos;
            while i < h.start
                invariant
                    pos <= i <= h.start,
                    h.start <= t@.len(),
                    out@ == before + t@.subrange(pos as int, i as int),
                decreases h.start - i,
            {
                out.push(t[i]);
                i += 1;
                assert(out@ =~= before + t@.subrange(pos as int, i as int));
            }
            let s = f(&ms[k]);
            let mut chars = to_chars(s.as_str());
            out.append(&mut chars);
            proof {
                let ov = outs.map_values(|x: String| x@);
                let nv = outs.push(s).map_values(|x: String| x@);
                lemma_splice_upto_prefix(t@, hs, ov, s@, k as int);
                assert(nv =~= ov.push(s@));
                outs = outs.push(s);
                assert(out@ =~= splice_upto(t@, hs, nv, k + 1));
            }
            pos = h.end;
            k += 1;
        }
        let ghost before = out@;
        let mut i: usize = pos;
        while i < t.len()
            invariant
                pos <= i <= t@.len(),
                out@ == before + t@.subrange(pos as int, i as int),
            decreases t@.len() - i,
        {
            out.push(t[i]);
            i += 1;
            assert(out@ =~= before + t@.subrange(pos as int, i as int));
        }
        let r = crate::text::from_chars(out.as_slice());
        proof {
            assert(r@ == spliced(t@, hs, outs.map_values(|x: String| x@)));
        }
        r
    }

    // -- batch ----------------------------------------------------------------

    /// [`ProfanityFilter::is_profane`] over many texts.
    pub fn is_profane_many(&self, texts: &[&str], opts: Options) -> (r: Vec<bool>)
        ensures
            r@.len() == texts@.len(),
            forall|i: int| 0 <= i < texts@.len() ==> #[trigger] r@[i] == (first_spec(
                self.dict_view(),
                self.processor_view(),
                texts@[i]@,
                opts,
            ).len() > 0),
    {
        let mut r: Vec<bool> = Vec::new();
        let mut i: usize = 0;
        while i < texts.len()
            invariant
                i <= texts@.len(),
                r@.len() == i,
                forall|k: int| 0 <= k < i ==> #[trigger] r@[k] == (first_spec(
                    self.dict_view(),
                    self.processor_view(),
                    texts@[k]@,
                    opts,
                ).len() > 0),
            decreases texts@.len() - i,
        {
            r.push(self.is_profane(texts[i], opts));
            i += 1;
        }
        r
    }

    /// [`ProfanityFilter::find`] over many texts.
    pub fn find_many(&self, texts: &[&str], opts: Options) -> (r: Vec<Vec<Match>>)
        ensures
            r@.len() == texts@.len(),
            forall|i: int| 0 <= i < texts@.len() ==> reports_all(
                self.dict_view(),
                texts@[i]@,
                find_spec(self.dict_view(), self.processor_view(), texts@[i]@, opts),
                #[trigger] r@[i]@,
            ),
    {
        let mut r: Vec<Vec<Match>> = Vec::new();
        let mut i: usize = 0;
        while i < texts.len()
            invariant
                i <= texts@.len(),
                r@.len() == i,
                forall|k: int| 0 <= k < i ==> reports_all(
                    self.dict_view(),
                    texts@[k]@,
                    find_spec(self.dict_view(), self.processor_view(), texts@[k]@, opts),
                    #[trigger] r@[k]@,
                ),
            decreases texts@.len() - i,
        {
            r.push(self.find(texts[i], opts));
            i += 1;
        }
        r
    }

    /// [`ProfanityFilter::censor`] over many texts.
    pub fn censor_many(&self, texts: &[&str], replace_char: char, opts: Options) -> (r: Vec<String>)
        ensures
            r@.len() == texts@.len(),
            forall|i: int| 0 <= i < texts@.len() ==> (#[trigger] r@[i])@ == censored(
                texts@[i]@,
                find_spec(self.dict_view(), self.processor_view(), texts@[i]@, opts),
                replace_char,
            ),
    {
        let mut r: Vec<String> = Vec::new();
        let mut i: usize = 0;
        while i < texts.len()
            invariant
                i <= texts@.len(),
                r@.len() == i,
                forall|k: int| 0 <= k < i ==> (#[trigger] r@[k])@ == censored(
                    texts@[k]@,
                    find_spec(self.dict_view(), self.processor_view(), texts@[k]@, opts),
                    replace_char,
                ),
            decreases texts@.len() - i,
        {
            r.push(self.censor(texts[i], replace_char, opts));
            i += 1;
        }
        r
    }

    // -- utility --------------------------------------------------------------

    /// The normalized form of a text, as the matcher sees it.
    pub fn normalize(&self, text: &str) -> (r: String)
        ensures
            r@ == self.processor_view().process(text@),
    {
        self.processor.process_text(text)
    }

    /// The text processor in use.
    pub fn processor(&self) -> (r: &TextProcessor)
        ensures
            *r == self.processor_view(),
    {
        &self.processor
    }

    /// The processing options this filter was built with.
    pub fn processing(&self) -> (r: Processing)
        ensures
            r == self.processing_view(),
    {
        self.processing
    }

    /// Options used by the deprecated 2.x entry points.
    pub fn default_options(&self) -> (r: Options)
        ensures
            r == self.default_options_view(),
    {
        self.default_options
    }
}


/// `text` with every non-whitespace character whose byte offset falls inside
/// a match replaced by `replace_char`.
pub(crate) fn apply_censor(text: &str, matches: &Vec<Match>, replace_char: char) -> (r: String)
    ensures
        r@ == Seq::new(
            text@.len(),
            |i: int| censor_char(text@[i], covered(matches@, byte_offset(text@, i) as int), replace_char),
        ),
{
    let (t, offs) = crate::text::chars_and_offsets(text);
    let mut out = String::new();
    let mut i: usize = 0;
    while i < t.len()
        invariant
            i <= t@.len(),
            t@ == text@,
            offs@.len() == t@.len() + 1,
            forall|j: int| 0 <= j <= t@.len() ==> offs@[j] == byte_offset(t@, j),
            out@ == Seq::new(
                i as nat,
                |j: int| censor_char(t@[j], covered(matches@, byte_offset(t@, j) as int), replace_char),
            ),
        decreases t@.len() - i,
    {
        let o = offs[i];
        let mut inside = false;
        let mut k: usize = 0;
        while k < matches.len()
            invariant
                k <= matches@.len(),
                inside == exists|q: int| 0 <= q < k && (#[trigger] matches@[q]).start <= o < matches@[q].end,
            decreases matches@.len() - k,
        {
            if matches[k].start <= o && o < matches[k].end {
                inside = true;
            }
            k += 1;
        }
        let c = t[i];
        let ghost before = out@;
        if inside && !is_whitespace(c) {
            push_char(&mut out, replace_char);
        } else {
            push_char(&mut out, c);
        }
        assert(out@ =~= Seq::new(
            (i + 1) as nat,
            |j: int| censor_char(t@[j], covered(matches@, byte_offset(t@, j) as int), replace_char),
        ));
        i += 1;
    }
    out
}

/// Builder for [`ProfanityFilter`].
#[derive(Debug)]
pub struct ProfanityFilterBuilder {
    source: Option<ResourceSource>,
    processing: Processing,
    languages: Option<Vec<String>>,
    all_languages: bool,
    extra_words: Vec<String>,
    whitelist: Vec<String>,
    default_options: Option<Options>,
}

impl ProfanityFilter {
    /// Start configuring a filter.
    pub fn builder() -> (b: ProfanityFilterBuilder)
        ensures
            b.source_spec() is None,
            b.processing_spec() == (Processing {
                normalize_text: true,
                aggressive_normalize: true,
                transliterate: true,
                replace_homoglyphs: true,
            }),
            b.languages_spec() is None,
            !b.all_languages_spec(),
            b.extra_words_spec().len() == 0,
            b.whitelist_spec().len() == 0,
            b.default_options_spec() is None,
    {
        let b = ProfanityFilterBuilder {
            source: None,
            processing: Processing::default(),
            languages: None,
            all_languages: false,
            extra_words: Vec::new(),
            whitelist: Vec::new(),
            default_options: None,
        };
        assert(b.extra_words_spec() =~= Seq::<Seq<char>>::empty());
        assert(b.whitelist_spec() =~= Seq::<Seq<char>>::empty());
        b
    }
}

impl ProfanityFilterBuilder {
    pub closed spec fn source_spec(&self) -> Option<ResourceSource> {
        self.source
    }

    pub closed spec fn processing_spec(&self) -> Processing {
        self.processing
    }

    pub closed spec fn languages_spec(&self) -> Option<Seq<Seq<char>>> {
        strings_opt(self.languages)
    }

    pub closed spec fn all_languages_spec(&self) -> bool {
        self.all_languages
    }

    pub closed spec fn extra_words_spec(&self) -> Seq<Seq<char>> {
        strings_view(self.extra_words@)
    }

    pub closed spec fn whitelist_spec(&self) -> Seq<Seq<char>> {
        strings_view(self.whitelist@)
    }

    pub closed spec fn default_options_spec(&self) -> Option<Options> {
        self.default_options
    }

    /// Use an explicit resource source.
    pub fn source(self, source: ResourceSource) -> (b: Self)
        ensures
            b.source_spec() == Some(source),
            b.processing_spec() == self.processing_spec(),
            b.languages_spec() == self.languages_spec(),
            b.all_languages_spec() == self.all_languages_spec(),
            b.extra_words_spec() == self.extra_words_spec(),
            b.whitelist_spec() == self.whitelist_spec(),
            b.default_options_spec() == self.default_options_spec(),
    {
        ProfanityFilterBuilder { source: Some(source), ..self }
    }

    /// Normalization settings.
    pub fn processing(self, processing: Processing) -> (b: Self)
        ensures
            b.source_spec() == self.source_spec(),
            b.processing_spec() == processing,
            b.languages_spec() == self.languages_spec(),
            b.all_languages_spec() == self.all_languages_spec(),
            b.extra_words_spec() == self.extra_words_spec(),
            b.whitelist_spec() == self.whitelist_spec(),
            b.default_options_spec() == self.default_options_spec(),
    {
        ProfanityFilterBuilder { processing, ..self }
    }

    /// Languages to load. Codes and aliases both work.
    pub fn languages(self, codes: &[&str]) -> (b: Self)
        ensures
            b.source_spec() == self.source_spec(),
            b.processing_spec() == self.processing_spec(),
            b.languages_spec() == Some(strs_view(codes@)),
            b.all_languages_spec() == self.all_languages_spec(),
            b.extra_words_spec() == self.extra_words_spec(),
            b.whitelist_spec() == self.whitelist_spec(),
            b.default_options_spec() == self.default_options_spec(),
    {
        let v = to_strings(codes);
        ProfanityFilterBuilder { languages: Some(v), ..self }
    }

    /// Load every available language.
    pub fn all_languages(self) -> (b: Self)
        ensures
            b.source_spec() == self.source_spec(),
            b.processing_spec() == self.processing_spec(),
            b.languages_spec() == self.languages_spec(),
            b.all_languages_spec(),
            b.extra_words_spec() == self.extra_words_spec(),
            b.whitelist_spec() == self.whitelist_spec(),
            b.default_options_spec() == self.default_options_spec(),
    {
        ProfanityFilterBuilder { all_languages: true, ..self }
    }

    /// Extra words on top of the loaded languages.
    pub fn extra_words(self, words: &[&str]) -> (b: Self)
        ensures
            b.source_spec() == self.source_spec(),
            b.processing_spec() == self.processing_spec(),
            b.languages_spec() == self.languages_spec(),
            b.all_languages_spec() == self.all_languages_spec(),
            b.extra_words_spec() == self.extra_words_spec() + strs_view(words@),
            b.whitelist_spec() == self.whitelist_spec(),
            b.default_options_spec() == self.default_options_spec(),
    {
        let mut extra = self.extra_words;
        let ghost before = strings_view(extra@);
        let mut more = to_strings(words);
        extra.append(&mut more);
        assert(strings_view(extra@) =~= before + strs_view(words@));
        ProfanityFilterBuilder { extra_words: extra, ..self }
    }

    /// Words that must never be reported.
    pub fn whitelist(self, words: &[&str]) -> (b: Self)
        ensures
            b.source_spec() == self.source_spec(),
            b.processing_spec() == self.processing_spec(),
            b.languages_spec() == self.languages_spec(),
            b.all_languages_spec() == self.all_languages_spec(),
            b.extra_words_spec() == self.extra_words_spec(),
            b.whitelist_spec() == self.whitelist_spec() + strs_view(words@),
            b.default_options_spec() == self.default_options_spec(),
    {
        let mut wl = self.whitelist;
        let ghost before = strings_view(wl@);
        let mut more = to_strings(words);
        wl.append(&mut more);
        assert(strings_view(wl@) =~= before + strs_view(words@));
        ProfanityFilterBuilder { whitelist: wl, ..self }
    }

    /// Options the deprecated 2.x entry points should use.
    pub fn default_options(self, options: Options) -> (b: Self)
        ensures
            b.source_spec() == self.source_spec(),
            b.processing_spec() == self.processing_spec(),
            b.languages_spec() == self.languages_spec(),
            b.all_languages_spec() == self.all_languages_spec(),
            b.extra_words_spec() == self.extra_words_spec(),
            b.whitelist_spec() == self.whitelist_spec(),
            b.default_options_spec() == Some(options),
    {
        ProfanityFilterBuilder { default_options: Some(options), ..self }
    }

    /// Build the filter: construct it from the source, set the default
    /// options, load every language or the requested ones, then add the
    /// extra words and the whitelist.
    pub fn build(self) -> (r: Result<ProfanityFilter, Error>)
        ensures
            self.source_spec() is None ==> (r matches Err(Error::MissingResource { .. })),
            self.source_spec() matches Some(src) && !tables_load(src.tables(), self.processing_spec().transliterate)
                ==> (r matches Err(Error::Json { .. })),
            self.source_spec() is Some && tables_load(self.source_spec()->0.tables(), self.processing_spec().transliterate)
                ==> {
                let src = self.source_spec()->0;
                &&& r is Ok <==> requested_resolve(src, self.all_languages_spec(), self.languages_spec())
                &&& !requested_resolve(src, self.all_languages_spec(), self.languages_spec()) ==> (r matches Err(
                    Error::UnknownLanguage { .. },
                ))
            },
            r matches Ok(f) ==> {
                &&& self.source_spec() matches Some(src) && f.source_words() == src.words()
                &&& tables_load(self.source_spec()->0.tables(), self.processing_spec().transliterate)
                &&& f.processing_view() == self.processing_spec()
                &&& f.default_options_view() == match self.default_options_spec() {
                    Some(o) => o,
                    None => default_options_spec(),
                }
                &&& f.available() == f.registry_view().codes()
                &&& f.dict_view().whitelist_set() == forms_of(f.processor_view(), self.whitelist_spec())
                &&& forall|i: int| 0 <= i < self.extra_words_spec().len() && f.processor_view().process(
                    #[trigger] self.extra_words_spec()[i],
                ).len() > 0 ==> f.dict_view().lookup_spec(f.processor_view().process(self.extra_words_spec()[i])) is Some
                &&& (self.all_languages_spec() || self.languages_spec() is Some) == f.initialized_view()
                &&& !self.all_languages_spec() && self.languages_spec() is None ==> f.loaded().len() == 0
                &&& self.languages_spec() is Some && !self.all_languages_spec() ==> all_resolve(
                    f.registry_view(),
                    self.languages_spec()->0,
                )
            },
    {
        let ProfanityFilterBuilder { source, processing, languages, all_languages, extra_words, whitelist, default_options } = self;
        let source = match source {
            Some(s) => s,
            None => {
                return Err(
                    Error::MissingResource { what: "resource source (call .source() with the resources)".to_string() },
                );
            },
        };
        let ghost src = source;
        let mut filter = ProfanityFilter::from_source(source, processing)?;
        proof {
            let reg = filter.registry_view();
            lemma_resolves_source(src, reg);
            lemma_source_registry(src, reg);
        }
        match default_options {
            Some(o) => {
                filter.default_options = o;
            },
            None => {},
        }
        let ghost reg = filter.registry_view();
        let ghost words = filter.source_words();
        let ghost proc = filter.processor_view();
        if all_languages {
            proof {
                lemma_requested(src, reg, all_languages, strings_opt(languages), filter.available());
                if all_resolve(reg, filter.available()) {
                    lemma_load_resolved(reg, words, proc, filter.available());
                }
            }
            filter.load_all_languages()?;
        } else {
            match &languages {
                Some(codes) => {
                    let strs = as_strs(codes);
                    proof {
                        lemma_requested(src, reg, all_languages, strings_opt(languages), strs_view(strs@));
                        if all_resolve(reg, strs_view(strs@)) {
                            lemma_load_resolved(reg, words, proc, strs_view(strs@));
                        }
                    }
                    filter.reload_languages(strs.as_slice())?;
                },
                None => {
                    proof {
                        lemma_requested(src, reg, all_languages, strings_opt(languages), seq![]);
                    }
                },
            }
        }
        if extra_words.len() > 0 {
            let strs = as_strs(&extra_words);
            let ghost e0 = filter.dict_view().entries();
            filter.add_words(strs.as_slice());
            proof {
                lemma_add_words_contains(filter.processor_view(), e0, strings_view(extra_words@));
            }
        }
        let ghost wl0 = filter.dict_view().whitelist_set();
        if whitelist.len() > 0 {
            let strs = as_strs(&whitelist);
            filter.add_whitelist(strs.as_slice());
            assert(filter.dict_view().whitelist_set() =~= forms_of(filter.processor_view(), strings_view(whitelist@)));
        } else {
            assert(forms_of(filter.processor_view(), strings_view(whitelist@)) =~= Set::<Seq<char>>::empty());
            assert(filter.dict_view().whitelist_set() =~= Set::<Seq<char>>::empty());
        }
        Ok(filter)
    }
}

/// Adding words makes each whose form is not empty a dictionary entry.
pub proof fn lemma_add_words_contains(p: TextProcessor, e: Seq<(Seq<char>, Seq<char>, u64)>, words: Seq<Seq<char>>)
    ensures
        forall|i: int| 0 <= i < words.len() && p.process(#[trigger] words[i]).len() > 0 ==> lookup_in(
            add_words_spec(p, e, words),
            p.process(words[i]),
        ) is Some,
    decreases words.len(),
{
    if words.len() > 0 {
        let prev = words.drop_last();
        lemma_add_words_contains(p, e, prev);
        let before = add_words_spec(p, e, prev);
        let f = p.process(words.last());
        assert forall|i: int| 0 <= i < words.len() && p.process(#[trigger] words[i]).len() > 0 implies lookup_in(
            add_words_spec(p, e, words),
            p.process(words[i]),
        ) is Some by {
            if i < words.len() - 1 {
                assert(prev[i] == words[i]);
                crate::dict::lemma_insert_keeps(before, f, words.last(), CUSTOM_LANG_BIT, p.process(words[i]));
            } else {
                crate::dict::lemma_insert_keeps(before, f, words.last(), CUSTOM_LANG_BIT, f);
            }
        }
    }
}

/// Owned copies of string slices.
fn to_strings(v: &[&str]) -> (r: Vec<String>)
    ensures
        strings_view(r@) == strs_view(v@),
{
    let mut r: Vec<String> = Vec::new();
    let mut i: usize = 0;
    while i < v.len()
        invariant
            i <= v@.len(),
            r@.len() == i,
            forall|k: int| 0 <= k < i ==> (#[trigger] r@[k])@ == v@[k]@,
        decreases v@.len() - i,
    {
        r.push(v[i].to_string());
        i += 1;
    }
    assert(strings_view(r@) =~= strs_view(v@));
    r
}

/// A copy of every string.
pub(crate) fn copy_strings(v: &Vec<String>) -> (r: Vec<String>)
    ensures
        strings_view(r@) == strings_view(v@),
{
    let mut r: Vec<String> = Vec::new();
    let mut i: usize = 0;
    while i < v.len()
        invariant
            i <= v@.len(),
            r@.len() == i,
            forall|k: int| 0 <= k < i ==> (#[trigger] r@[k])@ == v@[k]@,
        decreases v@.len() - i,
    {
        r.push(v[i].clone());
        i += 1;
    }
    assert(strings_view(r@) =~= strings_view(v@));
    r
}

/// `v` with each run of equal neighbours kept once.
fn dedup_strings(v: Vec<String>) -> (r: Vec<String>)
    ensures
        strings_view(r@) == dedup_adjacent(strings_view(v@)),
{
    let ghost sv = strings_view(v@);
    let mut r: Vec<String> = Vec::new();
    let mut i: usize = 0;
    while i < v.len()
        invariant
            i <= v@.len(),
            sv == strings_view(v@),
            strings_view(r@) == dedup_adjacent(sv.take(i as int)),
            i > 0 ==> r@.len() > 0 && r@.last()@ == sv[i - 1],
        decreases v@.len() - i,
    {
        proof {
            assert(sv.take(i + 1).drop_last() =~= sv.take(i as int));
            assert(sv.take(i + 1).last() == sv[i as int]);
            if i > 0 {
                assert(sv.take(i + 1)[i - 1] == sv[i - 1]);
            }
        }
        if i == 0 || !crate::text::str_eq(r[r.len() - 1].as_str(), v[i].as_str()) {
            let ghost before = r@;
            r.push(v[i].clone());
            proof {
                crate::text::lemma_strings_view_push(before, r@.last());
                if i == 0 {
                    assert(sv.take(1) =~= seq![sv[0]]);
                    assert(strings_view(r@) =~= seq![sv[0]]);
                }
            }
        }
        i += 1;
    }
    assert(sv.take(v@.len() as int) =~= sv);
    r
}

/// Resolve every code, with the deprecation warnings; the first unknown code
/// is an error.
#[verifier::rlimit(40)]
fn resolve_codes(reg: &LanguageRegistry, codes: &[&str]) -> (r: Result<(Vec<String>, Vec<LanguageWarning>), Error>)
    ensures
        r is Ok <==> all_resolve(*reg, strs_view(codes@)),
        r matches Ok((v, ws)) ==> {
            &&& strings_view(v@) == canonicals(*reg, strs_view(codes@))
            &&& ws@.map_values(|w: LanguageWarning| w.model()) == deprecations(*reg, strs_view(codes@))
        },
        r matches Err(e) ==> (e matches Error::UnknownLanguage { code, available } && strings_view(available@)
            == reg.codes() && exists|k: int| first_unresolved(*reg, strs_view(codes@), k) && code@ == codes@[k]@),
{
    let ghost cv = strs_view(codes@);
    let mut resolved: Vec<String> = Vec::new();
    let mut warnings: Vec<LanguageWarning> = Vec::new();
    let mut k: usize = 0;
    while k < codes.len()
        invariant
            k <= codes@.len(),
            cv == strs_view(codes@),
            forall|j: int| 0 <= j < k ==> resolves(*reg, #[trigger] cv[j]) is Some,
            strings_view(resolved@) == canonicals(*reg, cv.take(k as int)),
            warnings@.map_values(|w: LanguageWarning| w.model()) == deprecations(*reg, cv.take(k as int)),
        decreases codes@.len() - k,
    {
        proof {
            assert(cv.take(k + 1).drop_last() =~= cv.take(k as int));
            assert(cv.take(k + 1).last() == cv[k as int]);
        }
        match reg.resolve(codes[k]) {
            Ok(hit) => {
                let ghost wbefore = warnings@.map_values(|w: LanguageWarning| w.model());
                match hit.deprecated {
                    Some(note) => {
                        warnings.push(
                            LanguageWarning::DeprecatedAlias {
                                requested: codes[k].to_string(),
                                canonical: hit.canonical.to_string(),
                                note: note.to_string(),
                            },
                        );
                        assert(warnings@.map_values(|w: LanguageWarning| w.model()) =~= wbefore.push(
                            warnings@.last().model(),
                        ));
                    },
                    None => {},
                }
                assert(warnings@.map_values(|w: LanguageWarning| w.model()) =~= deprecations(*reg, cv.take(k + 1)));
                let ghost rbefore = resolved@;
                resolved.push(hit.canonical.to_string());
                proof {
                    crate::text::lemma_strings_view_push(rbefore, resolved@.last());
                    assert(strings_view(resolved@) =~= canonicals(*reg, cv.take(k + 1)));
                }
            },
            Err(e) => {
                proof {
                    assert(first_unresolved(*reg, cv, k as int));
                }
                return Err(e);
            },
        }
        k += 1;
    }
    assert(cv.take(codes@.len() as int) =~= cv);
    Ok((resolved, warnings))
}

/// The string slices of every string.
pub(crate) fn as_strs(v: &Vec<String>) -> (r: Vec<&str>)
    ensures
        strs_view(r@) == strings_view(v@),
{
    let mut r: Vec<&str> = Vec::new();
    let mut i: usize = 0;
    while i < v.len()
        invariant
            i <= v@.len(),
            r@.len() == i,
            forall|k: int| 0 <= k < i ==> (#[trigger] r@[k])@ == v@[k]@,
        decreases v@.len() - i,
    {
        r.push(v[i].as_str());
        i += 1;
    }
    assert(strs_view(r@) =~= strings_view(v@));
    r
}
} // verus!
