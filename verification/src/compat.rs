//! The 2.x API, kept working.
//!
//! Two deliberate deviations from 2.x: `init` can be called more than once
//! (2.x overwrote the list of available languages with the loaded ones), and
//! a broken resource set yields an empty filter rather than a half-built one.
use vstd::prelude::*;
use crate::error::{Error, NotSupportedLanguage};
use crate::filter::{
    all_resolve, as_strs, censored, copy_strings, lemma_load_resolved, lemma_requested, lemma_source_registry,
    reload_outcome, stem_offered, strs_view, tables_load, ProfanityFilter,
};
use crate::lang::normalize_code_spec;
use crate::matcher::{find_spec, first_spec};
use crate::options::{Options, Processing, SpanMode, Threshold};
use crate::processor::lookup;
use crate::resources::{words_view, ResourceSource};
use crate::text::{char_is_alphabetic, is_alphabetic, strings_view, to_chars};

verus! {

/// Whether every character of `code` is alphabetic.
pub open spec fn all_alphabetic(code: Seq<char>) -> bool {
    forall|i: int| 0 <= i < code.len() ==> char_is_alphabetic(#[trigger] code[i])
}

/// The codes made of letters only, in order.
pub open spec fn alphabetic_codes(codes: Seq<Seq<char>>) -> Seq<Seq<char>>
    decreases codes.len(),
{
    if codes.len() == 0 {
        seq![]
    } else if all_alphabetic(codes.last()) {
        alphabetic_codes(codes.drop_last()).push(codes.last())
    } else {
        alphabetic_codes(codes.drop_last())
    }
}

/// The options the 2.x `filter_text` matches with: the filter's defaults at
/// `threshold`, without phrases, reporting whole segments.
pub open spec fn legacy_options(defaults: Options, threshold: Threshold) -> Options {
    Options { match_threshold: threshold, phrases: false, span: SpanMode::WholeSegment, ..defaults }
}

fn is_alphabetic_code(code: &str) -> (b: bool)
    ensures
        b == all_alphabetic(code@),
{
    let chars = to_chars(code);
    let mut i: usize = 0;
    while i < chars.len()
        invariant
            i <= chars@.len(),
            chars@ == code@,
            forall|j: int| 0 <= j < i ==> char_is_alphabetic(#[trigger] chars@[j]),
        decreases chars@.len() - i,
    {
        if !is_alphabetic(chars[i]) {
            return false;
        }
        i += 1;
    }
    true
}

impl ProfanityFilter {
    /// Create a filter from in-memory resources and load `languages`.
    ///
    /// Codes that are not made of letters only are skipped, as 2.x did.
    pub fn new_from_embedded(
        unicode_mappings_json: &str,
        homoglyphs_json: &str,
        transliteration_json: &str,
        words_by_lang: Vec<(String, String)>,
        languages: Vec<String>,
        normalize_text: bool,
        aggressive_normalize: bool,
        transliterate: bool,
        replace_homoglyphs: bool,
    ) -> (r: Result<Self, Error>)
        ensures
            !tables_load((unicode_mappings_json@, homoglyphs_json@, transliteration_json@), transliterate) ==> (r matches Err(
                Error::Json { .. },
            )),
            tables_load((unicode_mappings_json@, homoglyphs_json@, transliteration_json@), transliterate) ==> {
                let wanted = alphabetic_codes(strings_view(languages@));
                let offered = forall|k: int| 0 <= k < wanted.len() ==> stem_offered(
                    words_view(words_by_lang@),
                    normalize_code_spec(#[trigger] wanted[k]),
                );
                &&& r is Ok <==> offered
                &&& !offered ==> (r matches Err(Error::UnknownLanguage { .. }))
            },
            r matches Ok(f) ==> {
                &&& tables_load((unicode_mappings_json@, homoglyphs_json@, transliteration_json@), transliterate)
                &&& f.source_words() == words_view(words_by_lang@)
                &&& f.processing_view() == (Processing {
                    normalize_text,
                    aggressive_normalize,
                    transliterate,
                    replace_homoglyphs,
                })
                &&& f.available() == f.registry_view().codes()
                &&& all_resolve(f.registry_view(), alphabetic_codes(strings_view(languages@)))
                &&& f.initialized_view()
            },
    {
        let processing = Processing { normalize_text, aggressive_normalize, transliterate, replace_homoglyphs };
        let source = ResourceSource::InMemory {
            unicode_mappings: unicode_mappings_json.to_string(),
            homoglyphs: homoglyphs_json.to_string(),
            transliteration: transliteration_json.to_string(),
            languages: None,
            words: words_by_lang,
        };
        let ghost src = source;
        let mut filter = ProfanityFilter::from_source(source, processing)?;
        proof {
            lemma_source_registry(src, filter.registry_view());
        }
        let ghost lv = strings_view(languages@);
        let mut wanted: Vec<String> = Vec::new();
        let mut i: usize = 0;
        while i < languages.len()
            invariant
                i <= languages@.len(),
                lv == strings_view(languages@),
                strings_view(wanted@) == alphabetic_codes(lv.take(i as int)),
            decreases languages@.len() - i,
        {
            proof {
                assert(lv.take(i + 1).drop_last() =~= lv.take(i as int));
                assert(lv.take(i + 1).last() == lv[i as int]);
            }
            if is_alphabetic_code(languages[i].as_str()) {
                let ghost before = wanted@;
                wanted.push(languages[i].clone());
                proof {
                    crate::text::lemma_strings_view_push(before, wanted@.last());
                }
            }
            i += 1;
        }
        assert(lv.take(languages@.len() as int) =~= lv);
        let codes = as_strs(&wanted);
        proof {
            let reg = filter.registry_view();
            let cv = strs_view(codes@);
            lemma_requested(src, reg, false, Some(cv), cv);
            assert(crate::filter::requested_resolve(src, false, Some(cv)) <==> forall|k: int| 0 <= k < cv.len() ==> stem_offered(
                words_view(words_by_lang@),
                normalize_code_spec(#[trigger] cv[k]),
            ));
            if all_resolve(reg, cv) {
                lemma_load_resolved(reg, filter.source_words(), filter.processor_view(), cv);
            }
        }
        filter.reload_languages(codes.as_slice())?;
        Ok(filter)
    }

    /// Load word lists: the given languages, or every available one.
    ///
    /// An unknown code or a missing word list is [`NotSupportedLanguage`].
    pub fn init(&mut self, languages: Option<&[String]>) -> (r: Result<(), NotSupportedLanguage>)
        ensures
            final(self).same_config(&*old(self)),
            final(self).dict_view().whitelist_set() == old(self).dict_view().whitelist_set(),
            ({
                let codes = match languages {
                    Some(v) => strings_view(v@),
                    None => old(self).available(),
                };
                &&& !all_resolve(old(self).registry_view(), codes) ==> r is Err && final(self).load_state() == old(
                    self,
                ).load_state()
                &&& all_resolve(old(self).registry_view(), codes) ==> {
                    &&& final(self).load_state() == reload_outcome(*old(self), codes).0
                    &&& r is Ok <==> reload_outcome(*old(self), codes).1 is None
                }
            }),
    {
        let result = match languages {
            Some(codes) => {
                let owned = copy_strings_slice(codes);
                let strs = as_strs(&owned);
                self.reload_languages(strs.as_slice())
            },
            None => self.load_all_languages(),
        };
        match result {
            Ok(()) => Ok(()),
            Err(_) => Err(NotSupportedLanguage),
        }
    }

    /// Check or censor text: `(found, censored)`, where `censored` is `None`
    /// unless `replace_char` was given and something matched.
    ///
    /// As in 2.x, a match reports its whole whitespace-delimited segment,
    /// punctuation and all, and multi-word entries are not matched.
    pub fn filter_text(&self, text: &str, match_threshold: Threshold, replace_char: Option<char>) -> (r: (
        bool,
        Option<String>,
    ))
        ensures
            ({
                let o = legacy_options(self.default_options_view(), match_threshold);
                match replace_char {
                    None => r.0 == (first_spec(self.dict_view(), self.processor_view(), text@, o).len() > 0)
                        && r.1 is None,
                    Some(ch) => if find_spec(self.dict_view(), self.processor_view(), text@, o).len() == 0 {
                        !r.0 && r.1 is None
                    } else {
                        r.0 && (r.1 matches Some(s) && s@ == censored(
                            text@,
                            find_spec(self.dict_view(), self.processor_view(), text@, o),
                            ch,
                        ))
                    },
                }
            }),
    {
        let opts = self.default_options().threshold(match_threshold).phrases(false).span(SpanMode::WholeSegment);
        match replace_char {
            None => (self.is_profane(text, opts), None),
            Some(ch) => {
                let matches = self.find(text, opts);
                if matches.len() == 0 {
                    (false, None)
                } else {
                    (true, Some(self.censor_found(text, &matches, ch, Ghost(opts))))
                }
            },
        }
    }

    /// Loaded languages, or the available ones before any loading.
    pub fn get_all_languages(&self) -> (r: &[String])
        ensures
            strings_view(r@) == if self.initialized_view() {
                self.loaded()
            } else {
                self.available()
            },
    {
        if self.is_initialized() {
            self.loaded_languages()
        } else {
            self.available_languages()
        }
    }
}

/// Owned copies of strings.
fn copy_strings_slice(v: &[String]) -> (r: Vec<String>)
    ensures
        strings_view(r@) == strings_view(v@),
{
    let mut r: Vec<String> = Vec::new();
    let mut i: usize = 0;
    while i < v.len()
        invariant
            i <= v@.len(),
            r@.len() == i,
            forall|k: int| 0 <= k < i ==> (#[trigger] r@[k])@ == v@[k]@,
        decreases v@.len() - i,
    {
        r.push(v[i].clone());
        i += 1;
    }
    assert(strings_view(r@) =~= strings_view(v@));
    r
}

} // verus!
