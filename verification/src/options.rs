//! Matching options.
//!
//! Every detector added in 3.0.0 is off by default: [`Options::default`]
//! reproduces 2.x behaviour except for phrase matching, which is inert in 2.x
//! because multi-word entries could never match at all.
use vstd::prelude::*;
use crate::text::str_eq;

verus! {

/// A similarity threshold as the fraction `num / den`.
///
/// Fuzzy matching is active only for `0 < num / den < 1`; a candidate must
/// score strictly above the threshold.
#[derive(Debug, Clone, Copy, PartialEq, Eq)]
pub struct Threshold {
    pub num: u32,
    pub den: u32,
}

impl Threshold {
    /// The threshold `num / den`.
    pub fn new(num: u32, den: u32) -> (t: Threshold)
        ensures
            t.num == num,
            t.den == den,
    {
        Threshold { num, den }
    }

    /// `1`: exact matching only.
    pub fn exact() -> (t: Threshold)
        ensures
            t.num == 1,
            t.den == 1,
    {
        Threshold { num: 1, den: 1 }
    }

    /// Whether the threshold lies strictly between 0 and 1.
    pub open spec fn is_fuzzy_spec(&self) -> bool {
        0 < self.num && self.num < self.den
    }
}

/// How dictionary entries are looked for inside a token.
#[derive(Debug, Clone, Copy, PartialEq, Eq)]
pub enum MatchMode {
    /// A token matches only as a whole. Default.
    Token,
    /// A token matches if a dictionary entry occurs anywhere inside it.
    ///
    /// Catches glued evasion (`fuckyou`) at the cost of Scunthorpe-style false
    /// positives; pair it with a whitelist and see [`Options::min_substring_len`].
    Substring,
}

impl Default for MatchMode {
    fn default() -> (m: MatchMode)
        ensures
            m == MatchMode::Token,
    {
        MatchMode::Token
    }
}

impl MatchMode {
    /// The mode named `token` or `substring`, if the name is one of them.
    pub fn parse(name: &str) -> (r: Option<MatchMode>)
        ensures
            r == if name@ == "token"@ {
                Some(MatchMode::Token)
            } else if name@ == "substring"@ {
                Some(MatchMode::Substring)
            } else {
                None::<MatchMode>
            },
    {
        if str_eq(name, "token") {
            Some(MatchMode::Token)
        } else if str_eq(name, "substring") {
            Some(MatchMode::Substring)
        } else {
            None
        }
    }
}

/// Text normalization applied before matching, to both text and dictionary.
#[derive(Debug, Clone, Copy, PartialEq, Eq)]
pub struct Processing {
    /// Apply NFKC, lowercase and the unicode confusable mappings.
    pub normalize_text: bool,
    /// Also drop underscores, not just punctuation.
    pub aggressive_normalize: bool,
    /// Fold latin and cyrillic onto one script.
    pub transliterate: bool,
    /// Fold cross-script lookalikes (cyrillic `с` to latin `c`).
    pub replace_homoglyphs: bool,
}

impl Default for Processing {
    fn default() -> (p: Processing)
        ensures
            p.normalize_text && p.aggressive_normalize && p.transliterate && p.replace_homoglyphs,
    {
        Processing { normalize_text: true, aggressive_normalize: true, transliterate: true, replace_homoglyphs: true }
    }
}

impl Processing {
    /// No normalization at all: entries match byte-for-byte.
    pub fn none() -> (p: Processing)
        ensures
            !p.normalize_text && !p.aggressive_normalize && !p.transliterate && !p.replace_homoglyphs,
    {
        Processing {
            normalize_text: false,
            aggressive_normalize: false,
            transliterate: false,
            replace_homoglyphs: false,
        }
    }
}

/// Which part of a whitespace-separated segment a match reports.
#[derive(Debug, Clone, Copy, PartialEq, Eq)]
pub enum SpanMode {
    /// The alphanumeric core, so surrounding punctuation survives censoring.
    Core,
    /// The whole segment including punctuation - 2.x behaviour.
    WholeSegment,
}

/// Per-call matching options.
///
/// Construct with [`Options::new`] (or `default()`) and set fields through the
/// builder methods.
#[derive(Debug, Clone, Copy, PartialEq, Eq)]
pub struct Options {
    /// Similarity required for a fuzzy match. `1` means exact only.
    pub match_threshold: Threshold,
    /// Whole-token or substring lookup.
    pub match_mode: MatchMode,
    /// Also test the pieces a token splits into on inner punctuation, so that
    /// `fuck-you` and `you.fuck` are caught. The glued form is always tested
    /// first, so `f.u.c.k` keeps working either way.
    pub split_on_punctuation: bool,
    /// Also test forms with runs of repeated letters collapsed, so that
    /// `fuuuck` and `ffuck` are caught.
    pub collapse_repeats: bool,
    /// Also test a form with digits and symbols read as letters (`sh1t`, `@ss`).
    pub leetspeak: bool,
    /// Match multi-word dictionary entries against consecutive tokens.
    pub phrases: bool,
    /// In [`MatchMode::Substring`], ignore entries shorter than this.
    pub min_substring_len: usize,
    /// Stop after this many matches.
    pub max_matches: Option<usize>,
    /// Which part of a segment a match reports.
    pub span: SpanMode,
}

/// The default options: exact whole-token matching with phrases.
pub open spec fn default_options_spec() -> Options {
    Options {
        match_threshold: Threshold { num: 1, den: 1 },
        match_mode: MatchMode::Token,
        split_on_punctuation: false,
        collapse_repeats: false,
        leetspeak: false,
        phrases: true,
        min_substring_len: 6,
        max_matches: None,
        span: SpanMode::Core,
    }
}

impl Default for Options {
    fn default() -> (o: Options)
        ensures
            o == default_options_spec(),
    {
        Options {
            match_threshold: Threshold::exact(),
            match_mode: MatchMode::Token,
            split_on_punctuation: false,
            collapse_repeats: false,
            leetspeak: false,
            phrases: true,
            min_substring_len: 6,
            max_matches: None,
            span: SpanMode::Core,
        }
    }
}

impl Options {
    /// Default options: exact whole-token matching.
    pub fn new() -> (o: Options)
        ensures
            o == default_options_spec(),
    {
        Options::default()
    }

    /// Every detector on, fuzzy at `0.9`, substring matching enabled.
    ///
    /// Convenient for offline analysis. Expect false positives; measure against
    /// your own corpus before using it on live traffic.
    pub fn aggressive() -> (o: Options)
        ensures
            o == (Options {
                match_threshold: Threshold { num: 9, den: 10 },
                match_mode: MatchMode::Substring,
                split_on_punctuation: true,
                collapse_repeats: true,
                leetspeak: true,
                ..default_options_spec()
            }),
    {
        Options {
            match_threshold: Threshold::new(9, 10),
            match_mode: MatchMode::Substring,
            split_on_punctuation: true,
            collapse_repeats: true,
            leetspeak: true,
            ..Options::default()
        }
    }

    pub fn threshold(self, threshold: Threshold) -> (o: Options)
        ensures
            o == (Options { match_threshold: threshold, ..self }),
    {
        Options { match_threshold: threshold, ..self }
    }

    pub fn match_mode(self, mode: MatchMode) -> (o: Options)
        ensures
            o == (Options { match_mode: mode, ..self }),
    {
        Options { match_mode: mode, ..self }
    }

    pub fn split_on_punctuation(self, yes: bool) -> (o: Options)
        ensures
            o == (Options { split_on_punctuation: yes, ..self }),
    {
        Options { split_on_punctuation: yes, ..self }
    }

    pub fn collapse_repeats(self, yes: bool) -> (o: Options)
        ensures
            o == (Options { collapse_repeats: yes, ..self }),
    {
        Options { collapse_repeats: yes, ..self }
    }

    pub fn leetspeak(self, yes: bool) -> (o: Options)
        ensures
            o == (Options { leetspeak: yes, ..self }),
    {
        Options { leetspeak: yes, ..self }
    }

    pub fn phrases(self, yes: bool) -> (o: Options)
        ensures
            o == (Options { phrases: yes, ..self }),
    {
        Options { phrases: yes, ..self }
    }

    pub fn min_substring_len(self, len: usize) -> (o: Options)
        ensures
            o == (Options { min_substring_len: len, ..self }),
    {
        Options { min_substring_len: len, ..self }
    }

    pub fn max_matches(self, max: Option<usize>) -> (o: Options)
        ensures
            o == (Options { max_matches: max, ..self }),
    {
        Options { max_matches: max, ..self }
    }

    pub fn span(self, span: SpanMode) -> (o: Options)
        ensures
            o == (Options { span: span, ..self }),
    {
        Options { span, ..self }
    }

    /// Whether fuzzy matching is active for these options.
    pub fn is_fuzzy(&self) -> (b: bool)
        ensures
            b == self.match_threshold.is_fuzzy_spec(),
    {
        self.match_threshold.num > 0 && self.match_threshold.num < self.match_threshold.den
    }
}

} // verus!
