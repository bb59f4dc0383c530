//! The building blocks on concrete values.

use badwords_core::fuzzy::{char_bit, charset_mask, charset_mask_chars, jaro_winkler};
use badwords_core::ml::{
    activation_for, fallback_labels, label_list, logits_fit, ordered_labels, parse_usize, pending_positions,
    rule_verdict, Activation, Decision,
    ToxicityModelBuilder, DEFAULT_MAX_LENGTH,
};
use badwords_core::tokenize::{collapse_forms, collapse_runs, is_number_like, leet_char, leet_form, segments, subtokens};
use badwords_core::{
    Error, LanguageInfo, LanguageRegistry, MatchKind, NotSupportedLanguage, Options, Processing, ProfanityFilter,
    ResourceSource, Score, TextProcessor, Threshold,
};

fn chars(s: &str) -> Vec<char> {
    s.chars().collect()
}

fn strings(v: &[&str]) -> Vec<String> {
    v.iter().map(|s| s.to_string()).collect()
}

#[test]
fn jaro_winkler_of_martha_and_marhta() {
    let s = jaro_winkler(&chars("martha"), &chars("marhta"));
    assert!(s.is(173, 180));
}

#[test]
fn jaro_winkler_of_hello_and_hallo() {
    let s = jaro_winkler(&chars("hello"), &chars("hallo"));
    assert!(s.is(22, 25));
}

#[test]
fn jaro_winkler_of_equal_words_is_one() {
    let s = jaro_winkler(&chars("word"), &chars("word"));
    assert!(s.is(1, 1));
}

#[test]
fn jaro_winkler_without_common_characters_is_zero() {
    let s = jaro_winkler(&chars("abc"), &chars("xyz"));
    assert!(s.is(0, 1));
}

#[test]
fn segments_split_on_whitespace_and_trim_to_the_core() {
    let t = chars("  (hey), you!");
    let segs = segments(&t);
    assert_eq!(segs.len(), 2);
    assert_eq!((segs[0].start, segs[0].end, segs[0].core_start, segs[0].core_end), (2, 8, 3, 6));
    assert_eq!((segs[1].start, segs[1].end, segs[1].core_start, segs[1].core_end), (9, 13, 9, 12));
    assert!(segments(&chars("   ")).is_empty());
}

#[test]
fn subtokens_split_on_inner_punctuation() {
    let t = chars("you.bad-word");
    assert_eq!(subtokens(&t, 0, t.len()), vec![(0, 3), (4, 7), (8, 12)]);
    let glued = chars("badword");
    assert!(subtokens(&glued, 0, glued.len()).is_empty());
}

#[test]
fn leet_decoding() {
    assert_eq!(leet_char('4'), Some('a'));
    assert_eq!(leet_char('0'), Some('o'));
    assert_eq!(leet_char('$'), Some('s'));
    assert_eq!(leet_char('x'), None);
    assert_eq!(leet_form(&chars("b4dw0rd")), Some(chars("badword")));
    assert_eq!(leet_form(&chars("badword")), None);
    assert_eq!(leet_form(&chars("1337")), None);
    assert_eq!(leet_form(&chars("2nd")), None);
    assert!(is_number_like(&chars("100k")));
    assert!(!is_number_like(&chars("mp3")));
    assert!(!is_number_like(&chars("100kmh")));
}

#[test]
fn runs_collapse() {
    assert_eq!(collapse_runs(&chars("fuuuck"), 1), chars("fuck"));
    assert_eq!(collapse_runs(&chars("fuuuck"), 2), chars("fuuck"));
    assert_eq!(collapse_runs(&chars("book"), 1), chars("book"));
    assert_eq!(collapse_forms(&chars("ffuck")), vec![chars("fuck")]);
    assert_eq!(collapse_forms(&chars("shiiit")), vec![chars("shit"), chars("shiit")]);
    assert!(collapse_forms(&chars("book")).is_empty());
}

#[test]
fn processor_applies_its_tables() {
    let mut p = TextProcessor::new(true, true, true, true);
    p.load_from_str(
        r#"{"letters":{"ⓐ":"a"}}"#,
        r#"{"o":["0","ο"]}"#,
        r#"{"cyrillic_to_latin":{"х":"h","у":"u","й":"y"}}"#,
    )
    .unwrap();
    assert_eq!(p.process_text("ⓐBC"), "abc");
    assert_eq!(p.process_text("fοo"), "foo");
    assert_eq!(p.process_text("ﬁne"), "fine");
}

#[test]
fn processor_reports_the_table_that_failed() {
    let mut p = TextProcessor::new(true, true, true, true);
    let err = p.load_from_str("{}", "[1, 2]", r#"{"cyrillic_to_latin":{}}"#).unwrap_err();
    assert!(matches!(err, Error::Json { .. }));
    let mut q = TextProcessor::new(true, true, false, true);
    assert!(q.load_from_str("{}", "{}", "not json").is_ok());
}

#[test]
fn transliteration_ignores_other_members() {
    let mut p = TextProcessor::new(false, false, true, false);
    p.load_from_str(
        "{}",
        "{}",
        r#"{"version":1,"note":"kept","cyrillic_to_latin":{"х":"h"},"extra":[1,2]}"#,
    )
    .unwrap();
    assert_eq!(p.process_text("ah"), "aх");
}

#[test]
fn transliteration_may_be_an_array_of_its_one_member() {
    let mut p = TextProcessor::new(false, false, true, false);
    p.load_from_str("{}", "{}", r#"[{"х":"h"}]"#).unwrap();
    assert_eq!(p.process_text("ah"), "aх");
    assert!(matches!(p.load_from_str("{}", "{}", "[]").unwrap_err(), Error::Json { .. }));
    assert!(matches!(p.load_from_str("{}", "{}", r#"[{"х":"h"},{}]"#).unwrap_err(), Error::Json { .. }));
}

#[test]
fn transliteration_needs_an_object_of_strings() {
    let mut p = TextProcessor::new(false, false, true, false);
    let err = p.load_from_str("{}", "{}", r#"{"cyrillic_to_latin":{"х":1}}"#).unwrap_err();
    assert!(matches!(err, Error::Json { .. }));
    let err = p.load_from_str("{}", "{}", r#"{"version":1}"#).unwrap_err();
    assert!(matches!(err, Error::Json { .. }));
    let err = p.load_from_str("{}", "{}", r#"{"cyrillic_to_latin":"x"}"#).unwrap_err();
    assert!(matches!(err, Error::Json { .. }));
}

#[test]
fn processing_with_every_switch_off_keeps_the_text() {
    let mut p = TextProcessor::new(false, false, false, false);
    p.load_from_str(r#"{"l":{"A":"b"}}"#, r#"{"o":["0"]}"#, "ignored").unwrap();
    assert_eq!(p.process_text("  Ａ0 Ünï_code!  "), "  Ａ0 Ünï_code!  ");
}

#[test]
fn tables_come_from_parsed_values() {
    let cats = vec![
        ("letters".to_string(), vec![("ⓐb".to_string(), "a".to_string()), ("".to_string(), "x".to_string())]),
        ("digits".to_string(), vec![("①".to_string(), "1".to_string())]),
    ];
    assert_eq!(TextProcessor::unicode_table_from(&cats), vec![('ⓐ', 'a'), ('①', '1')]);
    let lists = vec![("o".to_string(), vec!["0".to_string(), "ο".to_string(), "".to_string()])];
    assert_eq!(TextProcessor::homoglyph_table_from(&lists), vec![('0', 'o'), ('ο', 'o')]);
    let section = vec![("хa".to_string(), "h".to_string()), ("".to_string(), "z".to_string())];
    assert_eq!(
        TextProcessor::transliteration_tables_from(&section),
        (vec![('х', "h".to_string())], vec![("h".to_string(), 'х')])
    );
}

#[test]
fn the_model_gets_the_undecided_texts_in_order() {
    let (m, r) = (Decision::Model, Decision::Rules);
    assert_eq!(pending_positions(&[r, m, m, r, m]), vec![1, 2, 4]);
    assert!(pending_positions(&[r, r]).is_empty());
    assert!(pending_positions(&[]).is_empty());
}

#[test]
fn logits_must_fill_every_row() {
    assert!(logits_fit(3, 2, 6));
    assert!(!logits_fit(3, 2, 5));
    assert!(!logits_fit(3, 2, 8));
    assert!(logits_fit(0, 2, 0));
    assert!(logits_fit(4, 0, 0));
    assert!(!logits_fit(4, 0, 1));
    assert!(logits_fit(usize::MAX, 1, usize::MAX));
    assert!(!logits_fit(usize::MAX, 2, usize::MAX - 1));
}

#[test]
fn labels_come_in_index_order() {
    let pairs = vec![("1".to_string(), "toxic".to_string()), ("0".to_string(), "clean".to_string())];
    assert_eq!(ordered_labels(&pairs), Some(strings(&["clean", "toxic"])));
    assert_eq!(ordered_labels(&[]), None);
    let skipped = vec![("x".to_string(), "odd".to_string()), ("2".to_string(), "insult".to_string())];
    assert_eq!(ordered_labels(&skipped), Some(strings(&["insult"])));
}

#[test]
fn fallback_labels_name_the_outputs() {
    assert_eq!(fallback_labels(2), strings(&["clean", "toxic"]));
    assert_eq!(fallback_labels(3), strings(&["label_0", "label_1", "label_2"]));
    assert!(fallback_labels(0).is_empty());
    assert_eq!(fallback_labels(11)[10], "label_10");
}

#[test]
fn label_list_joins_with_commas() {
    assert_eq!(label_list(&strings(&["toxicity", "insult", "threat"])), "toxicity, insult, threat");
    assert_eq!(label_list(&strings(&["one"])), "one");
    assert_eq!(label_list(&[]), "");
}

#[test]
fn parse_usize_accepts_plain_decimals() {
    assert_eq!(parse_usize("0"), Some(0));
    assert_eq!(parse_usize("42"), Some(42));
    assert_eq!(parse_usize("+7"), Some(7));
    assert_eq!(parse_usize(""), None);
    assert_eq!(parse_usize("-1"), None);
    assert_eq!(parse_usize("1a"), None);
    assert_eq!(parse_usize("99999999999999999999999"), None);
}

#[test]
fn activation_follows_the_problem_type() {
    assert_eq!(activation_for(Some("multi_label_classification"), 2), Activation::Sigmoid);
    assert_eq!(activation_for(Some("single_label_classification"), 6), Activation::Softmax);
    assert_eq!(activation_for(None, 2), Activation::Softmax);
    assert_eq!(activation_for(Some("regression"), 6), Activation::Sigmoid);
}

#[test]
fn model_builder_records_its_options() {
    let b = ToxicityModelBuilder::new("models/toxic");
    assert_eq!(b.dir, "models/toxic");
    assert_eq!(b.max_length, DEFAULT_MAX_LENGTH);
    assert_eq!(b.threads, None);
    let b = b.max_length(64).threads(4);
    assert_eq!((b.max_length, b.threads), (64, Some(4)));
}

fn english() -> ProfanityFilter {
    let registry = LanguageRegistry::from_parts(
        vec![LanguageInfo { code: "en".to_string(), name: "English".to_string(), file: "en.txt".to_string() }],
        Vec::new(),
    );
    let source = ResourceSource::InMemory {
        unicode_mappings: "{}".to_string(),
        homoglyphs: "{}".to_string(),
        transliteration: r#"{"cyrillic_to_latin":{}}"#.to_string(),
        languages: Some(registry),
        words: vec![("en".to_string(), "shit\nbadword\n".to_string())],
    };
    ProfanityFilter::builder().source(source).languages(&["en"]).build().unwrap()
}

#[test]
fn an_exact_hit_settles_the_verdict() {
    let f = english();
    let exact = f.find("you are a shit", Options::new());
    assert_eq!(rule_verdict(&exact, Threshold::new(1, 1)), (Score::exact(), Decision::Rules));
    let none = f.find("what a lovely afternoon", Options::new());
    assert_eq!(rule_verdict(&none, Threshold::new(1, 1)), (Score::zero(), Decision::Model));
    let fuzzy = f.find("badwrod", Options::new().threshold(Threshold::new(9, 10)));
    assert_eq!(fuzzy[0].kind, MatchKind::Fuzzy);
    assert_eq!(rule_verdict(&fuzzy, Threshold::new(1, 1)).1, Decision::Model);
    assert_eq!(rule_verdict(&fuzzy, Threshold::new(9, 10)).1, Decision::Rules);
}

#[test]
fn legacy_api_filters_text() {
    let mut f = ProfanityFilter::new_from_embedded(
        "{}",
        "{}",
        r#"{"cyrillic_to_latin":{}}"#,
        vec![("en".to_string(), "shit\nfuck\n".to_string()), ("ru".to_string(), "хуй\n".to_string())],
        strings(&["en", "r2"]),
        true,
        true,
        true,
        true,
    )
    .unwrap();
    assert_eq!(f.get_all_languages(), ["en"]);
    assert_eq!(f.filter_text("hey shit", Threshold::new(1, 1), None), (true, None));
    assert_eq!(f.filter_text("fuck, you", Threshold::new(1, 1), Some('*')), (true, Some("***** you".to_string())));
    assert_eq!(f.filter_text("clean", Threshold::new(1, 1), Some('*')), (false, None));
    assert_eq!(f.init(Some(&strings(&["xx"]))), Err(NotSupportedLanguage));
    assert_eq!(f.get_all_languages(), ["en"]);
    assert_eq!(f.init(None), Ok(()));
    assert_eq!(f.get_all_languages(), ["en", "ru"]);
}

#[test]
fn legacy_api_reports_bad_tables() {
    let r = ProfanityFilter::new_from_embedded("{", "{}", "{}", Vec::new(), Vec::new(), true, true, true, true);
    assert!(matches!(r, Err(Error::Json { .. })));
}

#[test]
fn builder_without_a_source_fails() {
    assert!(matches!(ProfanityFilter::builder().build(), Err(Error::MissingResource { .. })));
}

#[test]
fn normalize_folds_case_and_width() {
    let f = english();
    assert_eq!(f.normalize("ＳＨＩＴ"), "shit");
    assert_eq!(f.processing(), Processing::default());
}

#[test]
fn errors_and_warnings_read_as_sentences() {
    let unknown = Error::UnknownLanguage { code: "xx".to_string(), available: strings(&["de", "en"]) };
    assert_eq!(unknown.to_string(), "unsupported language `xx` (available: de, en)");
    let bare = Error::UnknownLanguage { code: "xx".to_string(), available: Vec::new() };
    assert_eq!(bare.to_string(), "unsupported language `xx`");
    let io = Error::Io { path: "/nonexistent/badwords/data/homoglyphs.json".to_string(), message: "not found".to_string() };
    assert_eq!(io.to_string(), "cannot read `/nonexistent/badwords/data/homoglyphs.json`: not found");
    let json = Error::Json { resource: "languages.json".to_string(), message: "EOF".to_string() };
    assert_eq!(json.to_string(), "cannot parse `languages.json`: EOF");
    assert_eq!(Error::MissingResource { what: "word list".to_string() }.to_string(), "missing resource: word list");
    assert_eq!(Error::InvalidOptions("no".to_string()).to_string(), "invalid options: no");

    let w = badwords_core::LanguageWarning::DeprecatedAlias {
        requested: "lt".to_string(),
        canonical: "es_419".to_string(),
        note: "lt is Lithuanian".to_string(),
    };
    assert_eq!(w.to_string(), "language code `lt` is deprecated, use `es_419`: lt is Lithuanian");
    let w = badwords_core::LanguageWarning::AlreadyLoaded { code: "en".to_string() };
    assert_eq!(w.to_string(), "language `en` was already loaded");
    let w = badwords_core::LanguageWarning::EmptyWordList { code: "en".to_string() };
    assert_eq!(w.to_string(), "language `en` has an empty word list");
    assert_eq!(NotSupportedLanguage.to_string(), "This language is not supported");
}

#[test]
fn enabling_a_detector_keeps_every_match() {
    let mut f = english();
    f.add_words(&["very bad phrase", "badword"]);
    let base = Options::new();
    for text in ["shit happens", "a very bad phrase here", "b4dword and shiiit", "x.badword-y", "", "shit, badword!"] {
        let before = f.find(text, base);
        for widened in [
            base.split_on_punctuation(true),
            base.collapse_repeats(true),
            base.leetspeak(true),
            base.match_mode(badwords_core::MatchMode::Substring),
        ] {
            let after = f.find(text, widened);
            for m in &before {
                assert!(after.iter().any(|w| w.start <= m.start && w.end >= m.end), "{text:?} lost {m:?}");
            }
        }
    }
}

#[test]
fn the_first_match_is_the_first_of_all_matches() {
    let mut f = english();
    f.add_words(&["very bad phrase"]);
    for text in ["", "clean", "shit then a very bad phrase", "a very bad phrase, then shit", "x shit shit"] {
        assert_eq!(f.find_first(text, Options::new()), f.find(text, Options::new()).into_iter().next());
    }
}

#[test]
fn names_for_bindings() {
    assert_eq!(MatchKind::Exact.name(), "exact");
    assert_eq!(MatchKind::Collapsed.name(), "collapsed");
    assert_eq!(MatchKind::Phrase.name(), "phrase");
    assert_eq!(badwords_core::MatchMode::parse("token"), Some(badwords_core::MatchMode::Token));
    assert_eq!(badwords_core::MatchMode::parse("substring"), Some(badwords_core::MatchMode::Substring));
    assert_eq!(badwords_core::MatchMode::parse("Token"), None);
    let w = badwords_core::LanguageWarning::EmptyWordList { code: "en".to_string() };
    assert_eq!(w.kind_name(), "empty_word_list");
}

#[test]
fn words_can_be_added_from_text() {
    let mut f = english();
    f.add_words_from_text("first\n\n  second  \r\n");
    assert!(f.is_profane("first", Options::new()));
    assert!(f.is_profane("second", Options::new()));
    assert!(f.contains_word("second"));
}

#[test]
fn an_empty_filter_matches_nothing() {
    let f = ProfanityFilter::empty(Processing::default());
    assert!(f.available_languages().is_empty());
    assert!(f.loaded_languages().is_empty());
    assert_eq!(f.word_count(), 0);
    assert!(!f.is_profane("shit", Options::new()));
    assert_eq!(f.get_all_languages().len(), 0);
}

#[test]
fn character_set_masks() {
    assert_eq!(char_bit('a'), 1u64 << ('a' as u32 & 63));
    assert_eq!(char_bit('\u{40}'), 1);
    assert_eq!(charset_mask(""), 0);
    assert_eq!(charset_mask("abba"), char_bit('a') | char_bit('b'));
    assert_eq!(charset_mask_chars(&chars("abba")), charset_mask("ab"));
}

#[test]
fn skipping_hopeless_entries_keeps_the_best_fuzzy_match() {
    let mut f = english();
    f.add_words(&["zzzzzzz", "badwore", "qqq", "badwords"]);
    let m = &f.find("badwrod", Options::new().threshold(Threshold::new(9, 10)))[0];
    assert_eq!(m.kind, MatchKind::Fuzzy);
    assert_eq!(m.word, "badword");
}

#[test]
fn jaro_winkler_covers_empty_strings() {
    assert!(jaro_winkler(&[], &[]).is(1, 1));
    assert!(jaro_winkler(&chars("abc"), &[]).is(0, 1));
    assert!(jaro_winkler(&[], &chars("abc")).is(0, 1));
}

#[test]
fn long_inputs_are_scored_exactly() {
    let long: Vec<char> = std::iter::repeat('a').take(70_000).collect();
    let s = jaro_winkler(&long, &chars("a"));
    // One match: (1/70000 + 1/1 + 1) / 3.
    assert!(s.is(140_001, 210_000));
    assert!(s.exceeds(Threshold::new(1, 2)));
    let mut f = english();
    f.add_words(&["a"]);
    let text: String = std::iter::repeat('a').take(70_000).collect();
    let m = f.find(&text, Options::new().threshold(Threshold::new(1, 2)));
    assert_eq!(m.len(), 1);
    assert_eq!(m[0].kind, MatchKind::Fuzzy);
    assert!(m[0].score.is(140_001, 210_000));
}

#[test]
fn whitespace_is_the_unicode_white_space_list() {
    for u in 0u32..0x1_0000 {
        if let Some(c) = char::from_u32(u) {
            assert_eq!(badwords_core::text::is_whitespace(c), c.is_whitespace(), "U+{u:04X}");
        }
    }
    assert!(!badwords_core::text::is_whitespace('\u{10FFFF}'));
}
