//! The whitelist: the lever for suppressing a rule that fires wrongly.

use badwords_core::{LanguageInfo, LanguageRegistry, MatchMode, Options, ProfanityFilter, ResourceSource, Threshold};

fn shipped() -> ResourceSource {
    let registry = LanguageRegistry::from_parts(
        vec![LanguageInfo { code: "en".to_string(), name: "English".to_string(), file: "en.txt".to_string() }],
        Vec::new(),
    );
    ResourceSource::InMemory {
        unicode_mappings: "{}".to_string(),
        homoglyphs: "{}".to_string(),
        transliteration: r#"{"cyrillic_to_latin":{}}"#.to_string(),
        languages: Some(registry),
        words: vec![("en".to_string(), "shit\nfuck\nbitch\ndamn\nass\n".to_string())],
    }
}

#[test]
fn whitelisted_words_are_never_reported() {
    let mut f = ProfanityFilter::builder().source(shipped()).languages(&["en"]).build().unwrap();
    let opts = Options::new();

    assert!(f.is_profane("damn", opts));
    f.add_whitelist(&["damn"]);
    assert!(!f.is_profane("damn", opts));
    assert!(f.is_whitelisted("damn"));

    f.remove_whitelist(&["damn"]);
    assert!(f.is_profane("damn", opts));
}

#[test]
fn whitelist_is_normalized_like_everything_else() {
    let mut f = ProfanityFilter::builder().source(shipped()).languages(&["en"]).build().unwrap();
    f.add_whitelist(&["DAMN"]);
    assert!(!f.is_profane("damn", Options::new()));
    assert!(!f.is_profane("Damn!", Options::new()));
}

#[test]
fn whitelist_suppresses_substring_matches() {
    let mut f = ProfanityFilter::builder().source(shipped()).build().unwrap();
    f.add_words(&["ass"]);
    let opts = Options::new().match_mode(MatchMode::Substring).min_substring_len(3);

    assert!(f.is_profane("classic", opts));
    f.add_whitelist(&["classic"]);
    assert!(!f.is_profane("classic", opts));
    assert!(f.is_profane("assess", opts));
}

#[test]
fn whitelist_suppresses_fuzzy_matches() {
    let mut f = ProfanityFilter::builder().source(shipped()).build().unwrap();
    f.add_words(&["badword"]);
    let opts = Options::new().threshold(Threshold::new(9, 10));

    assert!(f.is_profane("badwrod", opts));
    f.add_whitelist(&["badwrod"]);
    assert!(!f.is_profane("badwrod", opts));
}

#[test]
fn whitelist_suppresses_phrases() {
    let mut f = ProfanityFilter::builder().source(shipped()).build().unwrap();
    f.add_words(&["very bad phrase"]);
    assert!(f.is_profane("a very bad phrase", Options::new()));

    f.add_whitelist(&["bad"]);
    assert!(!f.is_profane("a very bad phrase", Options::new()));
}

#[test]
fn clearing_the_whitelist_restores_matching() {
    let mut f = ProfanityFilter::builder().source(shipped()).languages(&["en"]).build().unwrap();
    f.add_whitelist(&["damn"]);
    assert!(!f.is_profane("damn", Options::new()));
    f.clear_whitelist();
    assert!(f.is_profane("damn", Options::new()));
}

#[test]
fn builder_accepts_a_whitelist() {
    let f = ProfanityFilter::builder().source(shipped()).languages(&["en"]).whitelist(&["damn"]).build().unwrap();
    assert!(!f.is_profane("damn", Options::new()));
}
