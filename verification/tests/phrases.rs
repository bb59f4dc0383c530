//! Multi-word entries.

use badwords_core::{MatchKind, Options, ProfanityFilter, ResourceSource};

fn no_languages() -> ResourceSource {
    ResourceSource::InMemory {
        unicode_mappings: "{}".to_string(),
        homoglyphs: "{}".to_string(),
        transliteration: r#"{"cyrillic_to_latin":{}}"#.to_string(),
        languages: None,
        words: Vec::new(),
    }
}

fn filter() -> ProfanityFilter {
    ProfanityFilter::builder().source(no_languages()).build().unwrap()
}

#[test]
fn phrases_match_inside_a_sentence() {
    let mut f = filter();
    f.add_words(&["very bad phrase"]);

    let text = "please stop, this is a very bad phrase indeed";
    let m = &f.find(text, Options::new())[0];
    assert_eq!(m.matched_text, "very bad phrase");
    assert_eq!(&text[m.start..m.end], "very bad phrase");
}

#[test]
fn censoring_a_phrase_keeps_its_word_structure() {
    let mut f = filter();
    f.add_words(&["very bad phrase"]);
    assert_eq!(f.censor("a very bad phrase here", '*', Options::new()), "a **** *** ****** here");
}

#[test]
fn individual_words_of_a_phrase_are_not_flagged() {
    let mut f = filter();
    f.add_words(&["very bad phrase"]);
    for word in ["very", "bad", "phrase", "very bad", "bad phrase"] {
        assert!(!f.is_profane(word, Options::new()), "{word:?} flagged on its own");
    }
}

#[test]
fn phrases_can_be_turned_off() {
    let mut f = filter();
    f.add_words(&["very bad phrase"]);
    let opts = Options::new().phrases(false);
    assert!(!f.is_profane("a very bad phrase here", opts));
}

#[test]
fn longest_phrase_wins() {
    let mut f = filter();
    f.add_words(&["bad phrase", "bad phrase here"]);
    let m = &f.find("a bad phrase here", Options::new())[0];
    assert_eq!(m.matched_text, "bad phrase here");
}

#[test]
fn a_phrase_is_reported_as_a_phrase() {
    let mut f = filter();
    f.add_words(&["very bad phrase"]);
    let matches = f.find("Very  BAD phrase!", Options::new());
    assert_eq!(matches.len(), 1);
    assert_eq!(matches[0].kind, MatchKind::Phrase);
    assert_eq!(matches[0].word, "very bad phrase");
}
