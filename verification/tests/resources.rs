//! Resource contents handed over in memory.

use badwords_core::{Error, Options, Processing, ProfanityFilter, ResourceSource};

#[test]
fn malformed_tables_are_an_error() {
    let source = ResourceSource::InMemory {
        unicode_mappings: "{ not json".to_string(),
        homoglyphs: "{}".to_string(),
        transliteration: r#"{"cyrillic_to_latin":{}}"#.to_string(),
        languages: None,
        words: Vec::new(),
    };
    let err = ProfanityFilter::from_source(source, Processing::default()).expect_err("should fail");
    assert!(matches!(err, Error::Json { .. }), "got {err:?}");
}

#[test]
fn in_memory_resources_work() {
    let words = vec![("en".to_string(), "badword\nanother".to_string())];

    let source = ResourceSource::InMemory {
        unicode_mappings: "{}".to_string(),
        homoglyphs: "{}".to_string(),
        transliteration: r#"{"cyrillic_to_latin":{}}"#.to_string(),
        languages: None,
        words,
    };
    let mut f = ProfanityFilter::from_source(source, Processing::default()).unwrap();
    f.load_all_languages().unwrap();

    assert_eq!(f.loaded_languages(), ["en"]);
    assert!(f.is_profane("badword", Options::new()));
}

#[test]
fn byte_order_marks_are_stripped() {
    let words = vec![("en".to_string(), "\u{feff}badword\nsecond".to_string())];

    let source = ResourceSource::InMemory {
        unicode_mappings: "{}".to_string(),
        homoglyphs: "{}".to_string(),
        transliteration: r#"{"cyrillic_to_latin":{}}"#.to_string(),
        languages: None,
        words,
    };
    let mut f = ProfanityFilter::from_source(source, Processing::none()).unwrap();
    f.load_all_languages().unwrap();
    assert!(f.contains_word("badword"));
}

#[test]
fn a_transliteration_table_without_its_key_is_an_error() {
    let source = ResourceSource::InMemory {
        unicode_mappings: "{}".to_string(),
        homoglyphs: "{}".to_string(),
        transliteration: "{}".to_string(),
        languages: None,
        words: Vec::new(),
    };
    assert!(ProfanityFilter::from_source(source, Processing::default()).is_err());
}

#[test]
fn word_lists_are_found_by_file_name_or_stem() {
    let source = ResourceSource::InMemory {
        unicode_mappings: "{}".to_string(),
        homoglyphs: "{}".to_string(),
        transliteration: "{}".to_string(),
        languages: None,
        words: vec![("de".to_string(), "a".to_string()), ("pt_br.txt".to_string(), "b".to_string())],
    };
    assert_eq!(source.word_list("de.txt"), Some("a"));
    assert_eq!(source.word_list("pt_br.txt"), Some("b"));
    assert_eq!(source.word_list("en.txt"), None);
    assert_eq!(source.word_list_files(), vec!["de.txt".to_string(), "pt_br.txt".to_string()]);
    assert_eq!(badwords_core::resources::strip_txt("ru.txt"), "ru");
}

fn two_lists() -> ResourceSource {
    ResourceSource::InMemory {
        unicode_mappings: "{}".to_string(),
        homoglyphs: "{}".to_string(),
        transliteration: r#"{"cyrillic_to_latin":{}}"#.to_string(),
        languages: None,
        words: vec![("de".to_string(), "scheisse\n".to_string()), ("pt_br.txt".to_string(), "merda\n".to_string())],
    }
}

#[test]
fn building_succeeds_exactly_when_the_requested_languages_exist() {
    let f = ProfanityFilter::builder().source(two_lists()).languages(&["DE", " pt-BR "]).build().unwrap();
    assert_eq!(f.loaded_languages(), ["de".to_string(), "pt_br".to_string()]);
    assert!(matches!(
        ProfanityFilter::builder().source(two_lists()).languages(&["de", "fr"]).build(),
        Err(Error::UnknownLanguage { .. })
    ));
    assert!(ProfanityFilter::builder().source(two_lists()).all_languages().build().is_ok());
    assert!(ProfanityFilter::builder().source(two_lists()).build().is_ok());
    assert!(matches!(ProfanityFilter::builder().build(), Err(Error::MissingResource { .. })));
}

#[test]
fn embedded_constructor_loads_the_lettered_codes_it_has() {
    let words = || vec![("en".to_string(), "badword\n".to_string())];
    let f = ProfanityFilter::new_from_embedded("{}", "{}", "{}", words(), vec!["EN".to_string(), "x1".to_string()], true, true, false, true)
        .unwrap();
    assert!(f.contains_word("badword"));
    let missing =
        ProfanityFilter::new_from_embedded("{}", "{}", "{}", words(), vec!["fr".to_string()], true, true, false, true);
    assert!(matches!(missing, Err(Error::UnknownLanguage { .. })));
    let broken = ProfanityFilter::new_from_embedded("[", "{}", "{}", words(), Vec::new(), true, true, false, true);
    assert!(matches!(broken, Err(Error::Json { .. })));
}
