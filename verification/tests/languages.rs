//! Language codes, aliases and the available/loaded split.

use badwords_core::{Error, LanguageInfo, LanguageRegistry, LanguageWarning, Options, ProfanityFilter, ResourceSource};

/// The shipped languages, each with a few entries of its own.
const LANGUAGES: [(&str, &str, &str); 25] = [
    ("cs", "Czech", "kurva\n"),
    ("da", "Danish", "lort\n"),
    ("de", "German", "scheisse\n"),
    ("el", "Greek", "μαλακας\n"),
    ("en", "English", "shit\nfuck\nbitch\ndamn\na55\n5hit\nass\nporn\n"),
    ("es", "Spanish", "mierda\n"),
    ("es_419", "Spanish (Latin America)", "pendejo\n"),
    ("fi", "Finnish", "perkele\n"),
    ("fr", "French", "merde\n"),
    ("hu", "Hungarian", "geci\n"),
    ("id", "Indonesian", "anjing\n"),
    ("it", "Italian", "cazzo\n"),
    ("ja", "Japanese", "くそ\n"),
    ("ko", "Korean", "씨발\n"),
    ("nl", "Dutch", "kut\n"),
    ("no", "Norwegian", "faen\n"),
    ("pl", "Polish", "kurwa\n"),
    ("pt", "Portuguese", "merda\n"),
    ("pt_br", "Portuguese (Brazil)", "caralho\n"),
    ("ro", "Romanian", "pula\n"),
    ("ru", "Russian", "хуй\n"),
    ("sv", "Swedish", "fitta\n"),
    ("th", "Thai", "เหี้ย\n"),
    ("tr", "Turkish", "siktir\n"),
    ("uk", "Ukrainian", "хуйня\n"),
];

fn shipped() -> ResourceSource {
    let languages = LANGUAGES
        .iter()
        .map(|(code, name, _)| LanguageInfo {
            code: code.to_string(),
            name: name.to_string(),
            file: format!("{code}.txt"),
        })
        .collect();
    let mut aliases = Vec::new();
    for (alias, target) in [("cz", "cs"), ("du", "nl"), ("gr", "el"), ("po", "pt"), ("sp", "es"), ("tu", "tr"), ("ua", "uk")] {
        aliases.push((alias.to_string(), target.to_string(), false, String::new()));
    }
    for (alias, target, note) in [
        ("br", "pt_br", "br is Breton in ISO 639-1"),
        ("in", "id", "in is a retired code for Indonesian"),
        ("lt", "es_419", "lt is Lithuanian in ISO 639-1"),
        ("sw", "sv", "sw is Swahili in ISO 639-1"),
    ] {
        aliases.push((alias.to_string(), target.to_string(), true, note.to_string()));
    }
    ResourceSource::InMemory {
        unicode_mappings: "{}".to_string(),
        homoglyphs: "{}".to_string(),
        transliteration: r#"{"cyrillic_to_latin":{}}"#.to_string(),
        languages: Some(LanguageRegistry::from_parts(languages, aliases)),
        words: LANGUAGES.iter().map(|(code, _, words)| (code.to_string(), words.to_string())).collect(),
    }
}

fn filter() -> ProfanityFilter {
    ProfanityFilter::builder().source(shipped()).build().unwrap()
}

#[test]
fn languages_can_be_loaded_twice() {
    let mut f = filter();
    let available_before = f.available_languages().len();

    f.load_languages(&["en"]).expect("first load");
    assert_eq!(f.loaded_languages(), ["en"]);

    f.load_languages(&["ru"]).expect("second load");
    assert_eq!(f.loaded_languages(), ["en", "ru"]);
    assert_eq!(f.available_languages().len(), available_before);
}

#[test]
fn reload_replaces_the_loaded_set() {
    let mut f = filter();
    f.reload_languages(&["en", "ru"]).unwrap();
    f.reload_languages(&["de"]).unwrap();
    assert_eq!(f.loaded_languages(), ["de"]);
}

#[test]
fn unload_drops_only_its_own_words() {
    let mut f = filter();
    f.load_languages(&["en", "ru"]).unwrap();
    assert!(f.is_profane("shit", Options::new()));

    f.unload_languages(&["en"]).unwrap();
    assert_eq!(f.loaded_languages(), ["ru"]);
    assert!(!f.is_profane("shit", Options::new()));
    assert!(f.is_profane("хуй", Options::new()));
}

#[test]
fn iso_codes_and_legacy_aliases_both_resolve() {
    let f = filter();
    for (alias, canonical) in [
        ("sp", "es"),
        ("du", "nl"),
        ("po", "pt"),
        ("gr", "el"),
        ("ua", "uk"),
        ("cz", "cs"),
        ("tu", "tr"),
        ("br", "pt_br"),
        ("in", "id"),
        ("sw", "sv"),
        ("lt", "es_419"),
    ] {
        assert_eq!(f.resolve_language(alias).unwrap(), canonical, "alias {alias}");
        assert_eq!(f.resolve_language(canonical).unwrap(), canonical);
    }
}

#[test]
fn codes_are_normalized_before_lookup() {
    let f = filter();
    for code in ["ES_419", "es-419", " es_419 ", "Es-419"] {
        assert_eq!(f.resolve_language(code).unwrap(), "es_419", "code {code:?}");
    }
}

#[test]
fn misleading_aliases_warn() {
    for (alias, canonical) in [("lt", "es_419"), ("sw", "sv"), ("br", "pt_br"), ("in", "id")] {
        let mut f = filter();
        f.load_languages(&[alias]).unwrap();
        assert_eq!(f.loaded_languages(), [canonical]);

        let warned = f.warnings().iter().any(|w| {
            matches!(w, LanguageWarning::DeprecatedAlias { requested, canonical: c, .. }
                if requested == alias && c == canonical)
        });
        assert!(warned, "no deprecation warning for {alias}");
    }
}

#[test]
fn plain_aliases_do_not_warn() {
    let mut f = filter();
    f.load_languages(&["sp"]).unwrap();
    assert_eq!(f.loaded_languages(), ["es"]);
    assert!(
        !f.warnings().iter().any(|w| matches!(w, LanguageWarning::DeprecatedAlias { .. })),
        "unexpected deprecation warning"
    );
}

#[test]
fn unknown_language_reports_the_code() {
    let mut f = filter();
    match f.load_languages(&["xx"]) {
        Err(Error::UnknownLanguage { code, available }) => {
            assert_eq!(code, "xx");
            assert!(available.contains(&"en".to_string()));
        }
        other => panic!("expected UnknownLanguage, got {other:?}"),
    }
    assert!(f.loaded_languages().is_empty(), "nothing should have loaded");
}

#[test]
fn unknown_language_lists_the_available_codes() {
    let mut f = filter();
    let expected = f.available_languages().to_vec();
    match f.reload_languages(&["en", "zz"]) {
        Err(Error::UnknownLanguage { code, available }) => {
            assert_eq!(code, "zz");
            assert_eq!(available, expected);
        }
        other => panic!("expected UnknownLanguage, got {other:?}"),
    }
    assert_eq!(f.available_languages(), f.registry().canonical_codes().as_slice());
}

#[test]
fn language_codes_cannot_traverse_paths() {
    let mut f = filter();
    for attempt in ["../../../etc/passwd", "../en", "en/../../secret", "/etc/passwd"] {
        assert!(
            matches!(f.load_languages(&[attempt]), Err(Error::UnknownLanguage { .. })),
            "{attempt:?} was not rejected"
        );
    }
}

#[test]
fn every_shipped_language_loads_and_matches_its_own_words() {
    let f = filter();
    let codes: Vec<String> = f.available_languages().to_vec();
    assert_eq!(codes.len(), 25);

    for code in codes {
        let mut one = filter();
        one.load_languages(&[&code]).unwrap();
        assert!(one.word_count() > 0, "{code} loaded no words");
    }
}

#[test]
fn already_loaded_language_warns_and_changes_nothing() {
    let mut f = filter();
    f.load_languages(&["en"]).unwrap();
    let count = f.word_count();
    f.load_languages(&["en"]).unwrap();
    assert_eq!(f.word_count(), count);
    assert!(f.warnings().iter().any(|w| matches!(w, LanguageWarning::AlreadyLoaded { code } if code == "en")));
    f.clear_warnings();
    assert!(f.warnings().is_empty());
}

#[test]
fn empty_word_list_warns() {
    let registry = LanguageRegistry::from_parts(
        vec![LanguageInfo { code: "xx".to_string(), name: "Empty".to_string(), file: "xx.txt".to_string() }],
        Vec::new(),
    );
    let source = ResourceSource::InMemory {
        unicode_mappings: "{}".to_string(),
        homoglyphs: "{}".to_string(),
        transliteration: r#"{"cyrillic_to_latin":{}}"#.to_string(),
        languages: Some(registry),
        words: vec![("xx".to_string(), "\n   \n".to_string())],
    };
    let mut f = ProfanityFilter::builder().source(source).build().unwrap();
    f.load_languages(&["xx"]).unwrap();
    assert_eq!(f.loaded_languages(), ["xx"]);
    assert_eq!(f.word_count(), 0);
    assert!(f.warnings().iter().any(|w| matches!(w, LanguageWarning::EmptyWordList { code } if code == "xx")));
}

#[test]
fn a_failed_load_leaves_the_filter_unchanged() {
    let mut f = filter();
    f.load_languages(&["en"]).unwrap();
    let count = f.word_count();
    assert!(f.load_languages(&["ru", "xx"]).is_err());
    assert_eq!(f.loaded_languages(), ["en"]);
    assert_eq!(f.word_count(), count);
}

#[test]
fn load_all_languages_loads_every_available_language() {
    let mut f = filter();
    f.load_all_languages().unwrap();
    assert_eq!(f.loaded_languages(), f.available_languages());
    assert!(f.is_profane("kurwa", Options::new()));
    assert!(f.is_profane("씨발", Options::new()));
}

#[test]
fn registry_drops_aliases_to_unknown_languages() {
    let registry = LanguageRegistry::from_parts(
        vec![
            LanguageInfo { code: "en".to_string(), name: "English".to_string(), file: "en.txt".to_string() },
            LanguageInfo { code: "de".to_string(), name: "German".to_string(), file: "de.txt".to_string() },
        ],
        vec![
            ("ge".to_string(), "de".to_string(), false, String::new()),
            ("zz".to_string(), "nowhere".to_string(), false, String::new()),
        ],
    );
    assert_eq!(registry.canonical_codes(), vec!["de".to_string(), "en".to_string()]);
    assert_eq!(registry.resolve("ge").unwrap().canonical, "de");
    assert!(matches!(registry.resolve("zz"), Err(Error::UnknownLanguage { .. })));
    assert_eq!(registry.aliases_for("de"), vec!["ge".to_string()]);
    assert_eq!(LanguageRegistry::normalize_code(" PT-BR "), "pt_br");
}

#[test]
fn normalizing_a_code_twice_changes_nothing() {
    for code in ["  EN-us\t", "pt-BR", "en", " ", "Zh-Hant "] {
        let once = LanguageRegistry::normalize_code(code);
        assert_eq!(LanguageRegistry::normalize_code(&once), once);
        assert_eq!(once.trim(), once);
    }
    assert_eq!(LanguageRegistry::normalize_code("  EN-us\t"), "en_us");
}
