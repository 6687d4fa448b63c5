use fluxion::i18n::{I18nError, Language};

#[test]
fn test_language_from_code() {
    assert_eq!(Language::from_code("en").unwrap(), Language::English);
    assert_eq!(Language::from_code("cs").unwrap(), Language::Czech);
    assert_eq!(Language::from_code("EN").unwrap(), Language::English);
    assert!(Language::from_code("fr").is_err());
}

#[test]
fn test_language_code() {
    assert_eq!(Language::English.code(), "en");
    assert_eq!(Language::Czech.code(), "cs");
}

#[test]
fn language_names_and_aliases() {
    assert_eq!(Language::English.display_name(), "English");
    assert_eq!(Language::Czech.display_name(), "Čeština");
    assert_eq!(Language::from_code("Czech").unwrap(), Language::Czech);
    assert_eq!(Language::from_code("CZ").unwrap(), Language::Czech);
    assert_eq!(Language::from_code("english").unwrap(), Language::English);
    assert_eq!(Language::default(), Language::English);
    assert_eq!(Language::ALL, [Language::English, Language::Czech]);
    assert_eq!(Language::Czech.to_string(), "cs");
}

#[test]
fn unsupported_language_keeps_the_code() {
    match Language::from_code("Fr") {
        Err(I18nError::UnsupportedLanguage(code)) => assert_eq!(code, "Fr"),
        other => panic!("unexpected result: {:?}", other),
    }
    let parsed: Result<Language, I18nError> = "cs".parse();
    assert_eq!(parsed.unwrap(), Language::Czech);
}

#[test]
fn error_messages() {
    assert_eq!(
        I18nError::UnsupportedLanguage("fr".to_string()).message(),
        "Unsupported language: fr"
    );
    assert_eq!(
        I18nError::KeyNotFound("k".to_string()).message(),
        "Translation key not found: k"
    );
}
