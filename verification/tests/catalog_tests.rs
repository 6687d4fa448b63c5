use fluent::FluentArgs;
use fluxion::i18n::{I18nError, Language};
use fluxion::catalog::I18n;

#[test]
fn messages_are_found_in_domain_order() {
    let mut t = I18n::empty(Language::Czech);
    assert_eq!(t.language(), Language::Czech);
    t.load_domain("main", "hello = Ahoj\nshared = z main\n".to_string()).unwrap();
    t.load_domain("web", "shared = z web\nweb-only = Web\n".to_string()).unwrap();
    assert_eq!(t.get("hello").unwrap(), "Ahoj");
    assert_eq!(t.get("shared").unwrap(), "z main");
    assert_eq!(t.get("web-only").unwrap(), "Web");
    match t.get("missing") {
        Err(I18nError::KeyNotFound(k)) => assert_eq!(k, "missing"),
        other => panic!("unexpected: {:?}", other),
    }
}

#[test]
fn reloading_a_domain_replaces_it() {
    let mut t = I18n::empty(Language::English);
    t.load_domain("main", "hello = Hello\n".to_string()).unwrap();
    t.load_domain("web", "hello = Hi\n".to_string()).unwrap();
    t.load_domain("main", "bye = Bye\n".to_string()).unwrap();
    // "main" keeps its place in the lookup order but no longer has "hello".
    assert_eq!(t.get("hello").unwrap(), "Hi");
    assert_eq!(t.get("bye").unwrap(), "Bye");
}

#[test]
fn load_errors() {
    let mut t = I18n::empty(Language::English);
    match t.load_domain("main", "= broken".to_string()) {
        Err(I18nError::LoadError(m)) => assert!(m.starts_with("Failed to parse main.ftl: ")),
        other => panic!("unexpected: {:?}", other),
    }
    match t.load_domain("main", "a = 1\na = 2\n".to_string()) {
        Err(I18nError::LoadError(m)) => assert!(m.starts_with("Failed to add resource: ")),
        other => panic!("unexpected: {:?}", other),
    }
    // Nothing was loaded.
    assert!(matches!(t.get("a"), Err(I18nError::KeyNotFound(_))));
}

#[test]
fn arguments_and_format_errors() {
    let mut t = I18n::empty(Language::English);
    t.load_domain("main", "greet = Hello { $name }!\n".to_string()).unwrap();
    let mut args = FluentArgs::new();
    args.set("name", "Ada");
    let text = t.format("greet", Some(&args)).unwrap();
    assert!(text.starts_with("Hello "));
    assert!(text.contains("Ada"));
    match t.get("greet") {
        Err(I18nError::FormatError(m)) => assert!(m.starts_with("Formatting errors: ")),
        other => panic!("unexpected: {:?}", other),
    }
}

#[test]
fn a_term_and_a_message_cannot_share_an_identifier() {
    let mut t = I18n::empty(Language::English);
    match t.load_domain("main", "a = 1\n-a = 2\n".to_string()) {
        Err(I18nError::LoadError(m)) => assert!(m.starts_with("Failed to add resource: ")),
        other => panic!("unexpected: {:?}", other),
    }
    assert!(matches!(t.get("a"), Err(I18nError::KeyNotFound(_))));
}

#[test]
fn a_message_without_a_value_is_not_found() {
    let mut t = I18n::empty(Language::English);
    t.load_domain("main", "only-attr =\n    .title = Title\nplain = Plain\n".to_string())
        .unwrap();
    match t.get("only-attr") {
        Err(I18nError::KeyNotFound(k)) => assert_eq!(k, "only-attr"),
        other => panic!("unexpected: {:?}", other),
    }
    assert_eq!(t.get("plain").unwrap(), "Plain");
}

#[test]
fn terms_are_referenced_but_not_looked_up() {
    let mut t = I18n::empty(Language::English);
    t.load_domain("main", "-brand = Fluxion\nabout = About { -brand }\n".to_string()).unwrap();
    assert!(t.get("about").unwrap().contains("Fluxion"));
    assert!(matches!(t.get("brand"), Err(I18nError::KeyNotFound(_))));
    assert!(matches!(t.get("-brand"), Err(I18nError::KeyNotFound(_))));
}
