use fluent_bundle::FluentArgs;
use fluent_localization::holder::{LanguageDir, LanguageLocalizer, LocalizationHolder};
use fluent_localization::loader::{load_bundle, load_resources_from_folder, RawFile, Resource};

fn raw(name: &str, content: &str) -> RawFile {
    RawFile { name: name.to_string(), content: content.to_string() }
}

fn parse_all(files: Vec<RawFile>) -> Vec<Resource> {
    load_resources_from_folder(&files).unwrap()
}

#[test]
fn load_resources_filters_by_extension() {
    let files = vec![
        raw("main.ftl", "greeting = Hello\n"),
        raw("notes.txt", "not a catalog"),
        raw("extra.ftl", "farewell = Bye\n"),
    ];
    let resources = load_resources_from_folder(&files).unwrap();
    assert_eq!(resources.len(), 2);
    assert_eq!(resources[0].name, "main");
    assert_eq!(resources[1].name, "extra");
}

#[test]
fn parse_failure_reports_line_and_column() {
    let files = vec![raw("bad.ftl", "greeting = Hello\n= broken\n")];
    let err = match load_resources_from_folder(&files) {
        Ok(_) => panic!("a broken catalog must not load"),
        Err(e) => e,
    };
    let message = err.message();
    assert!(message.contains("Failed to load localization file bad.ftl"), "{message}");
    assert!(message.contains(" at "), "{message}");
}

#[test]
fn end_to_end_accessor_renders_with_default_bundle() {
    let defaults = parse_all(vec![raw("main.ftl", "welcome-user = Hello, { $name }!\n")]);
    let dirs = vec![LanguageDir { name: "en_US".to_string(), files: vec![] }];
    let holder = LocalizationHolder::load("en_US".to_string(), &defaults, &dirs).unwrap();
    // the language is unset: an unknown tag falls back to the default bundle
    let localizer = LanguageLocalizer::new(&holder, "zz_ZZ");
    let mut args = FluentArgs::new();
    args.set("name", "Ada");
    assert_eq!(localizer.localize("welcome-user", Some(&args)), "Hello, Ada!");
}

#[test]
fn bundle_override_prefers_language_then_falls_back() {
    let defaults = parse_all(vec![raw("main.ftl", "greeting = Hello\n")]);
    let dirs = vec![
        LanguageDir {
            name: "fr".to_string(),
            files: vec![raw("main.ftl", "greeting = Bonjour\n")],
        },
        LanguageDir { name: "de".to_string(), files: vec![] },
        LanguageDir { name: "en_US".to_string(), files: vec![] },
    ];
    let holder = LocalizationHolder::load("en_US".to_string(), &defaults, &dirs).unwrap();
    let french = LanguageLocalizer::new(&holder, "fr");
    assert_eq!(french.localize("greeting", None), "Bonjour");
    let german = LanguageLocalizer::new(&holder, "de");
    assert_eq!(german.localize("greeting", None), "Hello");
}

#[test]
fn duplicate_keys_fail_bundle_assembly() {
    let defaults = parse_all(vec![raw("main.ftl", "greeting = Hello\n")]);
    let lang = parse_all(vec![
        raw("one.ftl", "greeting = Bonjour\n"),
        raw("two.ftl", "greeting = Salut\n"),
    ]);
    let identifier: unic_langid::LanguageIdentifier = "fr".parse().unwrap();
    let err = match load_bundle("fr", identifier, &defaults, &lang) {
        Ok(_) => panic!("duplicate keys must not load"),
        Err(e) => e,
    };
    assert!(err.message().contains("duplicate test bundle"), "{}", err.message());
    assert!(err.message().contains("fr/"), "{}", err.message());
}

#[test]
fn overriding_the_default_never_errors() {
    let defaults = parse_all(vec![raw("main.ftl", "greeting = Hello\n")]);
    let lang = parse_all(vec![raw("main.ftl", "greeting = Bonjour\n")]);
    let identifier: unic_langid::LanguageIdentifier = "fr".parse().unwrap();
    assert!(load_bundle("fr", identifier, &defaults, &lang).is_ok());
}

#[test]
fn invalid_language_directories_are_skipped() {
    let defaults = parse_all(vec![raw("main.ftl", "greeting = Hello\n")]);
    let dirs = vec![
        LanguageDir { name: "en_US".to_string(), files: vec![] },
        LanguageDir { name: "not a language!".to_string(), files: vec![] },
    ];
    let holder = LocalizationHolder::load("en_US".to_string(), &defaults, &dirs).unwrap();
    assert_eq!(holder.bundles.len(), 1);
    assert_eq!(holder.bundles[0].0, "en_US");
}

#[test]
fn missing_entry_yields_placeholder_text() {
    let defaults = parse_all(vec![raw("main.ftl", "greeting = Hello\n")]);
    let dirs = vec![LanguageDir { name: "en_US".to_string(), files: vec![] }];
    let holder = LocalizationHolder::load("en_US".to_string(), &defaults, &dirs).unwrap();
    let localizer = LanguageLocalizer::new(&holder, "en_US");
    assert_eq!(
        localizer.localize("absent", None),
        "Failed to localize the \"absent\" response."
    );
}

#[test]
fn formatting_errors_yield_placeholder_text() {
    let defaults = parse_all(vec![raw("main.ftl", "welcome-user = Hello, { $name }!\n")]);
    let dirs = vec![LanguageDir { name: "en_US".to_string(), files: vec![] }];
    let holder = LocalizationHolder::load("en_US".to_string(), &defaults, &dirs).unwrap();
    let localizer = LanguageLocalizer::new(&holder, "en_US");
    // no argument named `name` is supplied, so formatting reports an error
    assert_eq!(
        localizer.localize("welcome-user", None),
        "Failed to localize the \"welcome-user\" response."
    );
}

#[test]
fn get_bundle_serves_known_language_directly() {
    let defaults = parse_all(vec![raw("main.ftl", "greeting = Hello\n")]);
    let dirs = vec![
        LanguageDir {
            name: "fr".to_string(),
            files: vec![raw("main.ftl", "greeting = Bonjour\n")],
        },
        LanguageDir { name: "en_US".to_string(), files: vec![] },
    ];
    let holder = LocalizationHolder::load("en_US".to_string(), &defaults, &dirs).unwrap();
    let bundle = holder.get_bundle("fr");
    assert!(bundle.get_message("greeting").is_some());
    let fallback = holder.get_default_bundle();
    assert!(fallback.get_message("greeting").is_some());
}
