use world_smith::i18n::{assets_dir_is_safe, load_translations, I18n, I18nError, LocaleFile};

#[test]
fn empty_keeps_the_default_locale() {
    let mut i18n = I18n::empty("ja-JP");
    assert_eq!(i18n.locale(), "ja-JP");
    i18n.set_locale("en-US");
    assert_eq!(i18n.locale(), "ja-JP");
}

#[test]
fn set_locale_switches_only_to_a_read_locale() {
    let mut i18n = I18n::with_locales(vec!["en-US".to_string(), "ja-JP".to_string()], "ja-JP");
    i18n.set_locale("en-US");
    assert_eq!(i18n.locale(), "en-US");
    i18n.set_locale("fr-FR");
    assert_eq!(i18n.locale(), "en-US");
    i18n.set_locale("en");
    assert_eq!(i18n.locale(), "en-US");
}

#[test]
fn missing_translation_shows_the_key() {
    let i18n = I18n::empty("ja-JP");
    assert_eq!(i18n.tr("menu.file", None), "menu.file");
    assert_eq!(i18n.tr("menu.file", Some("ファイル".to_string())), "ファイル");
}

fn file(stem: &str, inside_dir: bool, source: &str) -> LocaleFile {
    LocaleFile { stem: stem.to_string(), inside_dir, source: source.to_string() }
}

#[test]
fn assets_dir_with_dotdot_is_refused() {
    assert!(assets_dir_is_safe("assets/locales"));
    assert!(assets_dir_is_safe("/opt/app/assets"));
    assert!(!assets_dir_is_safe("assets/../secret"));
    assert!(!assets_dir_is_safe("../assets"));
    assert!(!assets_dir_is_safe("assets..x"));
}

#[test]
fn translations_load_in_file_order() {
    let files = vec![file("en-US", true, "hello = Hello\n"), file("ja-JP", true, "hello = こんにちは\n")];
    let (mut t, resources) = load_translations(&files, "ja-JP").unwrap();
    assert_eq!(t.locale(), "ja-JP");
    assert_eq!(resources.len(), 2);
    assert_eq!(resources[0].name, "en-US");
    assert_eq!(resources[1].name, "ja-JP");
    t.set_locale("en-US");
    assert_eq!(t.locale(), "en-US");
}

#[test]
fn translation_files_are_refused_in_order() {
    let outside = vec![file("en-US", true, "a = b\n"), file("ja-JP", false, "")];
    assert_eq!(load_translations(&outside, "ja-JP").err(), Some(I18nError::OutsideDirectory { index: 1 }));
    let bad_ftl = vec![file("en-US", true, "= broken\n")];
    assert_eq!(load_translations(&bad_ftl, "ja-JP").err(), Some(I18nError::InvalidFtl { index: 0 }));
    let bad_name = vec![file("not a locale!", true, "a = b\n")];
    assert_eq!(load_translations(&bad_name, "ja-JP").err(), Some(I18nError::InvalidLocaleName { index: 0 }));
    let (t, resources) = load_translations(&Vec::new(), "ja-JP").unwrap();
    assert_eq!(t.locale(), "ja-JP");
    assert!(resources.is_empty());
}
