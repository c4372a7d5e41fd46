use ayame_spell::validate::{validate_config_text, validate_keys, ConfigValue};
use ayame_spell::config::{
    EnglishLocale, KatakanaStyleConfig, Mode, OneOrMany, OverrideConfig, RawConfig, SyntaxProfile,
};

#[test]
fn defaults_are_sensible() {
    let c = RawConfig::default().finalize();
    assert_eq!(c.check.mode, Mode::Corrections);
    assert_eq!(c.check.locale, EnglishLocale::Any);
    assert_eq!(c.check.profile, SyntaxProfile::All);
    assert_eq!(c.check.min_word_len, 3);
    assert!(c.corrections.builtin);
    assert!(c.japanese.enabled);
    assert_eq!(c.words.project, "ayame-words.txt");
}

#[test]
fn parse_and_merge() {
    let mut global = RawConfig::default();
    global.words.ignore = vec!["globalword".to_string()];

    let mut project = RawConfig::default();
    project.check.mode = Some(Mode::Dictionary);
    project.check.locale = Some(EnglishLocale::EnGb);
    project.check.profile = Some(SyntaxProfile::Auto);
    project.words.ignore = vec!["projectword".to_string()];
    project.words.dictionaries = vec!["registry:en-base".to_string()];
    project.corrections.words = vec![
        ("teh".to_string(), OneOrMany::One("the".to_string())),
        ("neet".to_string(), OneOrMany::One("neet".to_string())),
    ];
    project.japanese.katakana_style = Some(KatakanaStyleConfig::Long);
    project.overrides = vec![OverrideConfig {
        paths: vec!["docs/**".to_string()],
        mode: Some(Mode::Corrections),
        profile: Some(SyntaxProfile::Prose),
        japanese: None,
    }];

    let c = global.merge(project).finalize();
    assert_eq!(c.check.mode, Mode::Dictionary);
    assert_eq!(c.check.locale, EnglishLocale::EnGb);
    assert_eq!(c.check.profile, SyntaxProfile::Auto);
    assert_eq!(c.words.ignore, ["globalword", "projectword"]);
    let teh = c.corrections.words.iter().find(|(typo, _)| typo == "teh").unwrap();
    assert_eq!(teh.1, vec!["the"]);
    assert_eq!(c.japanese.katakana_style, KatakanaStyleConfig::Long);
    assert_eq!(c.overrides.len(), 1);
}

#[test]
fn later_layers_win_and_lists_accumulate() {
    let mut a = RawConfig::default();
    a.check.mode = Some(Mode::Off);
    a.check.min_word_len = Some(5);
    a.files.exclude = vec!["target/**".to_string()];
    let mut b = RawConfig::default();
    b.check.mode = Some(Mode::Dictionary);
    b.files.exclude = vec!["vendor/**".to_string()];
    let c = a.merge(b).finalize();
    assert_eq!(c.check.mode, Mode::Dictionary);
    assert_eq!(c.check.min_word_len, 5);
    assert!(c.files.exclude.iter().any(|g| g == "target/**"));
    assert!(c.files.exclude.iter().any(|g| g == "vendor/**"));
}

#[test]
fn ignore_words_are_lowercased() {
    let mut raw = RawConfig::default();
    raw.words.ignore = vec!["MixedCase".to_string()];
    let c = raw.finalize();
    assert_eq!(c.words.ignore, ["mixedcase"]);
}

#[test]
fn many_fixes_are_kept_in_order() {
    let mut raw = RawConfig::default();
    raw.corrections.words = vec![(
        "fo".to_string(),
        OneOrMany::Many(vec!["of".to_string(), "for".to_string()]),
    )];
    let c = raw.finalize();
    assert_eq!(c.corrections.words[0].1, vec!["of", "for"]);
}

fn table(entries: Vec<(&str, ConfigValue)>) -> ConfigValue {
    ConfigValue::Table(entries.into_iter().map(|(k, v)| (k.to_string(), v)).collect())
}

#[test]
fn unknown_keys_are_rejected() {
    assert!(validate_config_text("[check]\ntypo-key = 1\n").is_err());
    let value = table(vec![("check", table(vec![("typo-key", ConfigValue::Other)]))]);
    assert!(validate_keys(&value, "").is_err());
}

#[test]
fn config_text_that_is_no_toml_is_refused() {
    assert!(validate_config_text("[check\nmode = ").is_err());
    assert_eq!(validate_config_text("[check]\nmode = \"dictionary\"\n"), Ok(()));
}

#[test]
fn validation_suggests_the_nearest_full_key() {
    let error = validate_config_text("[japanese]\nkatakana-stle = \"long\"\n").unwrap_err();
    assert!(error.contains("unknown config key `japanese.katakana-stle`"));
    assert!(error.contains("did you mean `japanese.katakana-style`?"));
}

#[test]
fn custom_tables_and_overrides_are_validated_where_they_stand() {
    let value = table(vec![
        ("corrections", table(vec![("words", table(vec![("anything-goes", ConfigValue::Other)]))])),
        (
            "overrides",
            ConfigValue::Array(vec![table(vec![("paths", ConfigValue::Other), ("mode", ConfigValue::Other)])]),
        ),
    ]);
    assert!(validate_keys(&value, "").is_ok());
    let bad = table(vec![("overrides", ConfigValue::Array(vec![table(vec![("pathz", ConfigValue::Other)])]))]);
    assert_eq!(
        validate_keys(&bad, "").unwrap_err(),
        "unknown config key `overrides.pathz`; did you mean `overrides.paths`?"
    );
    let far = table(vec![("zzzzzzzzzzzz", ConfigValue::Other)]);
    assert_eq!(validate_keys(&far, "").unwrap_err(), "unknown config key `zzzzzzzzzzzz`");
}

#[test]
fn merged_corrections_stay_in_key_order() {
    let mut global = RawConfig::default();
    global.corrections.words = vec![("zeh".to_string(), OneOrMany::One("the".to_string()))];
    let mut project = RawConfig::default();
    project.corrections.words = vec![
        ("Teh".to_string(), OneOrMany::One("The".to_string())),
        ("abc".to_string(), OneOrMany::One("cab".to_string())),
    ];
    let merged = global.merge(project);
    let keys: Vec<&str> = merged.corrections.words.iter().map(|(k, _)| k.as_str()).collect();
    assert_eq!(keys, vec!["Teh", "abc", "zeh"]);
}
