use ayame_spell::checker::Checker;
use ayame_spell::config::{EnglishLocale, Mode, OneOrMany, OverrideConfig, RawConfig, SyntaxProfile};
use ayame_spell::issue::IssueKind;

fn checker_with(edit: impl FnOnce(&mut RawConfig)) -> Checker {
    let mut raw = RawConfig::default();
    edit(&mut raw);
    let config = raw.finalize();
    Checker::new(&config).0
}

fn default_checker() -> Checker {
    checker_with(|_| {})
}

#[test]
fn corrections_mode_end_to_end() {
    let c = default_checker();
    let issues = c.check("We recieve data,\nthen send it back.\n", None);
    assert_eq!(issues.len(), 1);
    assert_eq!(issues[0].word, "recieve");
    assert_eq!(issues[0].kind, IssueKind::Typo);
    assert_eq!(issues[0].line, 1);
    assert_eq!(issues[0].col, 3);
    assert!(issues[0].suggestions.contains(&"receive".to_string()));
}

#[test]
fn ignore_list_and_inline_whitelist() {
    let c = checker_with(|raw| raw.words.ignore = vec!["recieve".to_string()]);
    assert!(c.check("recieve", None).is_empty());
    let c = checker_with(|raw| {
        raw.corrections.words = vec![("recieve".to_string(), OneOrMany::One("recieve".to_string()))]
    });
    assert!(c.check("recieve", None).is_empty());
}

#[test]
fn directives() {
    let c = default_checker();
    assert!(c.check("recieve everything # ayame-spell:ignore-file\nrecieve\n", None).is_empty());
    assert!(c.check("# ayame-spell:ignore-next-line\nrecieve\n", None).is_empty());
    assert!(c.check("recieve # ayame-spell:ignore-line\n", None).is_empty());
}

#[test]
fn only_the_first_directive_of_a_line_counts() {
    let c = default_checker();
    let issues = c.check("recieve ayame-spell:other ayame-spell:ignore-line\n", None);
    assert_eq!(issues.len(), 1);
    let issues = c.check("# ayame-spell:ignore-next-line\nrecieve\nrecieve\n", None);
    assert_eq!(issues.len(), 1);
    assert_eq!(issues[0].line, 3);
}

#[test]
fn dictionary_mode_flags_unknown_words() {
    let mut c = checker_with(|raw| raw.check.mode = Some(Mode::Dictionary));
    c.add_wordlist("hello\nworld\nreceive\n");
    let issues = c.check("hello zzqqy\n", None);
    assert!(issues.iter().any(|i| i.kind == IssueKind::UnknownWord));
    assert!(c.check("hello world RECV\n", None).is_empty());
}

#[test]
fn english_locale_flags_only_the_opposite_variant() {
    let us = checker_with(|raw| raw.check.locale = Some(EnglishLocale::EnUs));
    let issues = us.check("color and colour\n", None);
    assert_eq!(issues.len(), 1);
    assert_eq!(issues[0].kind, IssueKind::EnVariant);
    assert_eq!(issues[0].word, "colour");
    assert_eq!(issues[0].suggestions, ["color"]);

    let gb = checker_with(|raw| raw.check.locale = Some(EnglishLocale::EnGb));
    let issues = gb.check("color and colour\n", None);
    assert_eq!(issues.len(), 1);
    assert_eq!(issues[0].word, "color");
    assert_eq!(issues[0].suggestions, ["colour"]);
    assert!(default_checker().check("color and colour\n", None).is_empty());
}

#[test]
fn syntax_profiles_keep_offsets_while_reducing_source_noise() {
    let checker = checker_with(|raw| raw.check.profile = Some(SyntaxProfile::Auto));
    let source = "let recieve = 1; // recieve comment\n";
    let issues = checker.check(source, Some("src/main.rs"));
    assert_eq!(issues.len(), 1);
    assert_eq!(issues[0].offset, source.rfind("recieve").unwrap());

    let markdown = "Prose recieve. `code recieve`\n";
    let issues = checker.check(markdown, Some("guide.md"));
    assert_eq!(issues.len(), 1);
    assert_eq!(issues[0].offset, markdown.find("recieve").unwrap());
}

#[test]
fn japanese_consistency_end_to_end() {
    let c = default_checker();
    let text = "サーバーを起動する。\nサーバーを停止する。\n古いサーバを削除する。\n";
    let issues = c.check(text, None);
    assert_eq!(issues.len(), 1);
    assert_eq!(issues[0].word, "サーバ");
    assert_eq!(issues[0].suggestions, ["サーバー"]);
    assert_eq!(issues[0].line, 3);
}

#[test]
fn overrides_switch_mode_by_glob() {
    let c = checker_with(|raw| {
        raw.check.mode = Some(Mode::Corrections);
        raw.overrides = vec![OverrideConfig {
            paths: vec!["docs/**".to_string()],
            mode: Some(Mode::Off),
            profile: None,
            japanese: None,
        }];
    });
    let text = "recieve\n";
    assert!(!c.check(text, Some("src/main.rs")).is_empty());
    assert!(c.check(text, Some("docs/guide.md")).is_empty());
}

#[test]
fn prose_extension_detection_for_fullwidth_space() {
    let c = default_checker();
    let text = "\u{3000}全角スペースで字下げ。\n";
    assert!(c.check(text, Some("novel.md")).is_empty());
    assert!(!c.check(text, Some("main.rs")).is_empty());
}

#[test]
fn every_reported_span_is_the_word_at_its_offset() {
    let checker = default_checker();
    for text in [
        "We recieve 日本語 data\r\nｶﾀｶﾅ and ＡＢＣ\n\u{3000}teh end",
        "サーバーとサーバ、子供と子ども。1,000円と一〇〇〇円。",
        "",
        "\n\n\r\n",
    ] {
        for issue in checker.check(text, None) {
            let end = issue.offset + issue.len;
            assert!(end <= text.len());
            assert!(text.is_char_boundary(issue.offset));
            assert!(text.is_char_boundary(end));
            assert_eq!(&text[issue.offset..end], issue.word.as_str());
        }
    }
}

#[test]
fn findings_come_sorted_by_offset() {
    let c = default_checker();
    let issues = c.check("teh ｶﾅ recieve\nサーバーとサーバーとサーバ teh\n", None);
    assert!(issues.len() >= 3);
    assert!(issues.windows(2).all(|w| w[0].offset <= w[1].offset));
}

#[test]
fn every_check_off_reports_nothing() {
    let c = checker_with(|raw| {
        raw.check.mode = Some(Mode::Off);
        raw.japanese.enabled = Some(false);
    });
    assert!(c.check("recieve ｶﾅ\n", None).is_empty());
}

#[test]
fn allowed_words_silence_japanese_findings_too() {
    let mut c = default_checker();
    c.allow_words(&vec!["ｶﾅ".to_string()]);
    assert!(c.check("ｶﾅ\n", None).is_empty());
}

#[test]
fn allowed_word_files_are_trimmed_and_lowercased() {
    let mut c = default_checker();
    c.add_allowed_text("# team words\n  Recieve  \n");
    assert!(c.check("recieve\n", None).is_empty());
}

#[test]
fn invalid_override_globs_are_warned_about() {
    let mut raw = RawConfig::default();
    raw.overrides = vec![OverrideConfig {
        paths: vec!["docs/[".to_string()],
        mode: Some(Mode::Off),
        profile: None,
        japanese: None,
    }];
    let (_, warnings) = Checker::new(&raw.finalize());
    assert_eq!(warnings.len(), 1);
    assert!(warnings[0].starts_with("invalid override glob `docs/[`: "));
}

#[test]
fn correction_tables_can_be_added() {
    let mut c = default_checker();
    assert_eq!(c.add_corrections_tsv("zorp\tzap\n"), 1);
    let issues = c.check("zorp\n", None);
    assert_eq!(issues.len(), 1);
    assert_eq!(issues[0].suggestions, ["zap"]);
}
