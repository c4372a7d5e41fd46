use ayame_spell::config::{defaults, Mode};
use ayame_spell::editor::TextRange;
use ayame_spell::issue::{Issue, IssueKind};
use ayame_spell::language_server::{
    apply_editor_options, code_action_plan, debounce_ms, diagnostic_severity, document_size_limit, fix_all_targets,
    hover_markdown, issue_range, locale_is_japanese, range_contains, ranges_overlap, select_overlapping,
    watch_pattern, ActionPlan, EditorSeverity,
};

fn finding(line: u32, col: usize, word: &str, kind: IssueKind, suggestions: &[&str]) -> Issue {
    Issue {
        line,
        col,
        offset: col,
        len: word.len(),
        word: word.to_string(),
        kind,
        suggestions: suggestions.iter().map(|s| s.to_string()).collect(),
    }
}

fn range(a: u32, b: u32, c: u32, d: u32) -> TextRange {
    TextRange { start_line: a, start_character: b, end_line: c, end_character: d }
}

#[test]
fn finding_ranges_count_utf16_units() {
    let text = "a😀 teh\r\nx";
    let r = issue_range(text, &finding(1, 6, "teh", IssueKind::Typo, &["the"]));
    assert_eq!(r, range(0, 4, 0, 7));
    let past_line = issue_range(text, &finding(2, 5, "zz", IssueKind::Typo, &[]));
    assert_eq!(past_line, range(1, 1, 1, 1));
    let past_text = issue_range(text, &finding(9, 0, "q", IssueKind::Typo, &[]));
    assert_eq!(past_text, range(8, 0, 8, 0));
}

#[test]
fn severities_follow_the_editor_setting() {
    assert_eq!(diagnostic_severity(IssueKind::Typo, None), 2);
    assert_eq!(diagnostic_severity(IssueKind::UnknownWord, None), 3);
    assert_eq!(diagnostic_severity(IssueKind::Typo, Some(EditorSeverity::Hint)), 4);
    assert_eq!(EditorSeverity::Error.lsp(), 1);
}

#[test]
fn editor_settings_have_bounds_and_defaults() {
    assert_eq!(debounce_ms(None), 150);
    assert_eq!(debounce_ms(Some(25)), 25);
    assert_eq!(debounce_ms(Some(60_000)), 5000);
    assert_eq!(document_size_limit(0), 4 * 1024 * 1024);
    assert_eq!(document_size_limit(10), 10);
    assert!(locale_is_japanese(Some("ja-JP")));
    assert!(locale_is_japanese(Some("JA")));
    assert!(!locale_is_japanese(Some("en-US")));
    assert!(!locale_is_japanese(Some("j")));
    assert!(!locale_is_japanese(None));
    assert_eq!(watch_pattern("team.txt"), "**/{ayame-spell.toml,.ayame-spell.toml,team.txt}");
}

#[test]
fn editor_initialization_options_override_discovered_config() {
    let mut loaded = defaults(".");
    apply_editor_options(&mut loaded.config, Some(Mode::Dictionary), Some(false));
    assert_eq!(loaded.config.check.mode, Mode::Dictionary);
    assert!(!loaded.config.japanese.enabled);
    assert_eq!(EditorSeverity::Hint.lsp(), 4);
    assert_eq!(debounce_ms(Some(25)), 25);
    assert!(locale_is_japanese(Some("ja-JP")));
    apply_editor_options(&mut loaded.config, None, None);
    assert_eq!(loaded.config.check.mode, Mode::Dictionary);
}

#[test]
fn positions_and_ranges_compare_by_line_then_column() {
    let r = range(1, 4, 1, 7);
    assert!(range_contains(&r, 1, 4));
    assert!(range_contains(&r, 1, 7));
    assert!(!range_contains(&r, 1, 8));
    assert!(!range_contains(&r, 0, 9));
    assert!(ranges_overlap(&r, &range(1, 7, 2, 0)));
    assert!(!ranges_overlap(&r, &range(1, 8, 1, 9)));
    let ranges = vec![range(0, 0, 0, 1), range(1, 0, 1, 3), range(1, 5, 1, 6), range(1, 8, 1, 9), range(1, 9, 1, 10)];
    assert_eq!(select_overlapping(&ranges, &range(1, 0, 1, 20)), vec![1, 2, 3]);
}

#[test]
fn hover_text_names_the_rule_and_links_its_page() {
    let en = hover_markdown(IssueKind::Typo, false);
    assert!(en.starts_with("### "));
    assert!(en.contains("(`typo`)"));
    assert!(en.contains("**How to silence:**"));
    assert!(en.ends_with("[Rule details](https://hjosugi.github.io/ayame-spell/reference/rules/#typo)"));
    let ja = hover_markdown(IssueKind::JaVariant, true);
    assert!(ja.contains("**設定:**"));
    assert!(ja.ends_with("[ルール詳細](https://hjosugi.github.io/ayame-spell/ja/reference/rules/#ja-variant)"));
}

#[test]
fn quick_fixes_cover_replacements_words_and_directives() {
    let issues = vec![
        finding(1, 0, "teh", IssueKind::Typo, &["the"]),
        finding(2, 0, "サーバ", IssueKind::JaVariant, &["サーバー"]),
        finding(3, 0, "サーバ", IssueKind::JaVariant, &["サーバー"]),
    ];
    let plan = code_action_plan(&issues, &vec![0]);
    let titles: Vec<String> = plan.iter().map(|a| a.title()).collect();
    assert_eq!(
        titles,
        vec![
            "Change to \"the\"",
            "Add \"teh\" to project words",
            "Add \"teh\" to global words",
            "Ignore \"teh\" in this project (ayame-spell.toml)",
            "Add correction \"teh\" → \"the\" to ayame-spell.toml",
            "Ignore findings in this file",
            "Ignore this line",
            "ayame-spell: fix all safe issues in file",
        ]
    );
    assert!(matches!(plan[0], ActionPlan::Replace { issue: 0, preferred: true, .. }));
    assert!(matches!(plan[6], ActionPlan::IgnoreLine { line: 0 }));

    let plan = code_action_plan(&issues, &vec![1]);
    match &plan[1] {
        ActionPlan::NormaliseAll { word, replacement, targets } => {
            assert_eq!(word, "サーバ");
            assert_eq!(replacement, "サーバー");
            assert_eq!(targets, &vec![1, 2]);
        }
        _ => panic!("expected a normalise-all action"),
    }
    assert_eq!(plan[1].title(), "Normalise every \"サーバ\" to \"サーバー\" in this document");

    let unknown = vec![finding(1, 0, "zzq", IssueKind::UnknownWord, &[])];
    let titles: Vec<String> = code_action_plan(&unknown, &vec![0]).iter().map(|a| a.title()).collect();
    assert_eq!(
        titles,
        vec![
            "Add \"zzq\" to project words",
            "Add \"zzq\" to global words",
            "Ignore \"zzq\" in this project (ayame-spell.toml)",
            "Ignore findings in this file",
            "Ignore this line",
        ]
    );
}

#[test]
fn fix_all_takes_each_safe_fix() {
    let issues = vec![
        finding(1, 0, "teh", IssueKind::Typo, &["the"]),
        finding(1, 4, "fo", IssueKind::Typo, &["of", "for"]),
        finding(2, 0, "ｶﾀ", IssueKind::HalfwidthKana, &["カタ"]),
    ];
    assert_eq!(fix_all_targets(&issues), vec![(0, "the".to_string()), (2, "カタ".to_string())]);
}
