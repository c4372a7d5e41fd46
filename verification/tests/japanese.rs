use ayame_spell::issue::{Issue, IssueKind};
use ayame_spell::japanese::{
    consistency_issues, halfwidth_to_fullwidth, number_occurrences, JapaneseChecker,
    JapaneseOptions, KatakanaOcc, KatakanaStyle, RuleEntry,
};

fn checker(style: KatakanaStyle) -> JapaneseChecker {
    JapaneseChecker::new(style, JapaneseOptions::default())
}

fn check(c: &JapaneseChecker, line: &str) -> Vec<Issue> {
    let mut issues = Vec::new();
    c.check_line(line, 1, 0, false, &mut issues, None);
    issues
}

fn rule(pattern: &str, replace: &str) -> RuleEntry {
    RuleEntry::Table {
        pattern: Some(pattern.to_string()),
        replace: Some(replace.to_string()),
    }
}

#[test]
fn long_style_flags_short_forms() {
    let c = checker(KatakanaStyle::Long);
    let issues = check(&c, "サーバの設定");
    assert_eq!(issues.len(), 1);
    assert_eq!(issues[0].word, "サーバ");
    assert_eq!(issues[0].suggestions, ["サーバー"]);
}

#[test]
fn short_style_flags_long_forms() {
    let c = checker(KatakanaStyle::Short);
    let issues = check(&c, "サーバーの設定");
    assert_eq!(issues[0].suggestions, ["サーバ"]);
}

#[test]
fn consistency_style_flags_nothing_per_line() {
    let c = checker(KatakanaStyle::Consistency);
    assert!(check(&c, "サーバの設定とサーバーの設定").is_empty());
}

#[test]
fn consistency_pass_flags_minority() {
    let c = checker(KatakanaStyle::Consistency);
    let mut issues = Vec::new();
    let mut occs: Vec<KatakanaOcc> = Vec::new();
    for (i, line) in ["サーバーを起動", "サーバーを停止", "サーバを再起動"].iter().enumerate() {
        c.check_line(line, i as u32 + 1, 0, false, &mut issues, Some(&mut occs));
    }
    assert!(issues.is_empty());
    let extra = consistency_issues(&occs);
    assert_eq!(extra.len(), 1);
    assert_eq!(extra[0].word, "サーバ");
    assert_eq!(extra[0].suggestions, ["サーバー"]);
    assert_eq!(extra[0].line, 3);
}

#[test]
fn fullwidth_alnum_converted() {
    let c = checker(KatakanaStyle::Off);
    let issues = check(&c, "バージョン１２３ＡＢＣです");
    assert_eq!(issues.len(), 1);
    assert_eq!(issues[0].word, "１２３ＡＢＣ");
    assert_eq!(issues[0].suggestions, ["123ABC"]);
    assert_eq!(issues[0].kind, IssueKind::FullwidthAlnum);
}

#[test]
fn halfwidth_kana_converted() {
    let c = checker(KatakanaStyle::Off);
    let issues = check(&c, "ﾃﾞｰﾀﾍﾞｰｽ接続");
    assert_eq!(issues.len(), 1);
    assert_eq!(issues[0].suggestions, ["データベース"]);
}

#[test]
fn fullwidth_space_policy() {
    let c = checker(KatakanaStyle::Off);
    let mut issues = Vec::new();
    c.check_line("let\u{3000}x = 1;", 1, 0, false, &mut issues, None);
    assert_eq!(issues.len(), 1);
    assert_eq!(issues[0].kind, IssueKind::FullwidthSpace);
    let mut prose_issues = Vec::new();
    c.check_line("\u{3000}字下げされた段落。", 1, 0, true, &mut prose_issues, None);
    assert!(prose_issues.is_empty());
}

#[test]
fn custom_variant_rules() {
    let mut c = checker(KatakanaStyle::Consistency);
    c.add_variant("インタフェース", "インターフェース");
    let issues = check(&c, "インタフェース仕様");
    assert_eq!(issues[0].suggestions, ["インターフェース"]);
}

#[test]
fn compatibility_units_are_normalized() {
    let c = checker(KatakanaStyle::Off);
    let issues = check(&c, "重量は5㎏、面積は2㎡。");
    assert!(issues.iter().any(|issue| issue.word == "㎏" && issue.suggestions == ["kg"]));
    assert!(issues.iter().any(|issue| issue.word == "㎡" && issue.suggestions == ["m2"]));
}

#[test]
fn deeper_document_consistency_is_low_noise() {
    let c = checker(KatakanaStyle::Off);
    let text = "子どもは1,000円を使う。子どもを説明、する。\n子供は一〇〇〇円を使う．\n";
    let issues = c.document_issues(text);
    assert!(issues.iter().any(|issue| issue.word == "子供" && issue.kind == IssueKind::JaVariant));
    assert!(issues
        .iter()
        .any(|issue| issue.word == "一〇〇〇円" && issue.kind == IssueKind::JaNumberStyle));
    assert!(issues.iter().any(|issue| issue.word == "．" && issue.kind == IssueKind::JaPunctuation));
    assert!(c.document_issues("子供だけ。1,000円だけ。").is_empty());
}

#[test]
fn number_occurrences_stream_ascii_and_kanji_forms() {
    let text = "費用は1,000円、予備は42件。比較値は一〇〇〇円。";
    let occurrences = number_occurrences(text);
    let forms: Vec<(&str, &str)> = occurrences
        .iter()
        .map(|occurrence| (occurrence.form.as_str(), occurrence.canonical.as_str()))
        .collect();
    assert_eq!(forms, [("1,000円", "1000円"), ("42件", "42件"), ("一〇〇〇円", "1000円")]);
    for occurrence in occurrences {
        assert_eq!(
            &text[occurrence.offset..occurrence.offset + occurrence.form.len()],
            occurrence.form
        );
    }
}

#[test]
fn regex_variant_rules_support_a_prh_style_subset() {
    let mut c = checker(KatakanaStyle::Off);
    let loaded = c
        .load_variant_text(
            r#"
            [[rules]]
            pattern = "Web ?サイト"
            replace = "ウェブサイト"
            "#,
        )
        .unwrap();
    assert_eq!(loaded, 1, "the [[rules]] array must be read");
    let issues = check(&c, "Web サイトを開く");
    assert_eq!(issues[0].suggestions, ["ウェブサイト"]);
}

#[test]
fn variant_rule_files_round_trip_with_a_leading_array_of_tables() {
    let mut c = checker(KatakanaStyle::Off);
    let loaded = c
        .load_variant_text("[[rules]]\npattern = \"サーバ\"\nreplace = \"サーバー\"\n")
        .unwrap();
    assert_eq!(loaded, 1);
    assert_eq!(check(&c, "サーバを再起動")[0].suggestions, ["サーバー"]);
}

#[test]
fn variant_rule_entries_load_from_parsed_values() {
    let mut c = checker(KatakanaStyle::Off);
    let loaded = c.load_variant_rules(&Vec::new(), &vec![rule("サーバ", "サーバー")]).unwrap();
    assert_eq!(loaded, 1);
    assert_eq!(check(&c, "サーバを再起動")[0].suggestions, ["サーバー"]);
}

#[test]
fn variant_rule_text_that_is_no_toml_loads_nothing() {
    let mut c = checker(KatakanaStyle::Off);
    assert!(c.load_variant_text("[[rules]\npattern = ").is_err());
    assert!(check(&c, "サーバを再起動").is_empty());
    assert_eq!(c.load_variant_text("[variants]\n\"インタフェース\" = \"インターフェース\"\nx = 1\n"), Ok(1));
    assert!(c.load_variant_text("rules = [1]\n").is_err());
}

#[test]
fn bad_rules_stop_loading_with_an_error() {
    let mut c = checker(KatakanaStyle::Off);
    let rules = vec![RuleEntry::NotTable];
    assert!(c.load_variant_rules(&Vec::new(), &rules).is_err());
    let rules = vec![rule("(", "x")];
    assert!(c.load_variant_rules(&Vec::new(), &rules).is_err());
}

#[test]
fn literal_variants_load_from_entries() {
    let mut c = checker(KatakanaStyle::Off);
    let variants = vec![("インタフェース".to_string(), Some("インターフェース".to_string()))];
    assert_eq!(c.load_variant_rules(&variants, &Vec::new()), Ok(1));
    assert_eq!(check(&c, "インタフェース")[0].suggestions, ["インターフェース"]);
}

#[test]
fn halfwidth_runs_combine_sound_marks() {
    assert_eq!(halfwidth_to_fullwidth("ｶﾞｷﾞﾊﾟ"), "ガギパ");
    assert_eq!(halfwidth_to_fullwidth("ｱｲｳ"), "アイウ");
    assert_eq!(halfwidth_to_fullwidth(""), "");
}

#[test]
fn issue_offsets_count_bytes() {
    let c = checker(KatakanaStyle::Long);
    let mut issues = Vec::new();
    c.check_line("新しいサーバ", 4, 100, false, &mut issues, None);
    assert_eq!(issues.len(), 1);
    assert_eq!(issues[0].line, 4);
    assert_eq!(issues[0].col, "新しい".len());
    assert_eq!(issues[0].offset, 100 + "新しい".len());
    assert_eq!(issues[0].len, "サーバ".len());
}

#[test]
fn halfwidth_conversion_is_idempotent() {
    let once = halfwidth_to_fullwidth("ｻｰﾊﾞ ABC ｱｲｳ");
    assert_eq!(once, "サーバ ABC アイウ");
    assert_eq!(halfwidth_to_fullwidth(&once), once);
    assert_eq!(halfwidth_to_fullwidth("サーバー"), "サーバー");
}
