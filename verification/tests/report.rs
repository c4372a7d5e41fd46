use ayame_spell::issue::{Issue, IssueKind};
use ayame_spell::report::{
    brief_line, column_of, decimal_string, exit_status, explain_text, human_line, output_japanese,
    resolve_format, summary_line, Format, Item, Stats,
};

fn item(line_text: &str, col: usize, word: &str, suggestions: &[&str]) -> Item {
    Item {
        issue: Issue {
            line: 3,
            col,
            offset: 40 + col,
            len: word.len(),
            word: word.to_string(),
            kind: IssueKind::Typo,
            suggestions: suggestions.iter().map(|s| s.to_string()).collect(),
        },
        line_text: line_text.to_string(),
    }
}

#[test]
fn finding_lines() {
    let it = item("日本 teh", 7, "teh", &["the", "tea"]);
    assert_eq!(column_of("日本 teh", 7), 4);
    assert_eq!(column_of("日本 teh", 1), 2);
    assert_eq!(brief_line("a.md", &it), "a.md:3:4: teh -> the,tea");
    assert_eq!(human_line("a.md", &it, false), "a.md:3:4: teh → the, tea [typo]");
    assert_eq!(
        human_line("a.md", &it, true),
        "a.md:3:4: \x1b[31mteh\x1b[0m → \x1b[32mthe\x1b[0m, \x1b[32mtea\x1b[0m \x1b[2m[typo]\x1b[0m"
    );
    let bare = item("zzq", 0, "zzq", &[]);
    assert_eq!(human_line("b.rs", &bare, false), "b.rs:3:1: zzq [typo]");
}

#[test]
fn summaries_and_exit_status() {
    let stats = Stats { checked: 12, skipped_binary: 1, skipped_large: 0 };
    assert_eq!(
        summary_line(2, 1, &stats, true, 3),
        "2 issue(s) in 1 file(s) — 12 file(s) checked, 3 fixed, 1 binary file(s) skipped"
    );
    let none = Stats::default();
    assert_eq!(summary_line(0, 0, &none, false, 0), "0 issue(s) in 0 file(s) — 0 file(s) checked");
    assert_eq!(exit_status(0), 0);
    assert_eq!(exit_status(5), 1);
    assert_eq!(decimal_string(1024), "1024");
}

#[test]
fn formats_and_languages() {
    assert_eq!(resolve_format(Some(Format::Json), true), Format::Json);
    assert_eq!(resolve_format(None, true), Format::Github);
    assert_eq!(resolve_format(None, false), Format::Human);
    assert!(output_japanese(None, Some("JA_JP.UTF-8")));
    assert!(!output_japanese(None, Some("en_US.UTF-8")));
    assert!(!output_japanese(None, None));
    assert!(output_japanese(Some(true), None));
}

#[test]
fn rule_explanations() {
    let text = explain_text("typo", false).unwrap();
    assert!(text.starts_with("typo — Known misspelling\n\n"));
    assert!(text.contains("\nHow to silence: "));
    let ja = explain_text("typo", true).unwrap();
    assert!(ja.contains("\n無視する方法: "));
    assert_eq!(explain_text("nope", false).unwrap_err(), "unknown issue code `nope`; run `ayame-spell rules`");
}
