use ayame_spell::checker::Checker;
use ayame_spell::config::RawConfig;
use ayame_spell::fixes::apply_fixes;
use ayame_spell::issue::{Issue, IssueKind};

fn issue(offset: usize, word: &str, kind: IssueKind, suggestions: &[&str]) -> Issue {
    Issue {
        line: 1,
        col: offset,
        offset,
        len: word.len(),
        word: word.to_string(),
        kind,
        suggestions: suggestions.iter().map(|s| s.to_string()).collect(),
    }
}

#[test]
fn safe_fixes_are_applied_and_the_rest_left() {
    let text = "teh fo zzq";
    let issues = vec![
        issue(0, "teh", IssueKind::Typo, &["the"]),
        issue(4, "fo", IssueKind::Typo, &["of", "for"]),
        issue(7, "zzq", IssueKind::UnknownWord, &["zzz"]),
    ];
    let (out, applied, left) = apply_fixes(text, &issues);
    assert_eq!(out, "the fo zzq");
    assert_eq!(applied, 1);
    assert_eq!(left.len(), 2);
    assert_eq!(left[0].word, "fo");
}

#[test]
fn overlapping_fixes_are_left() {
    let text = "ｶﾀｶﾅ";
    let issues = vec![
        issue(0, "ｶﾀｶﾅ", IssueKind::HalfwidthKana, &["カタカナ"]),
        issue(3, "ﾀｶﾅ", IssueKind::HalfwidthKana, &["タカナ"]),
    ];
    let (out, applied, left) = apply_fixes(text, &issues);
    assert_eq!(out, "カタカナ");
    assert_eq!(applied, 1);
    assert_eq!(left.len(), 1);
}

#[test]
fn checker_findings_fix_in_place() {
    let checker = Checker::new(&RawConfig::default().finalize()).0;
    let text = "We recieve ﾃﾞｰﾀ.\n";
    let issues = checker.check(text, None);
    let (out, applied, left) = apply_fixes(text, &issues);
    assert_eq!(out, "We receive データ.\n");
    assert_eq!(applied, 2);
    assert!(left.is_empty());
    let (again, n, _) = apply_fixes(&out, &checker.check(&out, None));
    assert_eq!(again, out);
    assert_eq!(n, 0);
}
