use std::collections::HashSet;

use ayame_spell::issue::{Issue, IssueKind};

#[test]
fn every_issue_code_has_unique_bilingual_rule_metadata() {
    let mut codes = HashSet::new();
    for kind in IssueKind::all() {
        assert!(codes.insert(kind.code()));
        assert_eq!(IssueKind::from_code(kind.code()), Some(kind));
        for japanese in [false, true] {
            let info = kind.info(japanese);
            assert!(!info.title.is_empty());
            assert!(!info.summary.is_empty());
            assert!(!info.explanation.is_empty());
            assert!(!info.config_key.is_empty());
            assert!(!info.example.is_empty());
            assert!(!info.silence.is_empty());
        }
    }
}

fn issue(kind: IssueKind, word: &str, suggestions: &[&str]) -> Issue {
    Issue {
        line: 1,
        col: 0,
        offset: 0,
        len: word.len(),
        word: word.to_string(),
        kind,
        suggestions: suggestions.iter().map(|s| s.to_string()).collect(),
    }
}

#[test]
fn codes_are_stable() {
    assert_eq!(IssueKind::Typo.code(), "typo");
    assert_eq!(IssueKind::UnknownWord.code(), "unknown-word");
    assert_eq!(IssueKind::JaVariant.code(), "ja-variant");
    assert_eq!(IssueKind::from_code("no-such-code"), None);
}

#[test]
fn safe_fixes() {
    assert_eq!(issue(IssueKind::Typo, "teh", &["the"]).safe_fix(), Some("the"));
    assert_eq!(issue(IssueKind::Typo, "fo", &["of", "for"]).safe_fix(), None);
    assert_eq!(issue(IssueKind::UnknownWord, "zzqq", &["zz"]).safe_fix(), None);
    assert_eq!(issue(IssueKind::HalfwidthKana, "ｶﾅ", &["カナ"]).safe_fix(), Some("カナ"));
}

#[test]
fn messages() {
    assert_eq!(issue(IssueKind::Typo, "teh", &["the"]).message(), "`teh` should be `the`");
    assert_eq!(
        issue(IssueKind::Typo, "fo", &["of", "for"]).message(),
        "`fo` should be one of: `of`, `for`"
    );
    assert_eq!(issue(IssueKind::UnknownWord, "zzqq", &[]).message(), "`zzqq` is not a known word");
    assert_eq!(
        issue(IssueKind::JaVariant, "サーバ", &["サーバー"]).message(),
        "`サーバ` は `サーバー` に統一 (表記ゆれ)"
    );
    assert_eq!(issue(IssueKind::FullwidthSpace, "\u{3000}", &[" "]).message(), "fullwidth space (U+3000)");
}
