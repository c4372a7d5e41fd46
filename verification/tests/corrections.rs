use ayame_spell::corrections::{Corrections, Verdict};

#[test]
fn custom_beats_builtin() {
    let mut c = Corrections::new(true);
    c.insert("teh", &["tea".to_string()]);
    assert_eq!(c.check("teh"), Some(Verdict::Typo(vec!["tea".into()])));
}

#[test]
fn identity_whitelists() {
    let mut c = Corrections::new(true);
    c.insert("recieve", &["recieve".to_string()]);
    assert_eq!(c.check("recieve"), Some(Verdict::Allowed));
    assert_eq!(c.check("RECIEVE"), Some(Verdict::Allowed));
}

#[test]
fn builtin_catches_known_typos() {
    let c = Corrections::new(true);
    match c.check("recieve") {
        Some(Verdict::Typo(fixes)) => assert!(fixes.contains(&"receive".to_string())),
        other => panic!("expected typo verdict, got {other:?}"),
    }
    match c.check("Recieve") {
        Some(Verdict::Typo(fixes)) => assert!(fixes.contains(&"Receive".to_string())),
        other => panic!("expected typo verdict, got {other:?}"),
    }
    assert_eq!(c.check("receive"), None);
}

#[test]
fn builtin_can_be_disabled() {
    let c = Corrections::new(false);
    assert_eq!(c.check("recieve"), None);
}

#[test]
fn tsv_tables_load_comments_and_lists() {
    let mut c = Corrections::new(false);
    let n = c.load_tsv("# comment\nteh\tthe\nfo\tof, for\n\nbroken line\n");
    assert_eq!(n, 2);
    assert_eq!(c.check("teh"), Some(Verdict::Typo(vec!["the".into()])));
    assert_eq!(c.check("Fo"), Some(Verdict::Typo(vec!["Of".into(), "For".into()])));
    assert_eq!(c.check("broken"), None);
}

#[test]
fn fixes_follow_the_case_of_the_word() {
    let mut c = Corrections::new(false);
    c.insert("teh", &["the".to_string()]);
    assert_eq!(c.check("TEH"), Some(Verdict::Typo(vec!["THE".into()])));
    assert_eq!(c.check("Teh"), Some(Verdict::Typo(vec!["The".into()])));
}
