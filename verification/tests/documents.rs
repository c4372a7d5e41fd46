use ayame_spell::migrate::{import_prh_text, import_typos_text, plan_cspell, read_cspell_text};

fn strings(v: &[&str]) -> Vec<String> {
    v.iter().map(|s| s.to_string()).collect()
}

#[test]
fn prh_text_translates_like_its_parsed_file() {
    let text = "version: 1\nimports: other.yml\nrules:\n  - expected: JavaScript\n    pattern: /java[- ]?script/i\n    specs: []\n  - expected: サーバー\n    patterns:\n      - サーバ\n      - 3\n      - /x/g\n    pattern: ignored\n  - {}\n  - expected: x\n    pattern:\n      a: 1\n  - expected: y\n    pattern: /(/\n";
    let t = import_prh_text(text).expect("some rules translate");
    let rules: Vec<(&str, &str)> = t.rules.iter().map(|(p, r)| (p.as_str(), r.as_str())).collect();
    assert_eq!(rules, vec![("(?i)java[- ]?script", "JavaScript"), ("サーバ", "サーバー")]);
    assert_eq!(t.untranslated[0], "top-level prh key `imports` is not translated");
    assert_eq!(t.untranslated[1], "rule 1 key `specs` is not translated");
    assert_eq!(t.untranslated[2], "rule 2 pattern 2 is not a string");
    assert_eq!(t.untranslated[4], "rule 3 has no string `expected`");
    assert_eq!(t.untranslated[5], "rule 4 has no string pattern");
    assert_eq!(t.untranslated.len(), 7);
}

#[test]
fn prh_text_without_rules_or_yaml_is_refused() {
    assert_eq!(import_prh_text("version: 1\n").err(), Some("prh file has no `rules` sequence".to_string()));
    assert!(import_prh_text("rules: [\n").is_err());
}

#[test]
fn typos_text_becomes_corrections_and_exclusions() {
    let text = "type = 1\n[default]\nlocale = \"en\"\n[default.extend-words]\nteh = \"the\"\nodd = 1\n[files]\nextend-exclude = [\"vendor/\", 2]\n";
    let plan = import_typos_text(text).unwrap();
    assert_eq!(plan.corrections, vec![("teh".to_string(), "the".to_string())]);
    assert_eq!(plan.exclude, Some(strings(&["vendor/"])));
    assert_eq!(
        plan.untranslated,
        strings(&[
            "default.extend-words.odd is not a string",
            "files.extend-exclude contains a non-string entry",
            "top-level typos key `type` is not translated",
            "typos key `default.locale` is not translated",
        ])
    );
    assert_eq!(import_typos_text("[files]\nextend-exclude = \"target/\"\n").unwrap().exclude, Some(strings(&["target/"])));
    assert!(import_typos_text("[files\n").is_err());
}

#[test]
fn cspell_text_reads_as_json_or_yaml() {
    let json = r#"{"words": ["zeta", " alpha ", ""], "language": "en", "dictionaries": ["TypeScript", "private-team"]}"#;
    let file = read_cspell_text(json, false).unwrap();
    assert_eq!(file.words, strings(&["zeta", " alpha ", ""]));
    let plan = plan_cspell(&file, "# team words\nbeta\nalpha\n");
    assert_eq!(plan.registry, strings(&["registry:typescript-node"]));
    assert_eq!(plan.words_text, "alpha\nbeta\nzeta\n");
    let yaml = "ignorePaths:\n  - dist/\nwords:\n  - zeta\n";
    let file = read_cspell_text(yaml, true).unwrap();
    assert_eq!(file.ignore_paths, strings(&["dist/"]));
    assert_eq!(file.keys, strings(&["ignorePaths", "words"]));
    assert!(read_cspell_text(r#"{"words": "zeta"}"#, false).is_err());
    assert!(read_cspell_text("{", false).is_err());
}
