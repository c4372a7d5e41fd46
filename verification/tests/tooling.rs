use ayame_spell::docs::{help_subcommands, markdown_cell, normalize_help, roff_literal};
use ayame_spell::issue::{Issue, IssueKind};
use ayame_spell::migrate::{
    cspell_dictionary, normalize_prh_pattern, plan_cspell, plan_typos, translate_prh, values_to_add, CspellFile, PrhFile, PrhRule,
    PrhValue, TyposExclude, TyposFile,
};
use ayame_spell::config::RawConfig;
use ayame_spell::registry::{
    config_slot, is_enabled, matches_filters, pinned_version, registry_reference, replace_registry_reference,
    select_release, source_url,
    vendor_extension, DictKind, Entry, Language, Release,
};
use ayame_spell::registry_lock::verify_download;
use ayame_spell::setup::{detected_dictionaries, exclude_globs};
use ayame_spell::words::{collect_findings, merge_word_file, context_snippet, Finding, TriageKind};

#[test]
fn historical_releases_remain_selectable() {
    let entry = Entry {
        name: "fixture".to_string(),
        version: "2.0.0".to_string(),
        language: "en".to_string(),
        kind: "wordlist".to_string(),
        description: "fixture".to_string(),
        provenance: "test".to_string(),
        file: "dicts/fixture-2.txt".to_string(),
        sha256: "22".repeat(32),
        entries: 2,
        versions: vec![
            Release {
                version: "2.0.0".to_string(),
                file: "dicts/fixture-2.txt".to_string(),
                sha256: "22".repeat(32),
                entries: 2,
            },
            Release {
                version: "1.0.0".to_string(),
                file: "dicts/fixture-1.txt".to_string(),
                sha256: "11".repeat(32),
                entries: 1,
            },
        ],
        license: Some("MIT".to_string()),
    };

    let current = select_release(&entry, None).unwrap();
    assert_eq!(current.version, "2.0.0");
    let historical = select_release(&entry, Some("1.0.0")).unwrap();
    assert_eq!(historical.file, "dicts/fixture-1.txt");
    assert_eq!(historical.entries, 1);
    assert!(select_release(&entry, Some("0.1.0")).is_err());
    assert_eq!(
        select_release(&entry, Some("0.1.0")).err().unwrap(),
        "dictionary `fixture` has no version `0.1.0` (current: 2.0.0)"
    );
}

#[test]
fn dictionary_names_map_to_registry_packs() {
    assert_eq!(cspell_dictionary("typescript"), Some("typescript-node"));
    assert_eq!(cspell_dictionary("golang"), Some("go"));
    assert_eq!(cspell_dictionary("private-team"), None);
    assert_eq!(cspell_dictionary("Kubernetes"), Some("docker-k8s"));
}

#[test]
fn context_snippets_are_unicode_safe_and_bounded() {
    let line = format!("  {} tail", "語".repeat(100));
    let snippet = context_snippet(&line);
    assert!(snippet.ends_with('…'));
    assert_eq!(snippet.chars().count(), 97);
}

#[test]
fn short_context_is_only_trimmed() {
    assert_eq!(context_snippet("  teh word \t"), "teh word");
}

#[test]
fn locale_variants_are_available_to_word_triage() {
    assert!(TriageKind::EnVariant.matches(IssueKind::EnVariant));
    assert!(!TriageKind::EnVariant.matches(IssueKind::Typo));
}

#[test]
fn discovers_subcommands_from_clap_help() {
    let help = "Commands:\n  check  Check files\n  words  Word management\n\nOptions:\n";
    assert_eq!(help_subcommands(help), ["check", "words"]);
}

#[test]
fn help_is_left_out_and_deeper_lines_skipped() {
    let help = "Usage: x\nCommands:\n  add  Add\n      continued\n  help  Print help\nOptions:\n  -h\n";
    assert_eq!(help_subcommands(help), ["add"]);
}

#[test]
fn generated_help_has_no_trailing_whitespace() {
    assert_eq!(normalize_help("Usage: tool  \n  path  \n"), "Usage: tool\n  path\n");
}

#[test]
fn roff_literal_escapes_control_lines_and_backslashes() {
    assert_eq!(
        roff_literal(".control\n'control\nC:\\path"),
        "\\&.control\n\\&'control\nC:\\epath"
    );
}

#[test]
fn markdown_cells_escape_pipes_and_line_breaks() {
    assert_eq!(markdown_cell("a|b\nc"), "a\\|b c");
}

#[test]
fn registry_references_enable_dictionaries() {
    let mut raw = RawConfig::default();
    raw.words.dictionaries = vec!["registry:en-base@1.0.0".to_string(), "local.txt".to_string()];
    let config = raw.finalize();
    let mut entry = Entry {
        name: "en-base".to_string(),
        version: "1.0.0".to_string(),
        language: "en".to_string(),
        kind: "wordlist".to_string(),
        description: String::new(),
        provenance: String::new(),
        file: String::new(),
        sha256: String::new(),
        entries: 0,
        versions: Vec::new(),
        license: None,
    };
    assert!(is_enabled(&config, &entry));
    entry.kind = "corrections".to_string();
    assert!(!is_enabled(&config, &entry));
    assert_eq!(Language::Ja.as_str(), "ja");
    assert_eq!(DictKind::Variants.as_str(), "variants");
}

#[test]
fn prh_regex_literals_and_flags_are_normalized() {
    assert_eq!(normalize_prh_pattern("/Web ?サイト/i").unwrap(), "(?i)Web ?サイト");
    assert_eq!(normalize_prh_pattern("C++").unwrap(), "C\\+\\+");
    assert!(normalize_prh_pattern("/word/g").is_err());
}

#[test]
fn plain_prh_literals_keep_their_slashes_escaped_only_when_meta() {
    assert_eq!(normalize_prh_pattern("/").unwrap(), "/");
    assert_eq!(normalize_prh_pattern("/a/").unwrap(), "a");
    assert_eq!(normalize_prh_pattern("a.b").unwrap(), "a\\.b");
}

fn finding(path: &str, line: u32, offset: usize, word: &str, kind: IssueKind, suggestions: &[&str], line_text: &str) -> Finding {
    Finding {
        path: path.to_string(),
        issue: Issue {
            line,
            col: 0,
            offset,
            len: word.len(),
            word: word.to_string(),
            kind,
            suggestions: suggestions.iter().map(|s| s.to_string()).collect(),
        },
        line_text: line_text.to_string(),
    }
}

#[test]
fn collected_words_group_case_insensitively_and_rank_by_count() {
    let findings = vec![
        finding("a.md", 1, 0, "Teh", IssueKind::Typo, &["the"], "  Teh cat  "),
        finding("a.md", 2, 10, "zorp", IssueKind::UnknownWord, &[], "zorp"),
        finding("b.md", 3, 4, "teh", IssueKind::Typo, &["the", "ten"], "teh dog"),
        finding("b.md", 4, 0, "xx", IssueKind::FullwidthSpace, &[], "xx xx"),
        finding("b.md", 5, 2, "abba", IssueKind::UnknownWord, &[], "abba"),
    ];
    let list = collect_findings(&findings);
    let words: Vec<&str> = list.iter().map(|c| c.word.as_str()).collect();
    assert_eq!(words, vec!["teh", "abba", "zorp"]);
    let first = &list[0];
    assert_eq!(first.count, 2);
    assert_eq!(first.example, "a.md:1: Teh cat");
    assert_eq!(first.suggestions, vec!["the".to_string(), "ten".to_string()]);
    let occ: Vec<(&str, usize, usize)> = first.occurrences.iter().map(|o| (o.path.as_str(), o.offset, o.len)).collect();
    assert_eq!(occ, vec![("a.md", 0, 3), ("b.md", 4, 3)]);
    assert_eq!(list[1].count, 1);
    assert_eq!(list[1].example, "b.md:5: abba");
}

#[test]
fn word_files_stay_sorted_and_keep_their_header() {
    let words: Vec<String> = vec!["beta".into(), " alpha ".into(), "".into(), "beta".into()];
    let (out, added) = merge_word_file("", &words);
    assert_eq!(out, "# ayame-spell word file — one word per line.\nalpha\nbeta\n");
    assert_eq!(added, 2);

    let words: Vec<String> = vec!["alpha".into(), "gamma".into()];
    let (out, added) = merge_word_file("# mine\n\nzeta\n# note\n  gamma \n", &words);
    assert_eq!(out, "# mine\n\nalpha\ngamma\nzeta\n");
    assert_eq!(added, 1);

    let (out, added) = merge_word_file("word\r\n", &Vec::new());
    assert_eq!(out, "word\n");
    assert_eq!(added, 0);
}

fn strings(v: &[&str]) -> Vec<String> {
    v.iter().map(|s| s.to_string()).collect()
}

#[test]
fn prh_rules_translate_and_report_what_they_cannot() {
    let file = PrhFile {
        keys: strings(&["version", "rules", "imports"]),
        rules: Some(vec![
            PrhRule {
                keys: strings(&["expected", "pattern", "specs"]),
                expected: Some("JavaScript".to_string()),
                patterns: None,
                pattern: Some(PrhValue::Text("/java[- ]?script/i".to_string())),
            },
            PrhRule {
                keys: strings(&["expected", "patterns"]),
                expected: Some("サーバー".to_string()),
                patterns: Some(PrhValue::List(vec![Some("サーバ".to_string()), None, Some("/x/g".to_string())])),
                pattern: Some(PrhValue::Text("ignored".to_string())),
            },
            PrhRule { keys: Vec::new(), expected: None, patterns: None, pattern: None },
            PrhRule {
                keys: strings(&["expected"]),
                expected: Some("x".to_string()),
                patterns: None,
                pattern: Some(PrhValue::Other),
            },
            PrhRule {
                keys: strings(&["expected", "pattern"]),
                expected: Some("y".to_string()),
                patterns: None,
                pattern: Some(PrhValue::Text("/(/".to_string())),
            },
        ]),
    };
    let t = translate_prh(&file).expect("some rules translate");
    let rules: Vec<(&str, &str)> = t.rules.iter().map(|(p, r)| (p.as_str(), r.as_str())).collect();
    assert_eq!(rules, vec![("(?i)java[- ]?script", "JavaScript"), ("サーバ", "サーバー")]);
    assert_eq!(t.untranslated[0], "top-level prh key `imports` is not translated");
    assert_eq!(t.untranslated[1], "rule 1 key `specs` is not translated");
    assert_eq!(t.untranslated[2], "rule 2 pattern 2 is not a string");
    assert_eq!(t.untranslated[3], "rule 2 pattern `/x/g` is unsupported: only the `i` regex flag is supported");
    assert_eq!(t.untranslated[4], "rule 3 has no string `expected`");
    assert_eq!(t.untranslated[5], "rule 4 has no string pattern");
    assert!(t.untranslated[6].starts_with("rule 5 pattern `(` is unsupported: "));
    assert_eq!(t.untranslated.len(), 7);
}

#[test]
fn prh_files_without_usable_rules_are_refused() {
    let none = PrhFile { keys: strings(&["version"]), rules: None };
    assert_eq!(translate_prh(&none).err(), Some("prh file has no `rules` sequence".to_string()));
    let empty = PrhFile { keys: Vec::new(), rules: Some(Vec::new()) };
    assert_eq!(translate_prh(&empty).err(), Some("no prh rules could be translated".to_string()));
}

#[test]
fn typos_settings_become_corrections_and_exclusions() {
    let file = TyposFile {
        keys: strings(&["default", "files", "type"]),
        default_keys: Some(strings(&["extend-words", "locale"])),
        extend_words: Some(vec![
            ("teh".to_string(), Some("the".to_string())),
            ("odd".to_string(), None),
        ]),
        files_keys: Some(strings(&["extend-exclude"])),
        extend_exclude: Some(TyposExclude::List(vec![Some("vendor/".to_string()), None])),
    };
    let plan = plan_typos(&file);
    assert_eq!(plan.corrections, vec![("teh".to_string(), "the".to_string())]);
    assert_eq!(plan.exclude, Some(strings(&["vendor/"])));
    assert_eq!(
        plan.untranslated,
        strings(&[
            "default.extend-words.odd is not a string",
            "files.extend-exclude contains a non-string entry",
            "top-level typos key `type` is not translated",
            "typos key `default.locale` is not translated",
        ])
    );

    let other = TyposFile {
        keys: strings(&["files"]),
        default_keys: None,
        extend_words: None,
        files_keys: Some(strings(&["extend-exclude"])),
        extend_exclude: Some(TyposExclude::Other),
    };
    let plan = plan_typos(&other);
    assert_eq!(plan.exclude, Some(Vec::new()));
    assert_eq!(plan.untranslated, strings(&["files.extend-exclude is not a string or array"]));

    let one = TyposFile {
        keys: Vec::new(),
        default_keys: None,
        extend_words: None,
        files_keys: None,
        extend_exclude: Some(TyposExclude::Text("target/".to_string())),
    };
    assert_eq!(plan_typos(&one).exclude, Some(strings(&["target/"])));
}

#[test]
fn cspell_settings_map_dictionaries_and_merge_words() {
    let file = CspellFile {
        keys: strings(&["version", "words", "language", "dictionaries"]),
        words: strings(&["zeta", " alpha ", ""]),
        ignore_words: Vec::new(),
        ignore_paths: Vec::new(),
        dictionaries: strings(&["TypeScript", "private-team"]),
    };
    let plan = plan_cspell(&file, "# team words\nbeta\nalpha\n");
    assert_eq!(plan.registry, strings(&["registry:typescript-node"]));
    assert_eq!(plan.words_text, "alpha\nbeta\nzeta\n");
    assert_eq!(
        plan.untranslated,
        strings(&[
            "top-level cSpell key `language` is not translated",
            "cSpell dictionary `private-team` has no ayame-spell registry mapping",
        ])
    );
    let empty = CspellFile {
        keys: Vec::new(),
        words: Vec::new(),
        ignore_words: Vec::new(),
        ignore_paths: Vec::new(),
        dictionaries: Vec::new(),
    };
    assert_eq!(plan_cspell(&empty, "").words_text, "\n");
}

#[test]
fn config_arrays_gain_only_new_values() {
    let existing = strings(&["a", "b"]);
    let values = strings(&["b", "c", "c", "d"]);
    assert_eq!(values_to_add(&existing, &values), strings(&["c", "d"]));
}

#[test]
fn registry_helpers_place_and_name_dictionaries() {
    let mut raw = RawConfig::default();
    raw.words.dictionaries = vec![
        "registry:en-base".to_string(),
        "registry:other@3.0.0".to_string(),
        "registry:en-base@1.2.0".to_string(),
        "registry:en-base@1.5.0".to_string(),
    ];
    let config = raw.finalize();
    assert_eq!(pinned_version(&config, "wordlist", "en-base"), Some("1.2.0".to_string()));
    assert_eq!(pinned_version(&config, "corrections", "en-base"), None);
    assert_eq!(pinned_version(&config, "wordlist", "missing"), None);

    assert_eq!(config_slot("corrections"), Some(("corrections", "extra")));
    assert_eq!(config_slot("variants"), Some(("japanese", "variant-files")));
    assert_eq!(config_slot("other"), None);
    assert_eq!(vendor_extension("wordlist"), Some("txt"));
    assert_eq!(vendor_extension("corrections"), Some("tsv"));
    assert_eq!(vendor_extension("other"), None);
    assert_eq!(
        source_url("https://example.org/registry/index.json", "dicts/a.txt"),
        "https://example.org/registry/dicts/a.txt"
    );
    assert_eq!(source_url("index.json", "a.txt"), "index.json/a.txt");
    assert_eq!(registry_reference("en-base", None), "registry:en-base");
    assert_eq!(registry_reference("en-base", Some("1.0.0")), "registry:en-base@1.0.0");

    let entry = Entry {
        name: "ja-kana".to_string(),
        version: "1.0.0".to_string(),
        language: "ja".to_string(),
        kind: "variants".to_string(),
        description: String::new(),
        provenance: String::new(),
        file: String::new(),
        sha256: String::new(),
        entries: 0,
        versions: Vec::new(),
        license: None,
    };
    assert!(matches_filters(&entry, None, None));
    assert!(matches_filters(&entry, Some(Language::Ja), Some(DictKind::Variants)));
    assert!(!matches_filters(&entry, Some(Language::En), None));
    assert!(!matches_filters(&entry, None, Some(DictKind::Wordlist)));
}

#[test]
fn init_detects_project_dictionaries_in_name_order() {
    assert_eq!(detected_dictionaries(true, true, false), vec!["rust", "web"]);
    assert_eq!(detected_dictionaries(true, false, true), vec!["python", "rust"]);
    assert!(detected_dictionaries(false, false, false).is_empty());
}

#[test]
fn exclude_globs_are_split_at_commas_and_trimmed() {
    assert_eq!(exclude_globs(" generated/** , ,vendor/*,"), strings(&["generated/**", "vendor/*"]));
    assert!(exclude_globs("").is_empty());
    assert!(exclude_globs(" , ").is_empty());
}

#[test]
fn vendoring_rewrites_registry_references_once() {
    let values = strings(&["registry:rust@1.0.0", "local.txt", "registry:rust", "registry:web"]);
    assert_eq!(
        replace_registry_reference(&values, "rust", "dict/rust.txt"),
        strings(&["dict/rust.txt", "local.txt", "registry:web"])
    );
    assert_eq!(
        replace_registry_reference(&strings(&["local.txt"]), "rust", "dict/rust.txt"),
        strings(&["local.txt", "dict/rust.txt"])
    );
}

#[test]
fn downloads_are_checked_against_the_published_digest() {
    let empty_sha = "e3b0c44298fc1c149afbf4c8996fb92427ae41e4649b934ca495991b7852b855";
    assert!(verify_download(b"", empty_sha, "fixture").is_ok());
    assert!(verify_download(b"", &empty_sha.to_uppercase(), "fixture").is_ok());
    assert_eq!(
        verify_download(b"x", empty_sha, "fixture").err(),
        Some(format!(
            "checksum mismatch for fixture (expected {empty_sha}, got 2d711642b726b04401627ca9fbac32f5c8530fb1903cc4db02258717921a4881)"
        ))
    );
}

#[test]
fn registry_search_ignores_case_in_names_and_descriptions() {
    assert!(ayame_spell::registry::search_matches("Rust", "Crates and keywords", "rUST"));
    assert!(ayame_spell::registry::search_matches("web", "Common Web Terms", "terms"));
    assert!(ayame_spell::registry::search_matches("web", "", ""));
    assert!(!ayame_spell::registry::search_matches("web", "terms", "python"));
}

#[test]
fn removal_finds_every_pinned_reference_to_a_dictionary() {
    let references = strings(&["registry:rust@1.2.0", "registry:rust", "rust.txt", "registry:rusty", "registry:web"]);
    assert_eq!(
        ayame_spell::registry::registry_references_to(&references, "rust"),
        strings(&["registry:rust@1.2.0", "registry:rust"])
    );
}

#[test]
fn binary_and_oversized_files_are_recognized() {
    assert!(ayame_spell::text::looks_binary(b"abc\0def"));
    assert!(!ayame_spell::text::looks_binary(b"plain text"));
    let mut late = vec![b'a'; 9000];
    late[8500] = 0;
    assert!(!ayame_spell::text::looks_binary(&late));
    assert!(ayame_spell::text::over_size_limit(10, 11));
    assert!(!ayame_spell::text::over_size_limit(10, 10));
    assert!(!ayame_spell::text::over_size_limit(0, 1_000_000));
}
