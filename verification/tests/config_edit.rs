use ayame_spell::config_edit::{
    add_to_string_array_text, remove_from_string_array_text, render_init_config, replace_registry_reference_text,
    set_bool_text, set_correction_text, set_default_string_text,
};

fn strings(v: &[&str]) -> Vec<String> {
    v.iter().map(|s| s.to_string()).collect()
}

#[test]
fn adding_to_an_array_keeps_the_rest_and_skips_present_values() {
    let text = "# team config\n[words]\nignore = [\"a\"] # keep\n";
    let out = add_to_string_array_text(text, "words", "ignore", &strings(&["a", "b", "b", "c"])).unwrap();
    assert!(out.starts_with("# team config\n[words]\n"));
    assert!(out.contains("# keep"));
    assert!(out.contains("\"a\", \"b\", \"c\""));
    let created = add_to_string_array_text("", "files", "exclude", &strings(&["dist/"])).unwrap();
    assert!(created.contains("[files]"));
    assert!(created.contains("exclude = [\"dist/\"]"));
    assert_eq!(
        add_to_string_array_text("words = 1\n", "words", "ignore", &strings(&["x"])).unwrap_err(),
        "[words] is not a table"
    );
    assert_eq!(
        add_to_string_array_text("[words]\nignore = 1\n", "words", "ignore", &strings(&["x"])).unwrap_err(),
        "words.ignore is not an array"
    );
    assert!(add_to_string_array_text("[words\n", "words", "ignore", &strings(&["x"])).is_err());
}

#[test]
fn removing_from_an_array_reports_whether_the_value_was_there() {
    let text = "[words]\ndictionaries = [\"registry:rust\", \"x\", \"registry:rust\"]\n";
    let (out, removed) = remove_from_string_array_text(text, "words", "dictionaries", "registry:rust").unwrap();
    assert!(removed);
    assert!(out.contains("\"x\""));
    assert!(!out.contains("registry:rust"));
    let (same, removed) = remove_from_string_array_text(text, "words", "dictionaries", "none").unwrap();
    assert!(!removed);
    assert_eq!(same, text);
    assert_eq!(remove_from_string_array_text("", "words", "ignore", "x").unwrap(), (String::new(), false));
}

#[test]
fn corrections_defaults_and_flags_are_set() {
    let out = set_correction_text("", "teh", "the").unwrap();
    assert!(out.contains("teh = \"the\""));
    assert_eq!(set_correction_text("corrections = 1\n", "teh", "the").unwrap_err(), "[corrections] is not a table");
    let kept = set_default_string_text("[words]\nproject = \"mine.txt\"\n", "words", "project", "ayame-words.txt").unwrap();
    assert_eq!(kept, "[words]\nproject = \"mine.txt\"\n");
    let set = set_default_string_text("", "words", "project", "ayame-words.txt").unwrap();
    assert!(set.contains("project = \"ayame-words.txt\""));
    assert!(set_bool_text("[japanese]\nenabled = false\n", "japanese", "enabled", true).unwrap().contains("enabled = true"));
}

#[test]
fn registry_references_are_replaced_in_place() {
    let text = "[words]\ndictionaries = [\"registry:rust@1.0.0\", \"local.txt\"]\n";
    let out = replace_registry_reference_text(text, "words", "dictionaries", "rust", "vendor/rust.txt").unwrap();
    assert!(out.contains("\"vendor/rust.txt\""));
    assert!(out.contains("\"local.txt\""));
    assert!(!out.contains("registry:rust"));
    assert!(replace_registry_reference_text("[words]\ndictionaries = [1]\n", "words", "dictionaries", "rust", "x").is_err());
}

#[test]
fn the_init_template_is_filled_in() {
    let template = "[check]\nmode = \"corrections\"\n\n[words]\nproject = \"ayame-words.txt\"\ndictionaries = []\n\n[japanese]\nenabled = true\nkatakana-style = \"consistency\"\n";
    let out = render_init_config(template, "dictionary", "words.txt", &strings(&["rust"]), false, "long", &strings(&["dist/"]))
        .unwrap();
    assert!(out.contains("mode = \"dictionary\""));
    assert!(out.contains("project = \"words.txt\""));
    assert!(out.contains("dictionaries = [\"registry:rust\"]"));
    assert!(out.contains("enabled = false"));
    assert!(out.contains("katakana-style = \"long\""));
    assert!(out.contains("[files]\nexclude = [\"dist/\"]"));
    let plain = render_init_config(template, "corrections", "ayame-words.txt", &Vec::new(), true, "consistency", &Vec::new())
        .unwrap();
    assert!(!plain.contains("[files]"));
}
