use ayame_spell::config::SyntaxProfile;
use ayame_spell::syntax::mask;

#[test]
fn markdown_masks_code_targets_and_front_matter_keys() {
    let text = "---\ntitle: A recieve guide\nslug: recieve\n---\n\
                Prose recieve and `inline recieve`.\n\
                [recieve label](https://recieve.example)\n\
                ```rust\nlet recieve = 1;\n```\n";
    let masked = mask(text, Some("md"), SyntaxProfile::Auto);
    assert_eq!(masked.len(), text.len());
    assert!(masked.contains("A recieve guide"));
    assert!(masked.contains("Prose recieve"));
    assert!(masked.contains("recieve label"));
    assert!(!masked.contains("inline recieve"));
    assert!(!masked.contains("https://recieve.example"));
    assert!(!masked.contains("let recieve"));
    assert!(!masked.contains("slug:"));
}

#[test]
fn source_masks_identifiers_but_keeps_comments_and_strings() {
    let text = "let recieve = \"recieve string\"; // recieve comment\n\
                /* recieve block */\n";
    let masked = mask(text, Some("rs"), SyntaxProfile::Auto);
    assert_eq!(masked.len(), text.len());
    assert!(!masked.contains("let recieve"));
    assert!(masked.contains("recieve string"));
    assert!(masked.contains("recieve comment"));
    assert!(masked.contains("recieve block"));
}

#[test]
fn all_profile_leaves_text_alone() {
    let text = "let x = `y`; // 日本語\n";
    assert_eq!(mask(text, Some("rs"), SyntaxProfile::All), text);
    assert_eq!(mask(text, None, SyntaxProfile::Auto), text);
}

#[test]
fn masking_keeps_line_breaks_and_widths() {
    let text = "code 日本 `x`\r\nnext\n";
    let masked = mask(text, Some("md"), SyntaxProfile::Prose);
    assert_eq!(masked.len(), text.len());
    assert_eq!(masked.matches('\n').count(), 2);
    assert_eq!(masked.matches('\r').count(), 1);
}
