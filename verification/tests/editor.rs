use ayame_spell::editor::{
    apply_content_changes, comment_style, directive_line, directive_suffix, position_to_offset,
    CommentStyle, ContentChange, TextRange,
};

fn range(sl: u32, sc: u32, el: u32, ec: u32) -> Option<TextRange> {
    Some(TextRange { start_line: sl, start_character: sc, end_line: el, end_character: ec })
}

#[test]
fn incremental_changes_use_utf16_positions() {
    let mut text = "a😀b\nteh\n".to_string();
    apply_content_changes(
        &mut text,
        vec![
            ContentChange { range: range(0, 1, 0, 3), text: "🙂".to_string() },
            ContentChange { range: range(1, 0, 1, 3), text: "the".to_string() },
        ],
    )
    .unwrap();
    assert_eq!(text, "a🙂b\nthe\n");

    let mut invalid = text.clone();
    assert!(apply_content_changes(
        &mut invalid,
        vec![ContentChange { range: range(0, 2, 0, 3), text: String::new() }]
    )
    .is_err());
}

#[test]
fn full_replacements_and_errors() {
    let mut text = "old".to_string();
    apply_content_changes(&mut text, vec![ContentChange { range: None, text: "new".to_string() }]).unwrap();
    assert_eq!(text, "new");
    let err = apply_content_changes(
        &mut text,
        vec![
            ContentChange { range: range(0, 0, 0, 1), text: "N".to_string() },
            ContentChange { range: range(0, 2, 0, 1), text: String::new() },
            ContentChange { range: None, text: "never".to_string() },
        ],
    )
    .unwrap_err();
    assert_eq!(err, "incremental edit range is reversed");
    assert_eq!(text, "New");
    let err = apply_content_changes(&mut text, vec![ContentChange { range: range(5, 0, 5, 0), text: String::new() }])
        .unwrap_err();
    assert_eq!(err, "incremental edit start is outside the document");
}

#[test]
fn positions_map_to_byte_offsets() {
    let text = "a😀b\nteh";
    assert_eq!(position_to_offset(text, 0, 0), Some(0));
    assert_eq!(position_to_offset(text, 0, 1), Some(1));
    assert_eq!(position_to_offset(text, 0, 2), None);
    assert_eq!(position_to_offset(text, 0, 3), Some(5));
    assert_eq!(position_to_offset(text, 0, 4), Some(6));
    assert_eq!(position_to_offset(text, 0, 5), None);
    assert_eq!(position_to_offset(text, 1, 3), Some(10));
    assert_eq!(position_to_offset(text, 2, 0), None);
}

#[test]
fn directives_follow_the_comment_style() {
    assert_eq!(comment_style("/docs/Guide.MD"), CommentStyle::Html);
    assert_eq!(comment_style("/x/run.py"), CommentStyle::Hash);
    assert_eq!(comment_style("/x/main.rs"), CommentStyle::Slash);
    assert_eq!(comment_style("/x/Makefile"), CommentStyle::Slash);
    assert_eq!(directive_line("/a.md", "ayame-spell:ignore-next-line"), "<!-- ayame-spell:ignore-next-line -->\n");
    assert_eq!(directive_line("/a.toml", "x"), "# x\n");
    assert_eq!(directive_line("/a.rs", "x"), "// x\n");
    assert_eq!(directive_suffix("/a.yml"), " # ayame-spell:ignore-line");
    assert_eq!(directive_suffix("/a.html"), " <!-- ayame-spell:ignore-line -->");
}
