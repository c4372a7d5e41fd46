use ayame_spell::file_uri::{
    from_directory_path, from_path, path_of_uri, strip_drive_prefix, to_path, uri_text_of_path, UriParts,
};

fn path(text: &str) -> Option<String> {
    Some(text.to_string())
}

#[test]
fn unix_paths_round_trip() {
    let p = "/home/user/project/input.md";
    let built = from_path(p).expect("absolute path");
    assert_eq!(built.as_str(), "file:///home/user/project/input.md");
    assert_eq!(path_of_uri(&built), path(p));
}

#[test]
fn spaces_and_non_ascii_are_escaped_and_decoded() {
    let p = "/home/user/my docs/日本語 #1.md";
    let built = from_path(p).expect("absolute path");
    assert_eq!(
        built.as_str(),
        "file:///home/user/my%20docs/%E6%97%A5%E6%9C%AC%E8%AA%9E%20%231.md"
    );
    assert_eq!(path_of_uri(&built), path(p));
}

#[test]
fn percent_signs_in_names_round_trip() {
    let p = "/tmp/100%25/a%2Fb.md";
    let built = from_path(p).expect("absolute path");
    assert_eq!(path_of_uri(&built), path(p));
}

#[test]
fn windows_shaped_uris_drop_the_leading_slash() {
    assert_eq!(path_of_uri("file:///C:/Users/me/input.md"), path("C:/Users/me/input.md"));
    // `|` is not legal in a URI, so the legacy drive form always arrives
    // percent-encoded.
    assert_eq!(path_of_uri("file:///c%7C/Users/me/input.md"), path("c|/Users/me/input.md"));
}

#[test]
fn a_leading_slash_before_a_non_drive_is_kept() {
    assert_eq!(path_of_uri("file:///etc/hosts"), path("/etc/hosts"));
}

#[test]
fn localhost_authority_is_local() {
    assert_eq!(path_of_uri("file://localhost/etc/hosts"), path("/etc/hosts"));
}

#[test]
fn pathless_schemes_have_no_path() {
    assert_eq!(path_of_uri("untitled:Untitled-1"), None);
    assert_eq!(path_of_uri("vscode-notebook-cell:/a/b.ipynb#W0sZmlsZQ"), None);
    assert_eq!(path_of_uri("https://example.com/a.md"), None);
}

#[test]
fn the_scheme_comparison_ignores_case() {
    assert_eq!(path_of_uri("FILE:///etc/hosts"), path("/etc/hosts"));
}

#[test]
fn a_remote_share_has_no_local_path() {
    assert_eq!(path_of_uri("file://server/share/input.md"), None);
}

#[test]
fn relative_paths_are_rejected() {
    assert_eq!(from_path("relative/input.md"), None);
}

#[test]
fn directory_uris_end_with_a_slash() {
    let built = from_directory_path("/home/user/project").expect("absolute path");
    assert_eq!(built.as_str(), "file:///home/user/project/");
}

#[test]
fn uri_parts_are_read_without_parsing() {
    let parts = UriParts {
        scheme: Some("File".to_string()),
        authority: Some("LocalHost".to_string()),
        path: "/D:/a%20b/%E6%97%A5.md".to_string(),
    };
    assert_eq!(to_path(&parts), path("D:/a b/日.md"));
    let remote = UriParts { scheme: Some("file".to_string()), authority: Some("srv".to_string()), path: "/x".to_string() };
    assert_eq!(to_path(&remote), None);
    let bad_utf8 = UriParts { scheme: Some("file".to_string()), authority: None, path: "/%FF".to_string() };
    assert_eq!(to_path(&bad_utf8), None);
    let stray = UriParts { scheme: Some("file".to_string()), authority: None, path: "/100%/%zz".to_string() };
    assert_eq!(to_path(&stray), path("/100%/%zz"));
}

#[test]
fn drive_prefixes_need_a_letter_and_a_colon_or_bar() {
    assert_eq!(strip_drive_prefix("/C:/x"), "C:/x");
    assert_eq!(strip_drive_prefix("/c|"), "c|");
    assert_eq!(strip_drive_prefix("/1:/x"), "/1:/x");
    assert_eq!(strip_drive_prefix("/C/x"), "/C/x");
    assert_eq!(strip_drive_prefix("/C"), "/C");
    assert_eq!(strip_drive_prefix("C:/x"), "C:/x");
}

#[test]
fn unc_and_windows_paths_become_uri_text() {
    assert_eq!(uri_text_of_path("\\\\server\\share\\a b.md"), "file://server/share/a%20b.md");
    assert_eq!(uri_text_of_path("//host"), "file://host/");
    assert_eq!(uri_text_of_path("C:\\Users\\me"), "file:///C:/Users/me");
    assert_eq!(uri_text_of_path("/a?b[c]{d}|e^f`g\"h<i>"), "file:///a%3Fb%5Bc%5D%7Bd%7D%7Ce%5Ef%60g%22h%3Ci%3E");
}
