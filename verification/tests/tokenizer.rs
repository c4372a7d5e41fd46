use ayame_spell::tokenizer::{match_case, split_case, words_in_line, TokenizerOptions};

fn words(line: &str) -> Vec<&str> {
    words_in_line(line, &TokenizerOptions::default())
        .into_iter()
        .map(|w| w.text)
        .collect()
}

#[test]
fn plain_words() {
    assert_eq!(words("the quick brown fox"), ["the", "quick", "brown", "fox"]);
}

#[test]
fn short_words_skipped() {
    assert_eq!(words("a an it the"), ["the"]);
}

#[test]
fn camel_case_split() {
    assert_eq!(words("getUserName"), ["get", "User", "Name"]);
    assert_eq!(words("HTTPServerError"), ["HTTP", "Server", "Error"]);
    assert_eq!(words("parse_html_doc"), ["parse", "html", "doc"]);
}

#[test]
fn urls_skipped() {
    assert_eq!(
        words("see https://exmaple.com/foo?bar=baz for info"),
        ["see", "for", "info"]
    );
}

#[test]
fn emails_skipped() {
    assert_eq!(words("mail foo.bar@exmaple.com now"), ["mail", "now"]);
}

#[test]
fn hex_and_hashes_skipped() {
    assert_eq!(words("id 0xDEADBEEF okay"), ["okay"]);
    assert_eq!(
        words("sha 550e8400e29b41d4a716446655440000 okay"),
        ["sha", "okay"]
    );
    assert_eq!(
        words("token eyJhbGciOiJIUzI1NiIsInR5cCI6IkpXVCJ9 end"),
        ["token", "end"]
    );
}

#[test]
fn escape_sequences_skipped() {
    assert_eq!(words(r"print \nfoo and \tbar"), ["print", "and"]);
}

#[test]
fn contractions_kept_whole() {
    assert_eq!(words("doesn't matter"), ["doesn't", "matter"]);
    assert_eq!(words("'quoted' words"), ["quoted", "words"]);
    assert_eq!(words("developer's APIs and IDs"), ["developer", "and"]);
    assert_eq!(
        words("state-of-the-art tools"),
        ["state", "the", "art", "tools"]
    );
}

#[test]
fn digits_break_words() {
    assert_eq!(words("sha256sum utf8only"), ["sha", "sum", "utf", "only"]);
}

#[test]
fn case_matching() {
    assert_eq!(match_case("teh", "the"), "the");
    assert_eq!(match_case("Teh", "the"), "The");
    assert_eq!(match_case("TEH", "the"), "THE");
    assert_eq!(match_case("tEh", "the"), "the");
}

#[test]
fn non_ascii_is_ignored() {
    assert_eq!(words("日本語のtextです"), ["text"]);
}

#[test]
fn word_offsets_are_byte_offsets_of_the_line() {
    let line = "日本語 recieve thisWord";
    for word in words_in_line(line, &TokenizerOptions::default()) {
        assert!(line.is_char_boundary(word.start));
        assert_eq!(&line[word.start..word.start + word.text.len()], word.text);
    }
    let starts: Vec<usize> = words_in_line(line, &TokenizerOptions::default())
        .iter()
        .map(|w| w.start)
        .collect();
    assert_eq!(starts, [10, 18, 22]);
}

#[test]
fn split_case_reports_offsets_within_the_run() {
    assert_eq!(split_case("getUserName"), [(0, "get"), (3, "User"), (7, "Name")]);
    assert_eq!(split_case(""), [(0, "")]);
}

#[test]
fn minimum_word_length_is_configurable() {
    let opts = TokenizerOptions { min_word_len: 2, max_token_len: 40 };
    let got: Vec<&str> = words_in_line("an it", &opts).into_iter().map(|w| w.text).collect();
    assert_eq!(got, ["an", "it"]);
}
