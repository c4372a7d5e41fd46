use ayame_spell::dictionary::{edit_distance, WordSets};

#[test]
fn contains_and_suggest() {
    let mut w = WordSets::new();
    w.add_wordlist_str("apple\nbanana\ncherry\n# comment\n");
    w.add_words(&vec!["Durian".to_string()]);
    assert!(w.contains("apple"));
    assert!(w.contains("durian"));
    assert!(!w.contains("aple"));
    assert_eq!(w.suggest("aple", 3), vec!["apple".to_string()]);
}

#[test]
fn code_terms_present() {
    let w = WordSets::with_code_terms();
    assert!(w.contains("stdin"));
    assert!(w.contains("grpc"));
    assert!(w.contains("tokio"));
}

#[test]
fn distance() {
    assert_eq!(edit_distance("kitten", "sitting"), 3);
    assert_eq!(edit_distance("", "abc"), 3);
    assert_eq!(edit_distance("abc", "abc"), 0);
}

#[test]
fn distance_is_symmetric_on_examples() {
    assert_eq!(edit_distance("flaw", "lawn"), edit_distance("lawn", "flaw"));
    assert_eq!(edit_distance("flaw", "lawn"), 2);
}

#[test]
fn empty_sets_and_long_words() {
    let w = WordSets::new();
    assert!(w.is_empty());
    assert!(!w.contains("anything"));
    let mut w = WordSets::new();
    w.add_wordlist_str("word\n");
    assert!(!w.is_empty());
    assert!(w.suggest("abcdefghijklmnopqrstuvwxyz", 4).is_empty());
}

#[test]
fn suggestions_are_ranked_by_distance() {
    let mut w = WordSets::new();
    w.add_wordlist_str("receive\nreceived\nrecipe\n");
    let found = w.suggest("recieve", 4);
    assert_eq!(found.first().map(String::as_str), Some("receive"));
    assert!(found.len() <= 4);
}

#[test]
fn an_empty_wordlist_still_counts_as_added() {
    let mut w = WordSets::new();
    w.add_wordlist_str("");
    assert!(!w.is_empty());
    let mut w = WordSets::new();
    w.add_words(&vec!["Durian".to_string()]);
    assert!(!w.is_empty());
}

#[test]
fn suggestions_hold_every_near_word_up_to_the_limit() {
    let mut w = WordSets::new();
    w.add_wordlist_str("cat\ncar\ncap\n");
    w.add_words(&vec!["can".to_string()]);
    assert_eq!(w.suggest("cax", 10), vec!["can", "cap", "car", "cat"]);
    assert_eq!(w.suggest("cax", 2), vec!["can", "cap"]);
}

#[test]
fn distance_is_bounded_by_lengths_and_zero_only_for_equal_words() {
    assert_eq!(edit_distance("a", "abcd"), 3);
    assert_eq!(edit_distance("kitten", "sitting"), 3);
    assert_eq!(edit_distance("ab", "ab"), 0);
    assert_ne!(edit_distance("ab", "ba"), 0);
}

#[test]
fn distance_obeys_the_triangle_inequality_on_examples() {
    let (a, b, c) = ("receive", "recieve", "recipe");
    assert!(edit_distance(a, c) <= edit_distance(a, b) + edit_distance(b, c));
    assert_eq!(edit_distance("flaw", "lawn"), 2);
    assert!(edit_distance("flaw", "lawn") <= edit_distance("flaw", "law") + edit_distance("law", "lawn"));
}
