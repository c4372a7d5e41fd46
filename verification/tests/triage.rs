use ayame_spell::issue::IssueKind;
use ayame_spell::triage::{
    apply_edits, edits_for_path, triage_actions, triage_candidates, Edit, FixDecision, TriageAction,
    TriageDecisions,
};
use ayame_spell::words::{Collected, Occurrence, TriageKind};

fn edit(offset: usize, len: usize, replacement: &str) -> Edit {
    Edit { offset, len, replacement: replacement.to_string() }
}

fn occurrence(path: &str, offset: usize, len: usize) -> Occurrence {
    Occurrence { path: path.to_string(), offset, len }
}

fn collected(word: &str, count: usize, kind: IssueKind, suggestions: &[&str]) -> Collected {
    Collected {
        word: word.to_string(),
        count,
        kind,
        example: format!("a.md:1: {word}"),
        suggestions: suggestions.iter().map(|s| s.to_string()).collect(),
        occurrences: vec![occurrence("a.md", 0, word.len())],
    }
}

#[test]
fn edits_replace_every_occurrence_from_the_end() {
    let edits = vec![edit(0, 3, "the"), edit(8, 3, "the")];
    assert_eq!(apply_edits("teh cat teh", &edits), Ok("the cat the".to_string()));
    assert_eq!(apply_edits("unchanged", &Vec::new()), Ok("unchanged".to_string()));
    let longer = vec![edit(6, 3, "日本語"), edit(0, 1, "")];
    assert_eq!(apply_edits("x abc abc", &longer), Ok(" abc 日本語".to_string()));
}

#[test]
fn overlapping_or_split_edits_are_refused() {
    let overlapping = vec![edit(0, 5, "x"), edit(3, 2, "y")];
    assert_eq!(apply_edits("hello world", &overlapping), Err(0));
    let inside_a_character = vec![edit(1, 1, "x")];
    assert_eq!(apply_edits("日本", &inside_a_character), Err(1));
    let past_the_end = vec![edit(2, 5, "x")];
    assert_eq!(apply_edits("abc", &past_the_end), Err(2));
}

#[test]
fn edits_at_one_offset_keep_their_order() {
    let insert_then_replace = vec![edit(1, 1, "Y"), edit(1, 0, "X")];
    assert_eq!(apply_edits("ab", &insert_then_replace), Ok("aXY".to_string()));
    let replace_after_insert = vec![edit(1, 0, "X"), edit(1, 1, "Y")];
    assert_eq!(apply_edits("ab", &replace_after_insert), Err(1));
}

#[test]
fn triage_keeps_frequent_words_of_the_chosen_kind() {
    let list = vec![
        collected("alpha", 5, IssueKind::Typo, &["alpa"]),
        collected("beta", 1, IssueKind::Typo, &[]),
        collected("gamma", 4, IssueKind::UnknownWord, &[]),
        collected("delta", 3, IssueKind::Typo, &[]),
    ];
    let kept = triage_candidates(list, Some(TriageKind::Typo), 2, None);
    let words: Vec<&str> = kept.iter().map(|c| c.word.as_str()).collect();
    assert_eq!(words, vec!["alpha", "delta"]);
    let limited = triage_candidates(kept, None, 0, Some(1));
    assert_eq!(limited.len(), 1);
    assert_eq!(limited[0].word, "alpha");
}

#[test]
fn fixing_is_offered_only_with_a_suggestion() {
    assert_eq!(
        triage_actions(true),
        vec![TriageAction::Project, TriageAction::Global, TriageAction::Ignore, TriageAction::Fix, TriageAction::Skip]
    );
    assert_eq!(
        triage_actions(false),
        vec![TriageAction::Project, TriageAction::Global, TriageAction::Ignore, TriageAction::Skip]
    );
    assert_eq!(TriageAction::Ignore.label(), "Add to [words].ignore");
    assert_eq!(TriageAction::Fix.label(), "Fix every occurrence");
}

#[test]
fn decisions_collect_words_fixes_and_skips() {
    let mut d = TriageDecisions::new();
    d.decide(collected("proj", 1, IssueKind::UnknownWord, &[]), TriageAction::Project, 0);
    d.decide(collected("glob", 1, IssueKind::UnknownWord, &[]), TriageAction::Global, 0);
    d.decide(collected("ign", 1, IssueKind::UnknownWord, &[]), TriageAction::Ignore, 0);
    d.decide(collected("teh", 2, IssueKind::Typo, &["tea", "the"]), TriageAction::Fix, 1);
    d.decide(collected("skip", 1, IssueKind::Typo, &[]), TriageAction::Skip, 0);
    d.finish(3);
    assert_eq!(d.project, vec!["proj".to_string()]);
    assert_eq!(d.global, vec!["glob".to_string()]);
    assert_eq!(d.ignored, vec!["ign".to_string()]);
    assert_eq!(d.fixes.len(), 1);
    assert_eq!(d.fixes[0].replacement, "the");
    assert_eq!(d.skipped, 4);
}

#[test]
fn fix_edits_are_gathered_per_file() {
    let fixes = vec![
        FixDecision {
            replacement: "the".to_string(),
            occurrences: vec![occurrence("a.md", 0, 3), occurrence("b.md", 4, 3), occurrence("a.md", 9, 3)],
        },
        FixDecision { replacement: "cat".to_string(), occurrences: vec![occurrence("a.md", 4, 3)] },
    ];
    let edits = edits_for_path(&fixes, "a.md");
    let got: Vec<(usize, usize, &str)> = edits.iter().map(|e| (e.offset, e.len, e.replacement.as_str())).collect();
    assert_eq!(got, vec![(0, 3, "the"), (9, 3, "the"), (4, 3, "cat")]);
    assert!(edits_for_path(&fixes, "c.md").is_empty());
}
