//! Reported spans: every finding names characters of the checked text, at
//! their byte offset, so slicing the text there gives back the word.
use vstd::prelude::*;

use crate::checker::{english_upto, english_word, shape, shapes, CheckerView, OccView};
use crate::config::Mode;
use crate::issue::{IssueKind, IssueView};
use crate::japanese::{
    consistency_upto, find_all, issue_at, issue_of, ja_scan, kanji_issues, kanji_pair_issues,
    lemma_run_end, match_issues, num_run_end, num_scan, number_upto, punct_upto,
    punctuation_issues, regex_issues, regex_matches, spec_consistency_issues,
    spec_document_issues, JapaneseView, NumberStyle, RunClass, is_ascii_digit, spec_kanji_digit,
    number_issues, issues_at, kanji_pairs, line_issues, line_occurrences, lemma_num_run_end,
};
use crate::text::{byte_len, byte_offset, lemma_byte_len_add, lemma_offset_mono};
use crate::tokenizer::{lemma_line_words_bounds, line_words};

verus! {

/// `x` covers the characters `line[i..j]` of a line that starts at byte
/// `lo`: its offset and end are their byte offsets, its word their text.
pub open spec fn spans_at(line: Seq<char>, lo: int, x: IssueView) -> bool {
    exists|i: int, j: int|
        #![trigger line.subrange(i, j)]
        0 <= i <= j <= line.len() && x.offset == lo + byte_offset(line, i) && x.offset + x.len == lo
            + byte_offset(line, j) && x.word == line.subrange(i, j)
}

/// `x` covers characters of the text `s`.
pub open spec fn spans(s: Seq<char>, x: IssueView) -> bool {
    spans_at(s, 0, x)
}

/// Every issue of `v` covers characters of the line.
pub open spec fn all_span(line: Seq<char>, lo: int, v: Seq<IssueView>) -> bool {
    forall|k: int| 0 <= k < v.len() ==> spans_at(line, lo, #[trigger] v[k])
}

/// A katakana occurrence is the text at its offset.
pub open spec fn occ_at(line: Seq<char>, lo: int, o: OccView) -> bool {
    exists|i: int, j: int|
        #![trigger line.subrange(i, j)]
        0 <= i <= j <= line.len() && o.3 == lo + byte_offset(line, i) && o.0 == line.subrange(i, j)
}

pub open spec fn all_occ(line: Seq<char>, lo: int, v: Seq<OccView>) -> bool {
    forall|k: int| 0 <= k < v.len() ==> occ_at(line, lo, #[trigger] v[k])
}

/// The match is the text between two character boundaries of `h`, at
/// those bytes.
pub open spec fn char_span(h: Seq<char>, a: int, b: int, w: Seq<char>) -> bool {
    exists|i: int, j: int|
        #![trigger h.subrange(i, j)]
        0 <= i <= j <= h.len() && byte_offset(h, i) == a && byte_offset(h, j) == b && w == h.subrange(i, j)
}

/// Every match of every rule pattern on `h` is a span of `h`.
pub open spec fn rules_span(rules: Seq<(Seq<char>, Seq<char>)>, h: Seq<char>) -> bool {
    forall|r: int, k: int|
        0 <= r < rules.len() && 0 <= k < regex_matches(rules[r].0, h).len() ==> {
            let m = #[trigger] regex_matches(rules[r].0, h)[k];
            char_span(h, m.0, m.1, m.2)
        }
}

proof fn lemma_intro(line: Seq<char>, lo: int, x: IssueView, i: int, j: int)
    requires
        0 <= i <= j <= line.len(),
        x.offset == lo + byte_offset(line, i),
        x.offset + x.len == lo + byte_offset(line, j),
        x.word == line.subrange(i, j),
    ensures
        spans_at(line, lo, x),
{
}

pub proof fn lemma_concat(line: Seq<char>, lo: int, a: Seq<IssueView>, b: Seq<IssueView>)
    requires
        all_span(line, lo, a),
        all_span(line, lo, b),
    ensures
        all_span(line, lo, a + b),
{
    assert forall|k: int| 0 <= k < (a + b).len() implies spans_at(line, lo, #[trigger] (a + b)[k]) by {
        if k < a.len() {
            assert((a + b)[k] == a[k]);
        } else {
            assert((a + b)[k] == b[k - a.len()]);
        }
    }
}

pub proof fn lemma_concat_occ(line: Seq<char>, lo: int, a: Seq<OccView>, b: Seq<OccView>)
    requires
        all_occ(line, lo, a),
        all_occ(line, lo, b),
    ensures
        all_occ(line, lo, a + b),
{
    assert forall|k: int| 0 <= k < (a + b).len() implies occ_at(line, lo, #[trigger] (a + b)[k]) by {
        if k < a.len() {
            assert((a + b)[k] == a[k]);
        } else {
            assert((a + b)[k] == b[k - a.len()]);
        }
    }
}

proof fn lemma_push(line: Seq<char>, lo: int, a: Seq<IssueView>, x: IssueView)
    requires
        all_span(line, lo, a),
        spans_at(line, lo, x),
    ensures
        all_span(line, lo, a.push(x)),
{
    assert forall|k: int| 0 <= k < a.push(x).len() implies spans_at(line, lo, #[trigger] a.push(x)[k]) by {
        if k < a.len() {
            assert(a.push(x)[k] == a[k]);
        }
    }
}

/// The issue for `s[i..e]` of a line at byte `lo` covers those characters.
proof fn lemma_issue_of(s: Seq<char>, ln: u32, lo: int, i: int, e: int, kind: IssueKind, sg: Seq<char>)
    requires
        0 <= lo,
        lo + byte_len(s) <= usize::MAX,
        0 <= i <= e <= s.len(),
    ensures
        spans_at(s, lo, issue_of(s, ln, lo, i, e, kind, sg)),
{
    lemma_offset_mono(s, i, e);
    lemma_intro(s, lo, issue_of(s, ln, lo, i, e, kind, sg), i, e);
}

/// The English findings of a line cover characters of it.
pub proof fn lemma_english_spans(v: CheckerView, line: Seq<char>, ln: u32, lo: int, mode: Mode, n: int)
    requires
        0 <= lo,
        lo + byte_len(line) <= usize::MAX,
        n <= line_words(line, v.tok).len(),
    ensures
        all_span(line, lo, english_upto(v, line, ln, lo, mode, n)),
    decreases n,
{
    if n > 0 {
        lemma_english_spans(v, line, ln, lo, mode, n - 1);
        lemma_line_words_bounds(line, v.tok);
        let r = line_words(line, v.tok)[n - 1];
        let rest = english_upto(v, line, ln, lo, mode, n - 1);
        match english_word(v, line, ln, lo, mode, r.0, r.1) {
            Some(x) => {
                lemma_offset_mono(line, r.0, r.1);
                assert(x.offset == lo + byte_offset(line, r.0));
                assert(x.len == byte_len(line.subrange(r.0, r.1)));
                assert(x.word == line.subrange(r.0, r.1));
                lemma_intro(line, lo, x, r.0, r.1);
                lemma_push(line, lo, rest, x);
            },
            None => {},
        }
    } else {
        assert(all_span(line, lo, english_upto(v, line, ln, lo, mode, n)));
    }
}

/// The character findings of a line cover characters of it, and so do its
/// katakana occurrences.
pub proof fn lemma_scan_spans(
    v: JapaneseView,
    s: Seq<char>,
    ln: u32,
    lo: int,
    p: bool,
    c: bool,
    i: int,
)
    requires
        0 <= lo,
        lo + byte_len(s) <= usize::MAX,
        0 <= i <= s.len(),
    ensures
        all_span(s, lo, ja_scan(v, s, ln, lo, p, c, i).0),
        all_occ(s, lo, ja_scan(v, s, ln, lo, p, c, i).1),
    decreases s.len() - i,
{
    if i < s.len() {
        let ch = s[i];
        if crate::japanese::is_katakana(ch) {
            let e = crate::japanese::run_end(s, i, RunClass::Katakana);
            lemma_run_end(s, i, RunClass::Katakana);
            lemma_scan_spans(v, s, ln, lo, p, c, e);
            let rest = ja_scan(v, s, ln, lo, p, c, e);
            let form = s.subrange(i, e);
            if v.variants.contains_key(form) {
                let x = issue_of(s, ln, lo, i, e, IssueKind::JaVariant, v.variants[form]);
                lemma_issue_of(s, ln, lo, i, e, IssueKind::JaVariant, v.variants[form]);
                assert(all_span(s, lo, seq![x]));
                lemma_concat(s, lo, seq![x], rest.0);
            } else if c && e - i >= 3 {
                lemma_offset_mono(s, i, e);
                let o = (form, ln, byte_offset(s, i) as usize, (lo + byte_offset(s, i)) as usize);
                assert(occ_at(s, lo, o)) by {
                    assert(o.0 == s.subrange(i, e));
                }
                assert(all_occ(s, lo, seq![o]));
                lemma_concat_occ(s, lo, seq![o], rest.1);
            }
        } else if v.options.flag_fullwidth_alnum && crate::japanese::spec_fullwidth_alnum(ch) is Some {
            let e = crate::japanese::run_end(s, i, RunClass::FullwidthAlnum);
            lemma_run_end(s, i, RunClass::FullwidthAlnum);
            assert(crate::japanese::in_class(RunClass::FullwidthAlnum, ch));
            lemma_scan_spans(v, s, ln, lo, p, c, e);
            let rest = ja_scan(v, s, ln, lo, p, c, e);
            let x = issue_of(
                s,
                ln,
                lo,
                i,
                e,
                IssueKind::FullwidthAlnum,
                crate::japanese::ascii_of_fullwidth(s.subrange(i, e)),
            );
            lemma_issue_of(s, ln, lo, i, e, IssueKind::FullwidthAlnum, crate::japanese::ascii_of_fullwidth(s.subrange(i, e)));
            assert(all_span(s, lo, seq![x]));
            lemma_concat(s, lo, seq![x], rest.0);
        } else if v.options.flag_halfwidth_kana && crate::japanese::is_halfwidth_kana(ch) {
            let e = crate::japanese::run_end(s, i, RunClass::HalfwidthKana);
            lemma_run_end(s, i, RunClass::HalfwidthKana);
            assert(crate::japanese::in_class(RunClass::HalfwidthKana, ch));
            lemma_scan_spans(v, s, ln, lo, p, c, e);
            let rest = ja_scan(v, s, ln, lo, p, c, e);
            let sg = crate::japanese::spec_halfwidth_to_fullwidth(s.subrange(i, e));
            let x = issue_of(s, ln, lo, i, e, IssueKind::HalfwidthKana, sg);
            lemma_issue_of(s, ln, lo, i, e, IssueKind::HalfwidthKana, sg);
            assert(all_span(s, lo, seq![x]));
            lemma_concat(s, lo, seq![x], rest.0);
        } else {
            lemma_scan_spans(v, s, ln, lo, p, c, i + 1);
            let rest = ja_scan(v, s, ln, lo, p, c, i + 1);
            if ch == '\u{3000}' {
                let x = issue_of(s, ln, lo, i, i + 1, IssueKind::FullwidthSpace, " "@);
                lemma_issue_of(s, ln, lo, i, i + 1, IssueKind::FullwidthSpace, " "@);
                assert(all_span(s, lo, seq![x]));
                lemma_concat(s, lo, seq![x], rest.0);
            } else {
                let sg = crate::japanese::nfkc(seq![ch]);
                let x = issue_of(s, ln, lo, i, i + 1, IssueKind::JaCompatibility, sg);
                lemma_issue_of(s, ln, lo, i, i + 1, IssueKind::JaCompatibility, sg);
                assert(all_span(s, lo, seq![x]));
                lemma_concat(s, lo, seq![x], rest.0);
            }
        }
    } else {
        assert(all_span(s, lo, ja_scan(v, s, ln, lo, p, c, i).0));
        assert(all_occ(s, lo, ja_scan(v, s, ln, lo, p, c, i).1));
    }
}

proof fn lemma_match_spans(rule: (Seq<char>, Seq<char>), s: Seq<char>, ln: u32, lo: int, n: int)
    requires
        0 <= lo,
        lo + byte_len(s) <= usize::MAX,
        0 <= n <= regex_matches(rule.0, s).len(),
        forall|k: int|
            0 <= k < regex_matches(rule.0, s).len() ==> {
                let m = #[trigger] regex_matches(rule.0, s)[k];
                char_span(s, m.0, m.1, m.2)
            },
    ensures
        all_span(s, lo, match_issues(rule, regex_matches(rule.0, s).take(n), ln, lo)),
    decreases n,
{
    let ms = regex_matches(rule.0, s);
    if n > 0 {
        lemma_match_spans(rule, s, ln, lo, n - 1);
        let t = ms.take(n);
        assert(t.drop_last() =~= ms.take(n - 1));
        let m = ms[n - 1];
        assert(t.last() == m);
        assert(char_span(s, m.0, m.1, m.2));
        let (i, j) = choose|i: int, j: int|
            #![trigger s.subrange(i, j)]
            0 <= i <= j <= s.len() && byte_offset(s, i) == m.0 && byte_offset(s, j) == m.1 && m.2 == s.subrange(i, j);
        lemma_offset_mono(s, i, j);
        let rest = match_issues(rule, ms.take(n - 1), ln, lo);
        let rep = crate::japanese::regex_replace(rule.0, m.2, rule.1);
        if !(m.0 == m.1 || rep == m.2) {
            let x = IssueView {
                line: ln,
                col: m.0 as usize,
                offset: (lo + m.0) as usize,
                len: (m.1 - m.0) as usize,
                word: m.2,
                kind: IssueKind::JaVariant,
                suggestions: seq![rep],
            };
            lemma_intro(s, lo, x, i, j);
            lemma_push(s, lo, rest, x);
        }
    } else {
        assert(all_span(s, lo, match_issues(rule, ms.take(n), ln, lo)));
    }
}

proof fn lemma_regex_spans(rules: Seq<(Seq<char>, Seq<char>)>, s: Seq<char>, ln: u32, lo: int)
    requires
        0 <= lo,
        lo + byte_len(s) <= usize::MAX,
        rules_span(rules, s),
    ensures
        all_span(s, lo, regex_issues(rules, s, ln, lo)),
    decreases rules.len(),
{
    if rules.len() > 0 {
        let d = rules.drop_last();
        assert(rules_span(d, s)) by {
            assert forall|r: int, k: int|
                0 <= r < d.len() && 0 <= k < regex_matches(d[r].0, s).len() implies {
                    let m = #[trigger] regex_matches(d[r].0, s)[k];
                    char_span(s, m.0, m.1, m.2)
                } by {
                assert(d[r] == rules[r]);
            }
        }
        lemma_regex_spans(d, s, ln, lo);
        let r = rules.last();
        assert forall|k: int| 0 <= k < regex_matches(r.0, s).len() implies {
            let m = #[trigger] regex_matches(r.0, s)[k];
            char_span(s, m.0, m.1, m.2)
        } by {
            assert(rules[rules.len() - 1] == r);
        }
        let ms = regex_matches(r.0, s);
        lemma_match_spans(r, s, ln, lo, ms.len() as int);
        assert(ms.take(ms.len() as int) =~= ms);
        lemma_concat(s, lo, regex_issues(d, s, ln, lo), match_issues(r, ms, ln, lo));
    } else {
        assert(all_span(s, lo, regex_issues(rules, s, ln, lo)));
    }
}

/// The findings and occurrences of a line cover characters of it.
pub proof fn lemma_line_spans(v: JapaneseView, s: Seq<char>, ln: u32, lo: int, p: bool)
    requires
        0 <= lo,
        lo + byte_len(s) <= usize::MAX,
        rules_span(v.rules, s),
    ensures
        all_span(s, lo, line_issues(v, s, ln, lo, p)),
        all_occ(s, lo, line_occurrences(v, s, ln, lo)),
{
    lemma_regex_spans(v.rules, s, ln, lo);
    lemma_scan_spans(v, s, ln, lo, p, false, 0);
    lemma_scan_spans(v, s, ln, lo, false, true, 0);
    lemma_concat(s, lo, regex_issues(v.rules, s, ln, lo), ja_scan(v, s, ln, lo, p, false, 0).0);
}

/// Spans within a line `s[a..t]` starting at byte `byte_offset(s, a)` are
/// spans of `s`.
pub proof fn lemma_lift(s: Seq<char>, a: int, t: int, x: IssueView)
    requires
        0 <= a <= t <= s.len(),
        spans_at(s.subrange(a, t), byte_offset(s, a) as int, x),
    ensures
        spans(s, x),
{
    let line = s.subrange(a, t);
    let lo = byte_offset(s, a) as int;
    let (i, j) = choose|i: int, j: int|
        #![trigger line.subrange(i, j)]
        0 <= i <= j <= line.len() && x.offset == lo + byte_offset(line, i) && x.offset + x.len == lo
            + byte_offset(line, j) && x.word == line.subrange(i, j);
    lemma_lift_offset(s, a, t, i);
    lemma_lift_offset(s, a, t, j);
    assert(line.subrange(i, j) =~= s.subrange(a + i, a + j));
    lemma_intro(s, 0, x, a + i, a + j);
}

proof fn lemma_lift_offset(s: Seq<char>, a: int, t: int, i: int)
    requires
        0 <= a <= t <= s.len(),
        0 <= i <= t - a,
    ensures
        byte_offset(s, a + i) == byte_offset(s, a) + byte_offset(s.subrange(a, t), i),
{
    assert(s.take(a + i) =~= s.take(a) + s.subrange(a, t).take(i));
    lemma_byte_len_add(s.take(a), s.subrange(a, t).take(i));
}

pub proof fn lemma_lift_all(s: Seq<char>, a: int, t: int, v: Seq<IssueView>)
    requires
        0 <= a <= t <= s.len(),
        all_span(s.subrange(a, t), byte_offset(s, a) as int, v),
    ensures
        all_span(s, 0, v),
{
    assert forall|k: int| 0 <= k < v.len() implies spans_at(s, 0, #[trigger] v[k]) by {
        lemma_lift(s, a, t, v[k]);
    }
}

pub proof fn lemma_lift_occs(s: Seq<char>, a: int, t: int, v: Seq<OccView>)
    requires
        0 <= a <= t <= s.len(),
        all_occ(s.subrange(a, t), byte_offset(s, a) as int, v),
    ensures
        all_occ(s, 0, v),
{
    let line = s.subrange(a, t);
    let lo = byte_offset(s, a) as int;
    assert forall|k: int| 0 <= k < v.len() implies occ_at(s, 0, #[trigger] v[k]) by {
        let o = v[k];
        assert(occ_at(line, lo, o));
        let (i, j) = choose|i: int, j: int|
            #![trigger line.subrange(i, j)]
            0 <= i <= j <= line.len() && o.3 == lo + byte_offset(line, i) && o.0 == line.subrange(i, j);
        lemma_lift_offset(s, a, t, i);
        assert(line.subrange(i, j) =~= s.subrange(a + i, a + j));
    }
}

/// Shapes keep spans.
pub proof fn lemma_shapes_span(s: Seq<char>, lo: int, v: Seq<IssueView>)
    requires
        all_span(s, lo, v),
    ensures
        all_span(s, lo, shapes(v)),
{
    assert forall|k: int| 0 <= k < v.len() implies spans_at(s, lo, #[trigger] shapes(v)[k]) by {
        let x = v[k];
        assert(spans_at(s, lo, x));
        let y = shape(x);
        assert(y.offset == x.offset && y.len == x.len && y.word == x.word);
    }
}

/// The consistency findings of a document's occurrences cover characters
/// of it.
pub proof fn lemma_consistency_spans(s: Seq<char>, o: Seq<OccView>, n: int)
    requires
        byte_len(s) <= usize::MAX,
        all_occ(s, 0, o),
        0 <= n <= o.len(),
    ensures
        all_span(s, 0, consistency_upto(o, n)),
    decreases n,
{
    if n > 0 {
        lemma_consistency_spans(s, o, n - 1);
        let x = o[n - 1];
        if crate::japanese::minority(o, n - 1) {
            assert(occ_at(s, 0, x));
            let (i, j) = choose|i: int, j: int|
                #![trigger s.subrange(i, j)]
                0 <= i <= j <= s.len() && x.3 == 0 + byte_offset(s, i) && x.0 == s.subrange(i, j);
            lemma_offset_mono(s, i, j);
            let y = IssueView {
                line: x.1,
                col: x.2,
                offset: x.3,
                len: byte_len(x.0) as usize,
                word: x.0,
                kind: IssueKind::JaVariant,
                suggestions: seq![crate::japanese::winner(o, n - 1)],
            };
            lemma_intro(s, 0, y, i, j);
            lemma_push(s, 0, consistency_upto(o, n - 1), y);
        }
    } else {
        assert(all_span(s, 0, consistency_upto(o, n)));
    }
}

proof fn lemma_issue_at(s: Seq<char>, k: int, e: int, kind: IssueKind, sg: Seq<char>)
    requires
        byte_len(s) <= usize::MAX,
        0 <= k <= e <= s.len(),
    ensures
        spans(s, issue_at(s, k, e, kind, sg)),
{
    lemma_offset_mono(s, k, e);
    lemma_intro(s, 0, issue_at(s, k, e, kind, sg), k, e);
}

proof fn lemma_find_all(s: Seq<char>, p: Seq<char>, i: int)
    requires
        0 <= i,
    ensures
        forall|k: int|
            0 <= k < find_all(s, p, i).len() ==> 0 <= #[trigger] find_all(s, p, i)[k] && find_all(s, p, i)[k]
                + p.len() <= s.len(),
    decreases s.len() - i,
{
    if !(p.len() == 0 || i < 0 || i + p.len() > s.len()) {
        if s.subrange(i, i + p.len()) == p {
            lemma_find_all(s, p, i + p.len());
            let r = find_all(s, p, i + p.len());
            assert(find_all(s, p, i) == seq![i] + r);
            assert forall|k: int| 0 <= k < (seq![i] + r).len() implies 0 <= #[trigger] (seq![i] + r)[k] && (seq![i] + r)[k] + p.len() <= s.len() by {
                if k > 0 {
                    assert((seq![i] + r)[k] == r[k - 1]);
                }
            }
        } else {
            lemma_find_all(s, p, i + 1);
            assert(find_all(s, p, i) == find_all(s, p, i + 1));
        }
    }
}

proof fn lemma_issues_at(s: Seq<char>, p: Seq<char>, kind: IssueKind, sg: Seq<char>)
    requires
        byte_len(s) <= usize::MAX,
    ensures
        all_span(s, 0, issues_at(s, find_all(s, p, 0), p.len() as int, kind, sg)),
{
    lemma_find_all(s, p, 0);
    let idx = find_all(s, p, 0);
    let v = issues_at(s, idx, p.len() as int, kind, sg);
    assert forall|k: int| 0 <= k < v.len() implies spans_at(s, 0, #[trigger] v[k]) by {
        assert(0 <= idx[k] && idx[k] + p.len() <= s.len());
        lemma_issue_at(s, idx[k], idx[k] + p.len(), kind, sg);
    }
}

proof fn lemma_kanji_spans(s: Seq<char>, pairs: Seq<(Seq<char>, Seq<char>)>)
    requires
        byte_len(s) <= usize::MAX,
    ensures
        all_span(s, 0, kanji_issues(s, pairs)),
    decreases pairs.len(),
{
    if pairs.len() > 0 {
        lemma_kanji_spans(s, pairs.drop_last());
        let (v, p) = pairs.last();
        lemma_issues_at(s, p, IssueKind::JaVariant, v);
        lemma_issues_at(s, v, IssueKind::JaVariant, p);
        assert(all_span(s, 0, kanji_pair_issues(s, v, p)));
        lemma_concat(s, 0, kanji_issues(s, pairs.drop_last()), kanji_pair_issues(s, v, p));
    } else {
        assert(all_span(s, 0, kanji_issues(s, pairs)));
    }
}

proof fn lemma_num_scan(s: Seq<char>, i: int)
    requires
        0 <= i,
    ensures
        forall|k: int|
            0 <= k < num_scan(s, i).len() ==> 0 <= (#[trigger] num_scan(s, i)[k]).0 <= num_scan(s, i)[k].1
                <= s.len(),
    decreases s.len() - i,
{
    if i < s.len() {
        let c = s[i];
        if !(is_ascii_digit(c) || spec_kanji_digit(c) is Some) {
            lemma_num_scan(s, i + 1);
            assert(num_scan(s, i) == num_scan(s, i + 1));
        } else {
            let style = if is_ascii_digit(c) {
                NumberStyle::Arabic
            } else {
                NumberStyle::Kanji
            };
            let e = num_run_end(s, i + 1, style);
            lemma_num_run_end(s, i + 1, style);
            if !(e >= s.len() || e <= i) {
                if !crate::japanese::is_unit(s[e]) {
                    lemma_num_scan(s, e);
                    assert(num_scan(s, i) == num_scan(s, e));
                } else {
                    lemma_num_scan(s, e + 1);
                    let head = (i, e + 1, crate::japanese::canon_digits(s.subrange(i, e), style).push(s[e]), style);
                    let r = num_scan(s, e + 1);
                    assert(num_scan(s, i) == seq![head] + r);
                    assert forall|k: int| 0 <= k < (seq![head] + r).len() implies 0 <= (#[trigger] (seq![head] + r)[k]).0
                        <= (seq![head] + r)[k].1 <= s.len() by {
                        if k > 0 {
                            assert((seq![head] + r)[k] == r[k - 1]);
                        }
                    }
                }
            }
        }
    }
}

proof fn lemma_number_spans(s: Seq<char>, n: int)
    requires
        byte_len(s) <= usize::MAX,
        0 <= n <= num_scan(s, 0).len(),
    ensures
        all_span(s, 0, number_upto(s, num_scan(s, 0), n)),
    decreases n,
{
    let q = num_scan(s, 0);
    if n > 0 {
        lemma_number_spans(s, n - 1);
        lemma_num_scan(s, 0);
        let x = q[n - 1];
        if crate::japanese::number_flagged(q, n - 1) {
            let f = crate::japanese::first_of(q, x.2, crate::japanese::preferred_style(q, x.2), 0);
            lemma_issue_at(s, x.0, x.1, IssueKind::JaNumberStyle, s.subrange(q[f].0, q[f].1));
            lemma_push(
                s,
                0,
                number_upto(s, q, n - 1),
                issue_at(s, x.0, x.1, IssueKind::JaNumberStyle, s.subrange(q[f].0, q[f].1)),
            );
        }
    } else {
        assert(all_span(s, 0, number_upto(s, q, n)));
    }
}

proof fn lemma_punct_spans(s: Seq<char>, prefer_jp: bool, n: int)
    requires
        byte_len(s) <= usize::MAX,
        0 <= n <= s.len(),
    ensures
        all_span(s, 0, punct_upto(s, prefer_jp, n)),
    decreases n,
{
    if n > 0 {
        lemma_punct_spans(s, prefer_jp, n - 1);
        match crate::japanese::punct_fix(prefer_jp, s[n - 1]) {
            Some(f) => {
                lemma_issue_at(s, n - 1, n, IssueKind::JaPunctuation, f);
                lemma_push(s, 0, punct_upto(s, prefer_jp, n - 1), issue_at(s, n - 1, n, IssueKind::JaPunctuation, f));
            },
            None => {},
        }
    } else {
        assert(all_span(s, 0, punct_upto(s, prefer_jp, n)));
    }
}

/// The document-level Japanese findings cover characters of the text.
pub proof fn lemma_document_spans(v: JapaneseView, s: Seq<char>)
    requires
        byte_len(s) <= usize::MAX,
    ensures
        all_span(s, 0, spec_document_issues(v, s)),
{
    let e = Seq::<IssueView>::empty();
    assert(all_span(s, 0, e));
    lemma_kanji_spans(s, kanji_pairs());
    lemma_number_spans(s, num_scan(s, 0).len() as int);
    lemma_punct_spans(s, true, s.len() as int);
    lemma_punct_spans(s, false, s.len() as int);
    let a = if v.options.kanji_consistency {
        kanji_issues(s, kanji_pairs())
    } else {
        e
    };
    let b = if v.options.number_consistency {
        number_issues(s)
    } else {
        e
    };
    let c = if v.options.punctuation_consistency {
        punctuation_issues(s)
    } else {
        e
    };
    assert(all_span(s, 0, c));
    lemma_concat(s, 0, a, b);
    lemma_concat(s, 0, a + b, c);
}


/// Spans of issues do not depend on their suggestions.
pub proof fn lemma_unshape(s: Seq<char>, lo: int, v: Seq<IssueView>)
    requires
        all_span(s, lo, shapes(v)),
    ensures
        all_span(s, lo, v),
{
    assert forall|k: int| 0 <= k < v.len() implies spans_at(s, lo, #[trigger] v[k]) by {
        let y = shapes(v)[k];
        assert(spans_at(s, lo, y));
        assert(y.offset == v[k].offset && y.len == v[k].len && y.word == v[k].word);
    }
}

/// The findings and occurrences of line `s[a..t]` cover characters of `s`.
pub proof fn lemma_findings_span(
    v: CheckerView,
    mode: Mode,
    ja_on: bool,
    prose: bool,
    want: bool,
    s: Seq<char>,
    a: int,
    t: int,
    ln: u32,
)
    requires
        0 <= a <= t <= s.len(),
        byte_len(s) <= usize::MAX,
        ja_on ==> rules_span((v.ja->0).rules, s.subrange(a, t)),
    ensures
        all_span(s, 0, crate::checker::line_findings(v, mode, ja_on, prose, s.subrange(a, t), ln, byte_offset(s, a) as int)),
        all_occ(s, 0, crate::checker::line_occs(v, ja_on, want, s.subrange(a, t), ln, byte_offset(s, a) as int)),
{
    let line = s.subrange(a, t);
    let lo = byte_offset(s, a) as int;
    lemma_offset_mono(s, a, t);
    lemma_offset_mono(s, t, s.len() as int);
    assert(s.take(s.len() as int) =~= s);
    let e = Seq::<IssueView>::empty();
    assert(all_span(line, lo, e));
    let en = if mode != Mode::Off {
        crate::checker::english_line(v, line, ln, lo, mode)
    } else {
        e
    };
    lemma_english_spans(v, line, ln, lo, mode, line_words(line, v.tok).len() as int);
    assert(all_span(line, lo, en));
    if ja_on {
        lemma_line_spans(v.ja->0, line, ln, lo, prose);
        lemma_shapes_span(line, lo, line_issues(v.ja->0, line, ln, lo, prose));
        lemma_concat(line, lo, en, shapes(line_issues(v.ja->0, line, ln, lo, prose)));
        lemma_lift_occs(s, a, t, line_occurrences(v.ja->0, line, ln, lo));
    } else {
        lemma_concat(line, lo, en, e);
    }
    lemma_lift_all(s, a, t, crate::checker::line_findings(v, mode, ja_on, prose, line, ln, lo));
    assert(all_occ(s, 0, Seq::<OccView>::empty()));
}

} // verus!
