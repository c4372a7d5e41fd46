//! Applying the safe fixes of a check to the checked text.
use vstd::prelude::*;

use crate::issue::{spec_safe_fix, Issue, IssueView};
use crate::japanese::issue_views;
use crate::spans::spans;
use crate::syntax::{blank_of_width, law_mask_keeps_length, masks};
use crate::text::spec_width;
use crate::text::{
    byte_len, byte_offset, chars_of, lemma_offset_mono, lemma_offset_step, push_str, str_byte_len,
    byte_offsets, substr, to_owned,
};

verus! {

/// The issue's offset and end are character boundaries of `s`.
pub open spec fn on_boundaries(s: Seq<char>, x: IssueView) -> bool {
    exists|i: int, j: int|
        #![trigger byte_offset(s, i), byte_offset(s, j)]
        0 <= i <= j <= s.len() && x.offset == byte_offset(s, i) && x.offset + x.len == byte_offset(s, j)
}

/// A finding that covers characters of a masked text falls on character
/// boundaries of the original text, since masking keeps every character's
/// width.
pub proof fn lemma_masked_boundaries(s: Seq<char>, m: Seq<char>, x: IssueView)
    requires
        masks(s, m),
        spans(m, x),
    ensures
        on_boundaries(s, x),
{
    let (i, j) = choose|i: int, j: int|
        #![trigger m.subrange(i, j)]
        0 <= i <= j <= m.len() && x.offset == 0 + byte_offset(m, i) && x.offset + x.len == 0
            + byte_offset(m, j) && x.word == m.subrange(i, j);
    lemma_mask_prefix(s, m, i);
    lemma_mask_prefix(s, m, j);
}

proof fn lemma_mask_prefix(s: Seq<char>, m: Seq<char>, i: int)
    requires
        masks(s, m),
        0 <= i <= s.len(),
    ensures
        byte_offset(m, i) == byte_offset(s, i),
{
    assert(masks(s.take(i), m.take(i))) by {
        assert forall|k: int| 0 <= k < s.take(i).len() implies #[trigger] m.take(i)[k] == s.take(i)[k] || (
        s.take(i)[k] != '\n' && s.take(i)[k] != '\r' && m.take(i)[k] == blank_of_width(spec_width(s.take(i)[k]))) by {
            assert(m[k] == s[k] || (s[k] != '\n' && s[k] != '\r' && m[k] == blank_of_width(spec_width(s[k]))));
        }
    }
    law_mask_keeps_length(s.take(i), m.take(i));
}

/// The character index whose byte offset in `s` is `off`.
pub open spec fn index_at(s: Seq<char>, off: int) -> int {
    choose|i: int| 0 <= i <= s.len() && byte_offset(s, i) == off
}

/// Later character indices have later byte offsets.
pub proof fn lemma_offset_strict(s: Seq<char>, i: int, j: int)
    requires
        0 <= i < j <= s.len(),
    ensures
        byte_offset(s, i) < byte_offset(s, j),
{
    lemma_offset_step(s, i);
    lemma_offset_mono(s, i + 1, j);
}

/// The index of a character's byte offset is that character's index.
pub proof fn lemma_index_at(s: Seq<char>, i: int)
    requires
        0 <= i <= s.len(),
    ensures
        index_at(s, byte_offset(s, i) as int) == i,
{
    let k = index_at(s, byte_offset(s, i) as int);
    assert(0 <= k <= s.len() && byte_offset(s, k) == byte_offset(s, i));
    if k < i {
        lemma_offset_strict(s, k, i);
    } else if i < k {
        lemma_offset_strict(s, i, k);
    }
}

/// The text written so far, the byte where the unwritten rest starts, how
/// many fixes were applied, and the issues left, after the first `n`
/// issues: each issue with a safe fix that starts at or after the rest is
/// replaced by its fix; the others are left.
pub open spec fn fixes_upto(s: Seq<char>, xs: Seq<IssueView>, n: int) -> (Seq<char>, int, nat, Seq<IssueView>)
    decreases n,
{
    if n <= 0 {
        (Seq::empty(), 0, 0, Seq::empty())
    } else {
        let (out, last, applied, left) = fixes_upto(s, xs, n - 1);
        let x = xs[n - 1];
        match spec_safe_fix(x) {
            Some(f) => if x.offset >= last {
                (
                    out + s.subrange(index_at(s, last), index_at(s, x.offset as int)) + f,
                    x.offset + x.len,
                    applied + 1,
                    left,
                )
            } else {
                (out, last, applied, left.push(x))
            },
            None => (out, last, applied, left.push(x)),
        }
    }
}

/// The text with the safe fixes applied, the number applied, and the
/// issues left.
pub open spec fn spec_apply_fixes(s: Seq<char>, xs: Seq<IssueView>) -> (Seq<char>, nat, Seq<IssueView>) {
    let (out, last, applied, left) = fixes_upto(s, xs, xs.len() as int);
    (out + s.skip(index_at(s, last)), applied, left)
}

/// A notation finding with a suggestion (any kind but a misspelling or an
/// unknown word), alone in a text, is fixed: its span is replaced by its
/// first suggestion, one fix is counted and nothing is left for review.
pub proof fn law_notation_finding_is_fixed(s: Seq<char>, x: IssueView, i: int, j: int)
    requires
        0 <= i <= j <= s.len(),
        x.offset == byte_offset(s, i),
        x.offset + x.len == byte_offset(s, j),
        x.kind != crate::issue::IssueKind::Typo,
        x.kind != crate::issue::IssueKind::UnknownWord,
        x.suggestions.len() > 0,
    ensures
        spec_apply_fixes(s, seq![x]) == (s.take(i) + x.suggestions[0] + s.skip(j), 1nat, Seq::<IssueView>::empty()),
{
    crate::issue::law_notation_fixes_are_safe(x);
    lemma_index_at(s, 0);
    lemma_index_at(s, i);
    lemma_index_at(s, j);
    assert(s.take(0) =~= Seq::<char>::empty());
    assert(byte_offset(s, 0) == 0);
    let xs = seq![x];
    assert(xs[0] == x);
    assert(fixes_upto(s, xs, 0) == (Seq::<char>::empty(), 0int, 0nat, Seq::<IssueView>::empty()));
    assert(index_at(s, 0) == 0);
    assert(s.subrange(0, i) =~= s.take(i));
    assert(Seq::<char>::empty() + s.take(i) + x.suggestions[0] =~= s.take(i) + x.suggestions[0]);
}

fn copy_strings(v: &Vec<String>) -> (r: Vec<String>)
    ensures
        r.deep_view() == v.deep_view(),
{
    let mut r: Vec<String> = Vec::new();
    let mut i: usize = 0;
    while i < v.len()
        invariant
            0 <= i <= v@.len(),
            r.deep_view() == v.deep_view().take(i as int),
        decreases v@.len() - i,
    {
        let ghost before = r.deep_view();
        r.push(to_owned(v[i].as_str()));
        assert(r.deep_view() =~= before.push(v@[i as int]@));
        assert(v.deep_view().take(i + 1) =~= v.deep_view().take(i as int).push(v@[i as int]@));
        i += 1;
    }
    assert(v.deep_view().take(v@.len() as int) =~= v.deep_view());
    r
}

/// A copy of an issue.
pub fn copy_issue(x: &Issue) -> (r: Issue)
    ensures
        r@ == x@,
{
    Issue {
        line: x.line,
        col: x.col,
        offset: x.offset,
        len: x.len,
        word: to_owned(x.word.as_str()),
        kind: x.kind,
        suggestions: copy_strings(&x.suggestions),
    }
}

/// Apply the safe fixes of `issues` (in order, skipping any that overlaps
/// one already applied) to the text they were found in, where each falls
/// on character boundaries: the fixed text, the
/// number of fixes applied, and the issues left for review.
pub fn apply_fixes(text: &str, issues: &Vec<Issue>) -> (r: (String, usize, Vec<Issue>))
    requires
        forall|k: int| 0 <= k < issues@.len() ==> on_boundaries(text@, #[trigger] issues@[k]@),
    ensures
        ({
            let (out, applied, left) = spec_apply_fixes(text@, issue_views(issues@));
            &&& r.0@ == out
            &&& r.1 == applied
            &&& issue_views(r.2@) == left
        }),
{
    let ghost s = text@;
    let ghost xs = issue_views(issues@);
    let n_bytes = str_byte_len(text);
    let cs = chars_of(text);
    let offs = byte_offsets(cs.as_slice());
    let mut out = String::new();
    let mut last: usize = 0;
    let ghost mut lc: int = 0;
    let mut applied: usize = 0;
    let mut left: Vec<Issue> = Vec::new();
    let mut k: usize = 0;
    proof {
        lemma_index_at(s, 0);
        assert(s.take(0) =~= Seq::<char>::empty());
    }
    while k < issues.len()
        invariant
            s == text@,
            cs@ == s,
            n_bytes == byte_len(s),
            xs == issue_views(issues@),
            offs@.len() == cs@.len() + 1,
            forall|i: int| 0 <= i <= cs@.len() ==> #[trigger] offs@[i] == byte_offset(cs@, i),
            forall|q: int| 0 <= q < issues@.len() ==> on_boundaries(s, #[trigger] issues@[q]@),
            0 <= k <= issues@.len(),
            0 <= lc <= s.len(),
            last == byte_offset(s, lc),
            index_at(s, last as int) == lc,
            applied <= k,
            fixes_upto(s, xs, k as int) == (out@, last as int, applied as nat, issue_views(left@)),
        decreases issues@.len() - k,
    {
        let x = &issues[k];
        assert(xs[k as int] == x@);
        let ghost before_left = left@;
        match x.safe_fix() {
            Some(fix) => {
                if x.offset >= last {
                    assert(on_boundaries(s, x@));
                    let ghost (i, j) = choose|i: int, j: int|
                        #![trigger byte_offset(s, i), byte_offset(s, j)]
                        0 <= i <= j <= s.len() && x@.offset == byte_offset(s, i) && x@.offset + x@.len
                            == byte_offset(s, j);
                    proof {
                        lemma_index_at(s, i);
                        lemma_index_at(s, j);
                        if i < lc {
                            lemma_offset_strict(s, i, lc);
                        }
                        lemma_offset_mono(s, j, s.len() as int);
                        assert(s.take(s.len() as int) =~= s);
                    }
                    let piece = substr(text, last, x.offset, Ghost(lc), Ghost(i));
                    push_str(&mut out, piece);
                    push_str(&mut out, fix);
                    last = x.offset + x.len;
                    proof {
                        lc = j;
                    }
                    applied += 1;
                } else {
                    left.push(copy_issue(x));
                    assert(issue_views(left@) =~= issue_views(before_left).push(x@));
                }
            },
            None => {
                left.push(copy_issue(x));
                assert(issue_views(left@) =~= issue_views(before_left).push(x@));
            },
        }
        k += 1;
    }
    let rest = substr(text, last, offs[cs.len()], Ghost(lc), Ghost(s.len() as int));
    push_str(&mut out, rest);
    assert(s.subrange(lc, s.len() as int) =~= s.skip(lc));
    (out, applied, left)
}

} // verus!
