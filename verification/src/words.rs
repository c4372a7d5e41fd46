//! Helpers of the word-management commands: context snippets and the kinds
//! of finding that triage offers.
use vstd::prelude::*;

use crate::issue::IssueKind;
use crate::registry_lock::{lemma_lex_total, lemma_lex_trans, lex_le, lex_le_exec};
use crate::text::{chars_of, push_char, slice_range, split_lines, string_from_chars, trim, trim_bounds};

verus! {

/// The kinds of finding that word triage can be limited to.
#[derive(Clone, Copy, PartialEq, Eq, Structural)]
pub enum TriageKind {
    Typo,
    UnknownWord,
    EnVariant,
    JaVariant,
}

impl TriageKind {
    /// Whether findings of `kind` belong to this triage kind.
    pub fn matches(self, kind: IssueKind) -> (r: bool)
        ensures
            r == match self {
                TriageKind::Typo => kind == IssueKind::Typo,
                TriageKind::UnknownWord => kind == IssueKind::UnknownWord,
                TriageKind::EnVariant => kind == IssueKind::EnVariant,
                TriageKind::JaVariant => kind == IssueKind::JaVariant,
            },
    {
        match (self, kind) {
            (TriageKind::Typo, IssueKind::Typo) => true,
            (TriageKind::UnknownWord, IssueKind::UnknownWord) => true,
            (TriageKind::EnVariant, IssueKind::EnVariant) => true,
            (TriageKind::JaVariant, IssueKind::JaVariant) => true,
            _ => false,
        }
    }
}

/// The longest context shown for a word, in characters.
pub const MAX_SNIPPET_CHARS: usize = 96;

/// A line shown as context: trimmed, and cut after 96 characters with `…`.
pub open spec fn spec_context_snippet(line: Seq<char>) -> Seq<char> {
    let t = trim(line);
    if t.len() > MAX_SNIPPET_CHARS {
        t.take(MAX_SNIPPET_CHARS as int).push('…')
    } else {
        t
    }
}

/// A line shown as context for a word: trimmed, and cut after 96
/// characters (never inside a character) with an ellipsis.
pub fn context_snippet(line: &str) -> (r: String)
    ensures
        r@ == spec_context_snippet(line@),
{
    let cs = chars_of(line);
    let (a, b) = trim_bounds(cs.as_slice(), 0, cs.len());
    assert(cs@.subrange(0, cs@.len() as int) =~= cs@);
    if b - a > MAX_SNIPPET_CHARS {
        let cut = slice_range(cs.as_slice(), a, a + MAX_SNIPPET_CHARS);
        let mut s = string_from_chars(cut.as_slice());
        push_char(&mut s, '…');
        proof {
            let t = cs@.subrange(a as int, b as int);
            assert(cut@ =~= t.take(MAX_SNIPPET_CHARS as int));
        }
        s
    } else {
        let t = slice_range(cs.as_slice(), a, b);
        string_from_chars(t.as_slice())
    }
}


/// Where a collected word was found.
pub struct Occurrence {
    pub path: String,
    pub offset: usize,
    pub len: usize,
}

/// A flagged word across all files: how often it was flagged, the kind and
/// an example of its first finding, every suggestion made for it, and where
/// it occurs.
pub struct Collected {
    pub word: String,
    pub count: usize,
    pub kind: IssueKind,
    pub example: String,
    pub suggestions: Vec<String>,
    pub occurrences: Vec<Occurrence>,
}

/// One finding to collect: the file it is in, the issue and its line.
pub struct Finding {
    pub path: String,
    pub issue: crate::issue::Issue,
    pub line_text: String,
}

/// The plain content of a [`Collected`]: word, count, kind, example,
/// suggestions, and (path, offset, length) of each occurrence.
pub type CollectedView = (Seq<char>, nat, IssueKind, Seq<char>, Seq<Seq<char>>, Seq<(Seq<char>, usize, usize)>);

pub open spec fn collected_view(c: Collected) -> CollectedView {
    (
        c.word@,
        c.count as nat,
        c.kind,
        c.example@,
        c.suggestions.deep_view(),
        c.occurrences@.map_values(|o: Occurrence| (o.path@, o.offset, o.len)),
    )
}

/// The kinds of finding that word collection gathers.
pub open spec fn collectable(k: IssueKind) -> bool {
    k == IssueKind::Typo || k == IssueKind::UnknownWord || k == IssueKind::EnVariant || k == IssueKind::JaVariant
}

/// The key a word is collected under: ASCII words lowercased, other words
/// as they are.
pub open spec fn collect_key(w: Seq<char>) -> Seq<char> {
    if crate::text::all_ascii(w) {
        crate::tokenizer::lower_seq(w)
    } else {
        w
    }
}

/// The example shown for a finding: `path:line: context`.
pub open spec fn example_of(path: Seq<char>, line: u32, line_text: Seq<char>) -> Seq<char> {
    path + ":"@ + crate::report::decimal(line as nat) + ": "@ + spec_context_snippet(line_text)
}

/// `acc` with each of `new` appended that it does not hold yet.
pub open spec fn merge_unique(acc: Seq<Seq<char>>, new: Seq<Seq<char>>) -> Seq<Seq<char>>
    decreases new.len(),
{
    if new.len() == 0 {
        acc
    } else {
        let m = merge_unique(acc, new.drop_last());
        if m.contains(new.last()) {
            m
        } else {
            m.push(new.last())
        }
    }
}

/// Index of the group with key `k`, or -1.
pub open spec fn group_index(gs: Seq<CollectedView>, k: Seq<char>) -> int
    decreases gs.len(),
{
    if gs.len() == 0 {
        -1
    } else if gs.last().0 == k {
        gs.len() - 1
    } else {
        group_index(gs.drop_last(), k)
    }
}

/// A finding as plain values: path, issue and line text.
pub type FindingView = (Seq<char>, crate::issue::IssueView, Seq<char>);

pub open spec fn finding_view(f: Finding) -> FindingView {
    (f.path@, f.issue@, f.line_text@)
}

/// The groups of the first `n` findings, in order of first appearance.
pub open spec fn groups_upto(fs: Seq<FindingView>, n: int) -> Seq<CollectedView>
    decreases n,
{
    if n <= 0 {
        Seq::empty()
    } else {
        let gs = groups_upto(fs, n - 1);
        let (path, x, line_text) = fs[n - 1];
        if !collectable(x.kind) {
            gs
        } else {
            let k = collect_key(x.word);
            let g = group_index(gs, k);
            let occ = (path, x.offset, x.len);
            if g < 0 {
                gs.push((k, 1, x.kind, example_of(path, x.line, line_text), x.suggestions, seq![occ]))
            } else {
                let c = gs[g];
                gs.update(g, (c.0, c.1 + 1, c.2, c.3, merge_unique(c.4, x.suggestions), c.5.push(occ)))
            }
        }
    }
}

/// `c` goes before `d`: flagged more often, or as often with a smaller word.
pub open spec fn ranks_before(c: CollectedView, d: CollectedView) -> bool {
    c.1 > d.1 || (c.1 == d.1 && crate::registry_lock::lex_le(c.0, d.0))
}

/// `x` inserted into `s` after every group at its end that it does not rank
/// before.
pub open spec fn insert_ranked(s: Seq<CollectedView>, x: CollectedView) -> Seq<CollectedView>
    decreases s.len(),
{
    if s.len() == 0 {
        seq![x]
    } else if !(ranks_before(x, s.last()) && x.0 != s.last().0) {
        s.push(x)
    } else {
        insert_ranked(s.drop_last(), x).push(s.last())
    }
}

pub open spec fn sort_ranked(s: Seq<CollectedView>) -> Seq<CollectedView>
    decreases s.len(),
{
    if s.len() == 0 {
        s
    } else {
        insert_ranked(sort_ranked(s.drop_last()), s.last())
    }
}

/// The collected words of a list of findings, most flagged first, then by
/// word.
pub open spec fn spec_collect(fs: Seq<FindingView>) -> Seq<CollectedView> {
    sort_ranked(groups_upto(fs, fs.len() as int))
}

/// How many of the first `n` findings are misspellings, unknown words,
/// English variants or Japanese variants whose word has key `k`.
pub open spec fn key_count(fs: Seq<FindingView>, k: Seq<char>, n: int) -> nat
    decreases n,
{
    if n <= 0 {
        0
    } else {
        let x = fs[n - 1].1;
        key_count(fs, k, n - 1) + if (x.kind == IssueKind::Typo || x.kind == IssueKind::UnknownWord || x.kind
            == IssueKind::EnVariant || x.kind == IssueKind::JaVariant) && collect_key(x.word) == k {
            1nat
        } else {
            0nat
        }
    }
}

proof fn lemma_key_count_counts(fs: Seq<FindingView>, k: Seq<char>, n: int, i: int)
    requires
        0 <= i < n <= fs.len(),
        collect_key(fs[i].1.word) == k,
        fs[i].1.kind == IssueKind::Typo || fs[i].1.kind == IssueKind::UnknownWord || fs[i].1.kind
            == IssueKind::EnVariant || fs[i].1.kind == IssueKind::JaVariant,
    ensures
        key_count(fs, k, n) >= 1,
    decreases n,
{
    if i < n - 1 {
        lemma_key_count_counts(fs, k, n - 1, i);
    }
}

proof fn lemma_group_index_bounds(gs: Seq<CollectedView>, k: Seq<char>)
    ensures
        -1 <= group_index(gs, k) < gs.len(),
        group_index(gs, k) >= 0 ==> gs[group_index(gs, k)].0 == k,
    decreases gs.len(),
{
    if gs.len() > 0 && gs.last().0 != k {
        lemma_group_index_bounds(gs.drop_last(), k);
    }
}

proof fn lemma_group_index_push(gs: Seq<CollectedView>, x: CollectedView, k: Seq<char>)
    ensures
        group_index(gs.push(x), k) == if x.0 == k {
            gs.len() as int
        } else {
            group_index(gs, k)
        },
{
    assert(gs.push(x).drop_last() =~= gs);
}

proof fn lemma_group_index_update(gs: Seq<CollectedView>, g: int, c: CollectedView, k: Seq<char>)
    requires
        0 <= g < gs.len(),
        c.0 == gs[g].0,
    ensures
        group_index(gs.update(g, c), k) == group_index(gs, k),
    decreases gs.len(),
{
    let u = gs.update(g, c);
    if g == gs.len() - 1 {
        assert(u.drop_last() =~= gs.drop_last());
    } else {
        assert(u.last() == gs.last());
        assert(u.drop_last() =~= gs.drop_last().update(g, c));
        lemma_group_index_update(gs.drop_last(), g, c, k);
    }
}

proof fn lemma_groups_count(fs: Seq<FindingView>, n: int, k: Seq<char>)
    requires
        0 <= n <= fs.len(),
    ensures
        key_count(fs, k, n) > 0 ==> 0 <= group_index(groups_upto(fs, n), k) < groups_upto(fs, n).len()
            && groups_upto(fs, n)[group_index(groups_upto(fs, n), k)].1 == key_count(fs, k, n),
        key_count(fs, k, n) == 0 ==> group_index(groups_upto(fs, n), k) < 0,
    decreases n,
{
    if n > 0 {
        lemma_groups_count(fs, n - 1, k);
        let prev = groups_upto(fs, n - 1);
        let gs = groups_upto(fs, n);
        let (path, x, line_text) = fs[n - 1];
        lemma_group_index_bounds(prev, k);
        if collectable(x.kind) {
            let kk = collect_key(x.word);
            lemma_groups_count(fs, n - 1, kk);
            let g = group_index(prev, kk);
            lemma_group_index_bounds(prev, kk);
            let occ = (path, x.offset, x.len);
            if g < 0 {
                let nx = (kk, 1nat, x.kind, example_of(path, x.line, line_text), x.suggestions, seq![occ]);
                assert(gs == prev.push(nx));
                lemma_group_index_push(prev, nx, k);
                if k == kk {
                    assert(key_count(fs, kk, n - 1) == 0);
                    assert(gs[prev.len() as int] == nx);
                } else {
                    assert(key_count(fs, k, n) == key_count(fs, k, n - 1));
                    if group_index(prev, k) >= 0 {
                        assert(gs[group_index(prev, k)] == prev[group_index(prev, k)]);
                    }
                }
            } else {
                let c = prev[g];
                let nc = (c.0, c.1 + 1, c.2, c.3, merge_unique(c.4, x.suggestions), c.5.push(occ));
                assert(gs == prev.update(g, nc));
                lemma_group_index_update(prev, g, nc, k);
                if k == kk {
                    assert(key_count(fs, kk, n - 1) > 0);
                } else {
                    assert(key_count(fs, k, n) == key_count(fs, k, n - 1));
                    if group_index(prev, k) >= 0 {
                        assert(group_index(prev, k) != g);
                        assert(gs[group_index(prev, k)] == prev[group_index(prev, k)]);
                    }
                }
            }
        } else {
            assert(gs == prev);
            assert(key_count(fs, k, n) == key_count(fs, k, n - 1));
        }
    }
}

proof fn lemma_insert_ranked_contains(s: Seq<CollectedView>, x: CollectedView)
    ensures
        insert_ranked(s, x).contains(x),
        forall|y: CollectedView| s.contains(y) ==> #[trigger] insert_ranked(s, x).contains(y),
    decreases s.len(),
{
    let r = insert_ranked(s, x);
    if s.len() == 0 {
        assert(r[0] == x);
    } else if !(ranks_before(x, s.last()) && x.0 != s.last().0) {
        assert(r[s.len() as int] == x);
        assert forall|y: CollectedView| s.contains(y) implies #[trigger] r.contains(y) by {
            let j = choose|j: int| 0 <= j < s.len() && s[j] == y;
            assert(r[j] == y);
        }
    } else {
        lemma_insert_ranked_contains(s.drop_last(), x);
        let t = insert_ranked(s.drop_last(), x);
        assert(r == t.push(s.last()));
        let jx = choose|j: int| 0 <= j < t.len() && t[j] == x;
        assert(r[jx] == x);
        assert forall|y: CollectedView| s.contains(y) implies #[trigger] r.contains(y) by {
            let j = choose|j: int| 0 <= j < s.len() && s[j] == y;
            if j == s.len() - 1 {
                assert(r[t.len() as int] == y);
            } else {
                assert(s.drop_last()[j] == y);
                assert(t.contains(y));
                let q = choose|q: int| 0 <= q < t.len() && t[q] == y;
                assert(r[q] == y);
            }
        }
    }
}

proof fn lemma_sort_ranked_contains(s: Seq<CollectedView>)
    ensures
        forall|y: CollectedView| s.contains(y) ==> #[trigger] sort_ranked(s).contains(y),
    decreases s.len(),
{
    if s.len() > 0 {
        lemma_sort_ranked_contains(s.drop_last());
        lemma_insert_ranked_contains(sort_ranked(s.drop_last()), s.last());
        assert forall|y: CollectedView| s.contains(y) implies #[trigger] sort_ranked(s).contains(y) by {
            let j = choose|j: int| 0 <= j < s.len() && s[j] == y;
            if j < s.len() - 1 {
                assert(s.drop_last()[j] == y);
            }
        }
    }
}

/// Collecting findings: every misspelling, unknown word, English variant
/// or Japanese variant is counted in the collected entry of its word, whose
/// count is the number of such findings with that word.
pub proof fn law_collect_counts_each_word(fs: Seq<FindingView>, i: int)
    requires
        0 <= i < fs.len(),
        fs[i].1.kind == IssueKind::Typo || fs[i].1.kind == IssueKind::UnknownWord || fs[i].1.kind
            == IssueKind::EnVariant || fs[i].1.kind == IssueKind::JaVariant,
    ensures
        key_count(fs, collect_key(fs[i].1.word), fs.len() as int) >= 1,
        exists|c: CollectedView|
            #[trigger] spec_collect(fs).contains(c) && c.0 == collect_key(fs[i].1.word) && c.1 == key_count(
                fs,
                collect_key(fs[i].1.word),
                fs.len() as int,
            ),
{
    let k = collect_key(fs[i].1.word);
    let n = fs.len() as int;
    lemma_key_count_counts(fs, k, n, i);
    lemma_groups_count(fs, n, k);
    let gs = groups_upto(fs, n);
    let gi = group_index(gs, k);
    lemma_group_index_bounds(gs, k);
    assert(gs.contains(gs[gi]));
    lemma_sort_ranked_contains(gs);
    assert(spec_collect(fs).contains(gs[gi]));
}

fn copy_string_vec(v: &Vec<String>) -> (r: Vec<String>)
    ensures
        r.deep_view() == v.deep_view(),
{
    let mut r: Vec<String> = Vec::new();
    let mut i: usize = 0;
    while i < v.len()
        invariant
            0 <= i <= v@.len(),
            r.deep_view() == v.deep_view().take(i as int),
        decreases v@.len() - i,
    {
        let ghost before = r.deep_view();
        r.push(crate::text::to_owned(v[i].as_str()));
        assert(r.deep_view() =~= before.push(v@[i as int]@));
        assert(v.deep_view().take(i + 1) =~= v.deep_view().take(i as int).push(v@[i as int]@));
        i += 1;
    }
    assert(v.deep_view().take(v@.len() as int) =~= v.deep_view());
    r
}

fn merge_into(acc: &mut Vec<String>, new: &Vec<String>)
    ensures
        final(acc).deep_view() == merge_unique(old(acc).deep_view(), new.deep_view()),
{
    let mut i: usize = 0;
    assert(new.deep_view().take(0) =~= Seq::<Seq<char>>::empty());
    while i < new.len()
        invariant
            0 <= i <= new@.len(),
            acc.deep_view() == merge_unique(old(acc).deep_view(), new.deep_view().take(i as int)),
        decreases new@.len() - i,
    {
        let ghost t = new.deep_view().take(i + 1);
        assert(t.drop_last() =~= new.deep_view().take(i as int));
        assert(t.last() == new@[i as int]@);
        let mut found = false;
        let mut j: usize = 0;
        while j < acc.len()
            invariant
                0 <= j <= acc@.len(),
                0 <= i < new@.len(),
                found == exists|q: int| 0 <= q < j && acc.deep_view()[q] == new@[i as int]@,
            decreases acc@.len() - j,
        {
            assert(acc.deep_view()[j as int] == acc@[j as int]@);
            if crate::text::str_eq(acc[j].as_str(), new[i].as_str()) {
                found = true;
            }
            proof {
                if found && !(exists|q: int| 0 <= q < j && acc.deep_view()[q] == new@[i as int]@) {
                    assert(acc.deep_view()[j as int] == new@[i as int]@);
                }
            }
            j += 1;
        }
        if !found {
            let ghost before = acc.deep_view();
            acc.push(crate::text::to_owned(new[i].as_str()));
            assert(acc.deep_view() =~= before.push(new@[i as int]@));
        }
        i += 1;
    }
    assert(new.deep_view().take(new@.len() as int) =~= new.deep_view());
}

fn ascii_key(w: &str) -> (r: String)
    ensures
        r@ == collect_key(w@),
{
    let cs = chars_of(w);
    let mut i: usize = 0;
    while i < cs.len()
        invariant
            0 <= i <= cs@.len(),
            cs@ == w@,
            forall|k: int| 0 <= k < i ==> (cs@[k] as u32) < 0x80,
        decreases cs@.len() - i,
    {
        if (cs[i] as u32) >= 0x80 {
            return crate::text::to_owned(w);
        }
        i += 1;
    }
    crate::tokenizer::ascii_lowercase(w)
}

pub open spec fn collected_views(v: Seq<Collected>) -> Seq<CollectedView> {
    v.map_values(|c: Collected| collected_view(c))
}

pub open spec fn finding_views(v: Seq<Finding>) -> Seq<FindingView> {
    v.map_values(|f: Finding| finding_view(f))
}

fn example_string(f: &Finding) -> (r: String)
    ensures
        r@ == example_of(f.path@, f.issue.line, f.line_text@),
{
    let mut s = crate::text::to_owned(f.path.as_str());
    push_char(&mut s, ':');
    let ln = crate::report::decimal_string(f.issue.line as usize);
    crate::text::push_str(&mut s, ln.as_str());
    crate::text::push_str(&mut s, ": ");
    let c = context_snippet(f.line_text.as_str());
    crate::text::push_str(&mut s, c.as_str());
    proof {
        reveal_strlit(":");
    }
    assert(s@ =~= example_of(f.path@, f.issue.line, f.line_text@));
    s
}

/// Gather the flagged words of a check across files: one entry per word
/// (ASCII words case-insensitively), most flagged first, then by word.
pub fn collect_findings(findings: &Vec<Finding>) -> (r: Vec<Collected>)
    ensures
        collected_views(r@) == spec_collect(finding_views(findings@)),
{
    let ghost fs = finding_views(findings@);
    let mut groups: Vec<Collected> = Vec::new();
    let mut n: usize = 0;
    while n < findings.len()
        invariant
            0 <= n <= findings@.len(),
            fs == finding_views(findings@),
            groups@.len() <= n,
            forall|q: int| 0 <= q < groups@.len() ==> #[trigger] groups@[q].count <= n,
            collected_views(groups@) == groups_upto(fs, n as int),
        decreases findings@.len() - n,
    {
        let f = &findings[n];
        assert(fs[n as int] == finding_view(*f));
        let kind = f.issue.kind;
        if kind == IssueKind::Typo || kind == IssueKind::UnknownWord || kind == IssueKind::EnVariant
            || kind == IssueKind::JaVariant {
            let key = ascii_key(f.issue.word.as_str());
            let ghost gs = collected_views(groups@);
            let mut g = groups.len();
            assert(gs.take(g as int) =~= gs);
            while g > 0 && !crate::text::str_eq(groups[g - 1].word.as_str(), key.as_str())
                invariant
                    0 <= g <= groups@.len(),
                    gs == collected_views(groups@),
                    group_index(gs, key@) == group_index(gs.take(g as int), key@),
                decreases g,
            {
                assert(gs.take(g as int).drop_last() =~= gs.take(g - 1));
                g -= 1;
            }
            proof {
                if g > 0 {
                    assert(gs.take(g as int).last() == gs[g - 1]);
                } else {
                    assert(gs.take(0) =~= Seq::<CollectedView>::empty());
                }
            }
            let occ = Occurrence { path: crate::text::to_owned(f.path.as_str()), offset: f.issue.offset, len: f.issue.len };
            if g == 0 {
                let mut occs: Vec<Occurrence> = Vec::new();
                occs.push(occ);
                let c = Collected {
                    word: key,
                    count: 1,
                    kind,
                    example: example_string(f),
                    suggestions: copy_string_vec(&f.issue.suggestions),
                    occurrences: occs,
                };
                groups.push(c);
                proof {
                    assert(c.occurrences@.map_values(|o: Occurrence| (o.path@, o.offset, o.len)) =~= seq![(f.path@, f.issue.offset, f.issue.len)]);
                    assert(collected_views(groups@) =~= gs.push(collected_view(c)));
                }
            } else {
                let idx = g - 1;
                assert(groups@[idx as int].count <= n);
                let mut c = groups.remove(idx);
                let ghost c0 = collected_view(c);
                c.count = c.count + 1;
                merge_into(&mut c.suggestions, &f.issue.suggestions);
                let ghost before_occ = c.occurrences@;
                c.occurrences.push(occ);
                proof {
                    assert(c.occurrences@.map_values(|o: Occurrence| (o.path@, o.offset, o.len)) =~= before_occ.map_values(
                        |o: Occurrence| (o.path@, o.offset, o.len),
                    ).push((f.path@, f.issue.offset, f.issue.len)));
                }
                let ghost cv = collected_view(c);
                let ghost removed = groups@;
                groups.insert(idx, c);
                proof {
                    assert(collected_views(groups@) =~= gs.update(idx as int, cv));
                    assert forall|q: int| 0 <= q < groups@.len() implies #[trigger] groups@[q].count <= n + 1 by {
                        if q < idx {
                            assert(groups@[q] == removed[q]);
                        } else if q > idx {
                            assert(groups@[q] == removed[q - 1]);
                        }
                    }
                }
            }
        }
        n += 1;
    }
    assert(fs.len() == findings@.len());
    sort_collected(groups)
}

fn sort_collected(groups: Vec<Collected>) -> (r: Vec<Collected>)
    ensures
        collected_views(r@) == sort_ranked(collected_views(groups@)),
{
    let mut groups = groups;
    let ghost all = collected_views(groups@);
    let mut rev: Vec<Collected> = Vec::new();
    while groups.len() > 0
        invariant
            collected_views(groups@) + collected_views(rev@).reverse() == all,
        decreases groups@.len(),
    {
        let ghost before = groups@;
        let x = groups.pop().unwrap();
        proof {
            assert(collected_views(rev@.push(x)).reverse() =~= seq![collected_view(x)] + collected_views(rev@).reverse());
            assert(collected_views(before) =~= collected_views(groups@).push(collected_view(x)));
            assert(collected_views(groups@) + collected_views(rev@.push(x)).reverse() =~= collected_views(before)
                + collected_views(rev@).reverse());
        }
        rev.push(x);
    }
    assert(collected_views(groups@) =~= Seq::<CollectedView>::empty());
    assert(collected_views(rev@).reverse() =~= all);
    let mut out: Vec<Collected> = Vec::new();
    let ghost n = rev@.len();
    while rev.len() > 0
        invariant
            n == all.len(),
            rev@.len() <= n,
            collected_views(rev@).reverse() == all.skip(n - rev@.len()),
            collected_views(out@) == sort_ranked(all.take(n - rev@.len())),
        decreases rev@.len(),
    {
        let ghost before = rev@;
        let x = rev.pop().unwrap();
        let ghost i = n - before.len();
        let ghost xv = collected_view(x);
        proof {
            assert(collected_views(before).reverse() =~= seq![xv] + collected_views(rev@).reverse());
            assert(all.skip(i)[0] == xv);
            assert(all[i] == xv);
            let rr = collected_views(rev@).reverse();
            assert((seq![xv] + rr).skip(1) =~= rr);
            assert(all.skip(i).skip(1) =~= all.skip(i + 1));
            assert(all.take(i + 1).drop_last() =~= all.take(i));
            assert(all.take(i + 1).last() == xv);
        }
        let ghost sorted = collected_views(out@);
        let mut p = out.len();
        assert(sorted.take(p as int) =~= sorted);
        assert(sorted.skip(p as int) =~= Seq::<CollectedView>::empty());
        assert(insert_ranked(sorted, xv) + Seq::<CollectedView>::empty() =~= insert_ranked(sorted, xv));
        while p > 0 && ranks_first(&x, &out[p - 1])
            invariant
                0 <= p <= out@.len(),
                sorted == collected_views(out@),
                xv == collected_view(x),
                insert_ranked(sorted, xv) == insert_ranked(sorted.take(p as int), xv) + sorted.skip(p as int),
            decreases p,
        {
            proof {
                let t = sorted.take(p as int);
                assert(t.drop_last() =~= sorted.take(p - 1));
                assert(t.last() == sorted[p - 1]);
                assert(sorted[p - 1] == collected_view(out@[p - 1]));
                assert(ranks_before(xv, t.last()) && xv.0 != t.last().0);
                assert(insert_ranked(t, xv) == insert_ranked(t.drop_last(), xv).push(t.last()));
                assert(sorted.skip(p - 1) =~= seq![sorted[p - 1]] + sorted.skip(p as int));
                assert(insert_ranked(sorted.take(p - 1), xv).push(sorted[p - 1]) + sorted.skip(p as int)
                    =~= insert_ranked(sorted.take(p - 1), xv) + sorted.skip(p - 1));
            }
            p -= 1;
        }
        proof {
            let t = sorted.take(p as int);
            if p == 0 {
                assert(t =~= Seq::<CollectedView>::empty());
            } else {
                assert(t.last() == sorted[p - 1]);
            }
        }
        out.insert(p, x);
        proof {
            let t = sorted.take(p as int);
            assert(insert_ranked(t, xv) =~= t.push(xv));
            assert(collected_views(out@) =~= t.push(xv) + sorted.skip(p as int));
        }
    }
    assert(all.take(n as int) =~= all);
    out
}

/// Whether `x` goes before `y` (and is another word).
fn ranks_first(x: &Collected, y: &Collected) -> (r: bool)
    ensures
        r == (ranks_before(collected_view(*x), collected_view(*y)) && x.word@ != y.word@),
{
    if crate::text::str_eq(x.word.as_str(), y.word.as_str()) {
        return false;
    }
    x.count > y.count || (x.count == y.count && crate::registry_lock::lex_le_exec(&x.word, &y.word))
}

// ---------------------------------------------------------------------------
// Word files

/// A line of a word file's leading header: blank, or a `#` comment.
pub open spec fn is_header_line(l: Seq<char>) -> bool {
    trim(l).len() == 0 || trim(l)[0] == '#'
}

/// Index of the first line at or after `i` that is not a header line.
pub open spec fn header_end(ls: Seq<Seq<char>>, i: int) -> int
    decreases ls.len() - i,
{
    if i >= ls.len() || !is_header_line(ls[i]) {
        i
    } else {
        header_end(ls, i + 1)
    }
}

/// A line that holds a word: neither blank nor a comment.
pub open spec fn is_word_line(l: Seq<char>) -> bool {
    trim(l).len() > 0 && trim(l)[0] != '#'
}

/// The trimmed words of the word lines `ls[a..b]`.
pub open spec fn words_between(ls: Seq<Seq<char>>, a: int, b: int) -> Set<Seq<char>> {
    Set::new(|w: Seq<char>| exists|k: int| a <= k < b && is_word_line(ls[k]) && trim(ls[k]) == w)
}

/// The words of a word file: the word lines after its header, trimmed.
pub open spec fn file_words(text: Seq<char>) -> Set<Seq<char>> {
    let ls = split_lines(text);
    words_between(ls, header_end(ls, 0), ls.len() as int)
}

/// The first `n` of `words`, trimmed, blank ones left out.
pub open spec fn given_words(words: Seq<Seq<char>>, n: int) -> Set<Seq<char>> {
    Set::new(|w: Seq<char>| exists|k: int| 0 <= k < n && trim(words[k]).len() > 0 && trim(words[k]) == w)
}

/// Each of `ls` followed by a line break.
pub open spec fn listing(ls: Seq<Seq<char>>) -> Seq<char>
    decreases ls.len(),
{
    if ls.len() == 0 {
        Seq::empty()
    } else {
        listing(ls.drop_last()) + ls.last() + seq!['\n']
    }
}

/// The first line of a new word file.
pub open spec fn default_word_header() -> Seq<char> {
    "# ayame-spell word file — one word per line.\n"@
}

/// The header a word file keeps: its header lines, or the default one for a
/// file that is empty.
pub open spec fn word_file_header(text: Seq<char>) -> Seq<char> {
    let ls = split_lines(text);
    let h = header_end(ls, 0);
    if h == 0 && text.len() == 0 {
        default_word_header()
    } else {
        listing(ls.take(h))
    }
}

/// Words in strictly increasing order.
pub open spec fn strictly_ordered(ws: Seq<Seq<char>>) -> bool {
    forall|i: int, j: int| 0 <= i < j < ws.len() ==> lex_le(#[trigger] ws[i], #[trigger] ws[j]) && ws[i] != ws[j]
}

proof fn lemma_ordered_len(ws: Seq<Seq<char>>)
    requires
        strictly_ordered(ws),
    ensures
        ws.to_set().len() == ws.len(),
        ws.to_set().finite(),
{
    assert(ws.no_duplicates()) by {
        assert forall|i: int, j: int| 0 <= i < ws.len() && 0 <= j < ws.len() && i != j implies ws[i] != ws[j] by {
            if i < j {
                assert(lex_le(ws[i], ws[j]) && ws[i] != ws[j]);
            } else {
                assert(lex_le(ws[j], ws[i]) && ws[j] != ws[i]);
            }
        }
    }
    ws.unique_seq_to_set();
    vstd::seq_lib::seq_to_set_is_finite(ws);
}

fn trimmed(l: &[char]) -> (r: String)
    ensures
        r@ == trim(l@),
{
    let (a, b) = trim_bounds(l, 0, l.len());
    assert(l@.subrange(0, l@.len() as int) =~= l@);
    crate::text::string_from_range(l, a, b)
}

/// `w` added to the strictly ordered `v`, unless it is there.
fn insert_word(v: &mut Vec<String>, w: String)
    requires
        strictly_ordered(old(v).deep_view()),
    ensures
        strictly_ordered(final(v).deep_view()),
        final(v).deep_view().to_set() == old(v).deep_view().to_set().insert(w@),
        final(v)@.len() >= old(v)@.len(),
{
    let ghost old_v = v.deep_view();
    let mut p: usize = 0;
    while p < v.len() && !lex_le_exec(&w, &v[p])
        invariant
            0 <= p <= v@.len(),
            old_v == v.deep_view(),
            strictly_ordered(old_v),
            forall|q: int| 0 <= q < p ==> lex_le(#[trigger] old_v[q], w@) && old_v[q] != w@,
        decreases v@.len() - p,
    {
        proof {
            assert(old_v[p as int] == v@[p as int]@);
            lemma_lex_total(w@, old_v[p as int]);
        }
        p += 1;
    }
    if p < v.len() {
        assert(old_v[p as int] == v@[p as int]@);
        if crate::text::str_eq(v[p].as_str(), w.as_str()) {
            assert(old_v.to_set().insert(w@) =~= old_v.to_set());
            return;
        }
    }
    let ghost wv = w@;
    v.insert(p, w);
    proof {
        let nv = v.deep_view();
        assert(nv =~= old_v.insert(p as int, wv));
        assert forall|i: int, j: int| 0 <= i < j < nv.len() implies lex_le(#[trigger] nv[i], #[trigger] nv[j]) && nv[i] != nv[j] by {
            if j < p {
                assert(nv[i] == old_v[i] && nv[j] == old_v[j]);
            } else if j == p {
                assert(nv[i] == old_v[i]);
            } else if i == p {
                assert(nv[j] == old_v[j - 1]);
                assert(lex_le(wv, old_v[p as int]) && wv != old_v[p as int]);
                if j - 1 > p {
                    assert(lex_le(old_v[p as int], old_v[j - 1]));
                    lemma_lex_trans(wv, old_v[p as int], old_v[j - 1]);
                    if wv == old_v[j - 1] {
                        lemma_lex_total(old_v[p as int], wv);
                    }
                }
            } else if i < p {
                assert(nv[i] == old_v[i] && nv[j] == old_v[j - 1]);
            } else {
                assert(nv[i] == old_v[i - 1] && nv[j] == old_v[j - 1]);
            }
        }
        assert forall|x: Seq<char>| nv.to_set().contains(x) <==> old_v.to_set().insert(wv).contains(x) by {
            if old_v.contains(x) {
                let k = choose|k: int| 0 <= k < old_v.len() && old_v[k] == x;
                if k < p {
                    assert(nv[k] == x);
                } else {
                    assert(nv[k + 1] == x);
                }
            }
            if nv.contains(x) {
                let k = choose|k: int| 0 <= k < nv.len() && nv[k] == x;
                if k < p {
                    assert(old_v[k] == x);
                } else if k > p {
                    assert(old_v[k - 1] == x);
                }
            }
            assert(nv[p as int] == wv);
        }
        assert(nv.to_set() =~= old_v.to_set().insert(wv));
    }
}

/// A word file with `words` added: its header kept (or a default one for
/// an empty file), then every word of the file and every non-blank given
/// word, trimmed, once each and sorted. Also returns how many words were
/// new.
pub fn merge_word_file(existing: &str, words: &Vec<String>) -> (r: (String, usize))
    ensures
        exists|ws: Seq<Seq<char>>|
            strictly_ordered(ws) && ws.to_set() == file_words(existing@).union(
                given_words(words.deep_view(), words@.len() as int),
            ) && r.0@ == word_file_header(existing@) + listing(ws),
        r.1 == file_words(existing@).union(given_words(words.deep_view(), words@.len() as int)).len()
            - file_words(existing@).len(),
{
    let cs = chars_of(existing);
    let ls = crate::text::lines(cs.as_slice());
    let ghost sl = split_lines(existing@);
    assert(cs@ == existing@);
    assert(ls@.len() == sl.len());
    let mut h: usize = 0;
    while h < ls.len()
        invariant
            0 <= h <= ls@.len(),
            ls@.len() == sl.len(),
            forall|k: int| 0 <= k < ls@.len() ==> #[trigger] ls@[k]@ == sl[k],
            header_end(sl, 0) == header_end(sl, h as int),
        ensures
            header_end(sl, 0) == h,
        decreases ls@.len() - h,
    {
        let t = trimmed(ls[h].as_slice());
        assert(ls@[h as int]@ == sl[h as int]);
        let tc = chars_of(t.as_str());
        if !(tc.len() == 0 || tc[0] == '#') {
            assert(!is_header_line(sl[h as int]));
            break;
        }
        h += 1;
    }
    let ghost he = header_end(sl, 0);
    assert(he == h);
    let mut set: Vec<String> = Vec::new();
    let mut k: usize = h;
    assert(words_between(sl, h as int, h as int) =~= Set::<Seq<char>>::empty());
    assert(set.deep_view().to_set() =~= Set::<Seq<char>>::empty());
    while k < ls.len()
        invariant
            h <= k <= ls@.len(),
            ls@.len() == sl.len(),
            forall|q: int| 0 <= q < ls@.len() ==> #[trigger] ls@[q]@ == sl[q],
            strictly_ordered(set.deep_view()),
            set.deep_view().to_set() == words_between(sl, h as int, k as int),
        decreases ls@.len() - k,
    {
        let t = trimmed(ls[k].as_slice());
        assert(ls@[k as int]@ == sl[k as int]);
        let tc = chars_of(t.as_str());
        let ghost before = words_between(sl, h as int, k as int);
        if tc.len() > 0 && tc[0] != '#' {
            let ghost tv = t@;
            insert_word(&mut set, t);
            assert(words_between(sl, h as int, k + 1) =~= before.insert(tv)) by {
                assert forall|w: Seq<char>| words_between(sl, h as int, k + 1).contains(w) implies before.insert(tv).contains(w) by {
                    let q = choose|q: int| h <= q < k + 1 && is_word_line(sl[q]) && trim(sl[q]) == w;
                    if q < k {
                        assert(before.contains(w));
                    }
                }
                assert(is_word_line(sl[k as int]) && trim(sl[k as int]) == tv);
            }
        } else {
            assert(words_between(sl, h as int, k + 1) =~= before) by {
                assert forall|w: Seq<char>| words_between(sl, h as int, k + 1).contains(w) implies before.contains(w) by {
                    let q = choose|q: int| h <= q < k + 1 && is_word_line(sl[q]) && trim(sl[q]) == w;
                    assert(q != k);
                }
            }
        }
        k += 1;
    }
    let before = set.len();
    let ghost fw = file_words(existing@);
    assert(fw == set.deep_view().to_set());
    proof {
        lemma_ordered_len(set.deep_view());
    }
    let ghost gv = words.deep_view();
    let mut m: usize = 0;
    assert(given_words(gv, 0) =~= Set::<Seq<char>>::empty());
    assert(fw.union(given_words(gv, 0)) =~= fw);
    while m < words.len()
        invariant
            0 <= m <= words@.len(),
            gv == words.deep_view(),
            set@.len() >= before,
            strictly_ordered(set.deep_view()),
            set.deep_view().to_set() == fw.union(given_words(gv, m as int)),
        decreases words@.len() - m,
    {
        let wc = chars_of(words[m].as_str());
        assert(gv[m as int] == words@[m as int]@);
        let t = trimmed(wc.as_slice());
        let tc = chars_of(t.as_str());
        let ghost g0 = given_words(gv, m as int);
        if tc.len() > 0 {
            let ghost tv = t@;
            insert_word(&mut set, t);
            assert(given_words(gv, m + 1) =~= g0.insert(tv)) by {
                assert forall|w: Seq<char>| given_words(gv, m + 1).contains(w) implies g0.insert(tv).contains(w) by {
                    let q = choose|q: int| 0 <= q < m + 1 && trim(gv[q]).len() > 0 && trim(gv[q]) == w;
                    if q < m {
                        assert(g0.contains(w));
                    }
                }
                assert(trim(gv[m as int]) == tv);
            }
            assert(fw.union(g0).insert(tv) =~= fw.union(g0.insert(tv)));
        } else {
            assert(given_words(gv, m + 1) =~= g0) by {
                assert forall|w: Seq<char>| given_words(gv, m + 1).contains(w) implies g0.contains(w) by {
                    let q = choose|q: int| 0 <= q < m + 1 && trim(gv[q]).len() > 0 && trim(gv[q]) == w;
                    assert(q != m);
                }
            }
        }
        m += 1;
    }
    proof {
        lemma_ordered_len(set.deep_view());
    }
    let added = set.len() - before;
    let mut out = String::new();
    if h == 0 && cs.len() == 0 {
        crate::text::push_str(&mut out, "# ayame-spell word file — one word per line.\n");
        assert(out@ =~= default_word_header());
    } else {
        let mut i: usize = 0;
        while i < h
            invariant
                0 <= i <= h <= ls@.len(),
                ls@.len() == sl.len(),
                forall|q: int| 0 <= q < ls@.len() ==> #[trigger] ls@[q]@ == sl[q],
                out@ == listing(sl.take(i as int)),
            decreases h - i,
        {
            let line = string_from_chars(ls[i].as_slice());
            assert(ls@[i as int]@ == sl[i as int]);
            crate::text::push_str(&mut out, line.as_str());
            push_char(&mut out, '\n');
            assert(sl.take(i + 1).drop_last() =~= sl.take(i as int));
            i += 1;
        }
    }
    let ghost head = out@;
    assert(head == word_file_header(existing@));
    let mut j: usize = 0;
    assert(head + listing(set.deep_view().take(0)) =~= head);
    while j < set.len()
        invariant
            0 <= j <= set@.len(),
            out@ == head + listing(set.deep_view().take(j as int)),
        decreases set@.len() - j,
    {
        let ghost dv = set.deep_view();
        assert(dv[j as int] == set@[j as int]@);
        crate::text::push_str(&mut out, set[j].as_str());
        push_char(&mut out, '\n');
        assert(dv.take(j + 1).drop_last() =~= dv.take(j as int));
        assert(out@ =~= head + listing(dv.take(j + 1)));
        j += 1;
    }
    assert(set.deep_view().take(set@.len() as int) =~= set.deep_view());
    (out, added)
}

/// A word list as written by imports: the words one per line, or a lone
/// line break when there are none.
pub open spec fn rendered_words(ws: Seq<Seq<char>>) -> Seq<char> {
    if ws.len() == 0 {
        seq!['\n']
    } else {
        listing(ws)
    }
}

/// The words of every word line of `existing` (comments and blank lines
/// skipped) and the non-blank `words`, trimmed, sorted, once each, one per
/// line.
pub fn render_word_set(existing: &str, words: &Vec<String>) -> (r: String)
    ensures
        exists|ws: Seq<Seq<char>>|
            strictly_ordered(ws) && ws.to_set() == words_between(
                split_lines(existing@),
                0,
                split_lines(existing@).len() as int,
            ).union(given_words(words.deep_view(), words@.len() as int)) && r@ == rendered_words(ws),
{
    let cs = chars_of(existing);
    let ls = crate::text::lines(cs.as_slice());
    let ghost sl = split_lines(existing@);
    assert(cs@ == existing@);
    let mut set: Vec<String> = Vec::new();
    let mut k: usize = 0;
    assert(words_between(sl, 0, 0) =~= Set::<Seq<char>>::empty());
    assert(set.deep_view().to_set() =~= Set::<Seq<char>>::empty());
    while k < ls.len()
        invariant
            0 <= k <= ls@.len(),
            ls@.len() == sl.len(),
            forall|q: int| 0 <= q < ls@.len() ==> #[trigger] ls@[q]@ == sl[q],
            strictly_ordered(set.deep_view()),
            set.deep_view().to_set() == words_between(sl, 0, k as int),
        decreases ls@.len() - k,
    {
        let t = trimmed(ls[k].as_slice());
        assert(ls@[k as int]@ == sl[k as int]);
        let tc = chars_of(t.as_str());
        let ghost before = words_between(sl, 0, k as int);
        if tc.len() > 0 && tc[0] != '#' {
            let ghost tv = t@;
            insert_word(&mut set, t);
            assert(words_between(sl, 0, k + 1) =~= before.insert(tv)) by {
                assert forall|w: Seq<char>| words_between(sl, 0, k + 1).contains(w) implies before.insert(tv).contains(w) by {
                    let q = choose|q: int| 0 <= q < k + 1 && is_word_line(sl[q]) && trim(sl[q]) == w;
                    if q < k {
                        assert(before.contains(w));
                    }
                }
                assert(is_word_line(sl[k as int]) && trim(sl[k as int]) == tv);
            }
        } else {
            assert(words_between(sl, 0, k + 1) =~= before) by {
                assert forall|w: Seq<char>| words_between(sl, 0, k + 1).contains(w) implies before.contains(w) by {
                    let q = choose|q: int| 0 <= q < k + 1 && is_word_line(sl[q]) && trim(sl[q]) == w;
                    assert(q != k);
                }
            }
        }
        k += 1;
    }
    let ghost fw = words_between(sl, 0, sl.len() as int);
    let ghost gv = words.deep_view();
    let mut m: usize = 0;
    assert(given_words(gv, 0) =~= Set::<Seq<char>>::empty());
    assert(fw.union(given_words(gv, 0)) =~= fw);
    while m < words.len()
        invariant
            0 <= m <= words@.len(),
            gv == words.deep_view(),
            strictly_ordered(set.deep_view()),
            set.deep_view().to_set() == fw.union(given_words(gv, m as int)),
        decreases words@.len() - m,
    {
        let wc = chars_of(words[m].as_str());
        assert(gv[m as int] == words@[m as int]@);
        let t = trimmed(wc.as_slice());
        let tc = chars_of(t.as_str());
        let ghost g0 = given_words(gv, m as int);
        if tc.len() > 0 {
            let ghost tv = t@;
            insert_word(&mut set, t);
            assert(given_words(gv, m + 1) =~= g0.insert(tv)) by {
                assert forall|w: Seq<char>| given_words(gv, m + 1).contains(w) implies g0.insert(tv).contains(w) by {
                    let q = choose|q: int| 0 <= q < m + 1 && trim(gv[q]).len() > 0 && trim(gv[q]) == w;
                    if q < m {
                        assert(g0.contains(w));
                    }
                }
                assert(trim(gv[m as int]) == tv);
            }
            assert(fw.union(g0).insert(tv) =~= fw.union(g0.insert(tv)));
        } else {
            assert(given_words(gv, m + 1) =~= g0) by {
                assert forall|w: Seq<char>| given_words(gv, m + 1).contains(w) implies g0.contains(w) by {
                    let q = choose|q: int| 0 <= q < m + 1 && trim(gv[q]).len() > 0 && trim(gv[q]) == w;
                    assert(q != m);
                }
            }
        }
        m += 1;
    }
    let mut out = String::new();
    if set.len() == 0 {
        push_char(&mut out, '\n');
        assert(out@ =~= rendered_words(set.deep_view()));
        return out;
    }
    let mut j: usize = 0;
    assert(listing(set.deep_view().take(0)) =~= Seq::<char>::empty());
    while j < set.len()
        invariant
            0 <= j <= set@.len(),
            out@ == listing(set.deep_view().take(j as int)),
        decreases set@.len() - j,
    {
        let ghost dv = set.deep_view();
        assert(dv[j as int] == set@[j as int]@);
        crate::text::push_str(&mut out, set[j].as_str());
        push_char(&mut out, '\n');
        assert(dv.take(j + 1).drop_last() =~= dv.take(j as int));
        assert(out@ =~= listing(dv.take(j + 1)));
        j += 1;
    }
    assert(set.deep_view().take(set@.len() as int) =~= set.deep_view());
    out
}

} // verus!
