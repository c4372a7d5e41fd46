//! Word triage: which flagged words to decide on, the decisions offered for
//! each, and the replacements that a fix decision makes in the scanned
//! files.
use vstd::prelude::*;

use crate::issue::IssueKind;
use crate::words::{collected_view, collected_views, Collected, CollectedView, Occurrence, TriageKind};
use crate::fixes::{index_at, lemma_index_at, lemma_offset_strict};
use crate::text::{byte_len, byte_offset, byte_offsets, chars_of, lemma_offset_mono, push_str, str_byte_len, substr, to_owned};

verus! {

/// One replacement in a file: `len` bytes at byte `offset` become
/// `replacement`.
pub struct Edit {
    pub offset: usize,
    pub len: usize,
    pub replacement: String,
}

/// An edit as plain values: offset, length, replacement.
pub type EditView = (usize, usize, Seq<char>);

pub open spec fn edit_view(e: Edit) -> EditView {
    (e.offset, e.len, e.replacement@)
}

pub open spec fn edit_views(es: Seq<Edit>) -> Seq<EditView> {
    es.map_values(|e: Edit| edit_view(e))
}

/// `e` placed into `s`, ordered by decreasing offset, after every edit whose
/// offset is not smaller.
pub open spec fn insert_by_offset_desc(s: Seq<EditView>, e: EditView) -> Seq<EditView>
    decreases s.len(),
{
    if s.len() == 0 {
        seq![e]
    } else if s.last().0 >= e.0 {
        s.push(e)
    } else {
        insert_by_offset_desc(s.drop_last(), e).push(s.last())
    }
}

/// Edits ordered by decreasing offset; edits at one offset keep their order.
pub open spec fn sort_by_offset_desc(es: Seq<EditView>) -> Seq<EditView>
    decreases es.len(),
{
    if es.len() == 0 {
        es
    } else {
        insert_by_offset_desc(sort_by_offset_desc(es.drop_last()), es.last())
    }
}

/// The byte after an edit's range (saturating).
pub open spec fn edit_end(e: EditView) -> int {
    if e.0 + e.1 > usize::MAX {
        usize::MAX as int
    } else {
        e.0 + e.1
    }
}

/// `b` is the byte offset of a character boundary of `s`.
pub open spec fn is_boundary(s: Seq<char>, b: int) -> bool {
    exists|i: int| 0 <= i <= s.len() && byte_offset(s, i) == b
}

/// The byte before which the `k`-th edit (in applied order) must end: the
/// end of the text for the first, the start of the previous edit otherwise.
pub open spec fn bound_before(s: Seq<char>, es: Seq<EditView>, k: int) -> int {
    if k == 0 {
        byte_len(s) as int
    } else {
        es[k - 1].0 as int
    }
}

/// The `k`-th edit lies on character boundaries, before the previous one.
pub open spec fn edit_fits(s: Seq<char>, es: Seq<EditView>, k: int) -> bool {
    let e = es[k];
    &&& e.0 <= edit_end(e) <= bound_before(s, es, k)
    &&& is_boundary(s, e.0 as int)
    &&& is_boundary(s, edit_end(e))
}

/// The first edit at or after `k` that does not fit, or `es.len()`.
pub open spec fn first_misfit(s: Seq<char>, es: Seq<EditView>, k: int) -> int
    decreases es.len() - k,
{
    if k >= es.len() || !edit_fits(s, es, k) {
        k
    } else {
        first_misfit(s, es, k + 1)
    }
}

/// The text from the start of the `k`-th edit on, once the first `k` edits
/// are made.
pub open spec fn rewritten_tail(s: Seq<char>, es: Seq<EditView>, k: int) -> Seq<char>
    decreases k,
{
    if k <= 0 {
        Seq::empty()
    } else {
        es[k - 1].2 + s.subrange(index_at(s, edit_end(es[k - 1])), index_at(s, bound_before(s, es, k - 1)))
            + rewritten_tail(s, es, k - 1)
    }
}

/// The text with the edits made, from the last offset to the first, or the
/// offset of the first edit (in that order) that does not fit.
pub open spec fn spec_apply_edits(s: Seq<char>, es: Seq<EditView>) -> Result<Seq<char>, usize> {
    let d = sort_by_offset_desc(es);
    let k = first_misfit(s, d, 0);
    if k < d.len() {
        Err(d[k].0)
    } else {
        Ok(s.take(index_at(s, bound_before(s, d, d.len() as int))) + rewritten_tail(s, d, d.len() as int))
    }
}

fn copy_edit(e: &Edit) -> (r: Edit)
    ensures
        edit_view(r) == edit_view(*e),
{
    Edit { offset: e.offset, len: e.len, replacement: to_owned(e.replacement.as_str()) }
}

/// Copies of the edits, ordered by decreasing offset (stably).
fn sorted_edits(edits: &Vec<Edit>) -> (r: Vec<Edit>)
    ensures
        edit_views(r@) == sort_by_offset_desc(edit_views(edits@)),
{
    let ghost all = edit_views(edits@);
    let mut out: Vec<Edit> = Vec::new();
    let mut n: usize = 0;
    while n < edits.len()
        invariant
            0 <= n <= edits@.len(),
            all == edit_views(edits@),
            edit_views(out@) == sort_by_offset_desc(all.take(n as int)),
        decreases edits@.len() - n,
    {
        let e = copy_edit(&edits[n]);
        let ghost ev = edit_view(e);
        proof {
            assert(all[n as int] == ev);
            assert(all.take(n + 1).drop_last() =~= all.take(n as int));
            assert(all.take(n + 1).last() == ev);
        }
        let ghost sorted = edit_views(out@);
        let mut p = out.len();
        assert(sorted.take(p as int) =~= sorted);
        assert(insert_by_offset_desc(sorted, ev) + sorted.skip(p as int) =~= insert_by_offset_desc(sorted, ev));
        while p > 0 && out[p - 1].offset < e.offset
            invariant
                0 <= p <= out@.len(),
                sorted == edit_views(out@),
                ev == edit_view(e),
                insert_by_offset_desc(sorted, ev) == insert_by_offset_desc(sorted.take(p as int), ev) + sorted.skip(
                    p as int,
                ),
            decreases p,
        {
            proof {
                let t = sorted.take(p as int);
                assert(t.drop_last() =~= sorted.take(p - 1));
                assert(t.last() == sorted[p - 1]);
                assert(sorted[p - 1] == edit_view(out@[p - 1]));
                assert(insert_by_offset_desc(t, ev) == insert_by_offset_desc(t.drop_last(), ev).push(t.last()));
                assert(sorted.skip(p - 1) =~= seq![sorted[p - 1]] + sorted.skip(p as int));
                assert(insert_by_offset_desc(sorted.take(p - 1), ev).push(sorted[p - 1]) + sorted.skip(p as int)
                    =~= insert_by_offset_desc(sorted.take(p - 1), ev) + sorted.skip(p - 1));
            }
            p -= 1;
        }
        proof {
            let t = sorted.take(p as int);
            if p == 0 {
                assert(t =~= Seq::<EditView>::empty());
            } else {
                assert(t.last() == sorted[p - 1]);
                assert(sorted[p - 1] == edit_view(out@[p - 1]));
            }
        }
        out.insert(p, e);
        proof {
            let t = sorted.take(p as int);
            assert(insert_by_offset_desc(t, ev) =~= t.push(ev));
            assert(edit_views(out@) =~= t.push(ev) + sorted.skip(p as int));
        }
        n += 1;
    }
    assert(all.take(edits@.len() as int) =~= all);
    out
}

/// The character index whose byte offset is `b`, if there is one.
fn char_index_of(offs: &Vec<usize>, b: usize) -> (r: Option<usize>)
    ensures
        match r {
            Some(i) => i < offs@.len() && offs@[i as int] == b,
            None => forall|i: int| 0 <= i < offs@.len() ==> offs@[i] != b,
        },
{
    let mut i: usize = 0;
    while i < offs.len()
        invariant
            0 <= i <= offs@.len(),
            forall|q: int| 0 <= q < i ==> offs@[q] != b,
        decreases offs@.len() - i,
    {
        if offs[i] == b {
            return Some(i);
        }
        i += 1;
    }
    None
}

/// Make the edits in `text`, from the last offset to the first: each must
/// lie on character boundaries and end where the one after it starts, or
/// before. Returns the edited text, or the offset of the first edit (in
/// that order) that does not fit, where nothing is changed.
pub fn apply_edits(text: &str, edits: &Vec<Edit>) -> (r: Result<String, usize>)
    ensures
        match r {
            Ok(t) => spec_apply_edits(text@, edit_views(edits@)) == Ok::<Seq<char>, usize>(t@),
            Err(o) => spec_apply_edits(text@, edit_views(edits@)) == Err::<Seq<char>, usize>(o),
        },
{
    let ghost s = text@;
    let d = sorted_edits(edits);
    let ghost dv = edit_views(d@);
    let n_bytes = str_byte_len(text);
    let cs = chars_of(text);
    let offs = byte_offsets(cs.as_slice());
    let mut starts: Vec<usize> = Vec::new();
    let mut ends: Vec<usize> = Vec::new();
    let mut k: usize = 0;
    assert(first_misfit(s, dv, 0) == first_misfit(s, dv, 0));
    while k < d.len()
        invariant
            s == text@,
            cs@ == s,
            n_bytes == byte_len(s),
            dv == edit_views(d@),
            dv == sort_by_offset_desc(edit_views(edits@)),
            offs@.len() == cs@.len() + 1,
            forall|i: int| 0 <= i <= cs@.len() ==> #[trigger] offs@[i] == byte_offset(cs@, i),
            0 <= k <= d@.len(),
            starts@.len() == k,
            ends@.len() == k,
            first_misfit(s, dv, 0) == first_misfit(s, dv, k as int),
            forall|q: int| 0 <= q < k ==> edit_fits(s, dv, q),
            forall|q: int|
                0 <= q < k ==> #[trigger] starts@[q] <= s.len() && byte_offset(s, starts@[q] as int) == dv[q].0,
            forall|q: int|
                0 <= q < k ==> #[trigger] ends@[q] <= s.len() && byte_offset(s, ends@[q] as int) == edit_end(dv[q]),
        decreases d@.len() - k,
    {
        let e = &d[k];
        assert(dv[k as int] == edit_view(*e));
        let end = if e.offset > usize::MAX - e.len {
            usize::MAX
        } else {
            e.offset + e.len
        };
        let prev = if k == 0 {
            n_bytes
        } else {
            d[k - 1].offset
        };
        proof {
            if k > 0 {
                assert(dv[k - 1] == edit_view(d@[k - 1]));
            }
        }
        let i = char_index_of(&offs, e.offset);
        let j = char_index_of(&offs, end);
        let fits = end <= prev && i.is_some() && j.is_some();
        if !fits {
            proof {
                if is_boundary(s, dv[k as int].0 as int) {
                    let w = choose|w: int| 0 <= w <= s.len() && byte_offset(s, w) == dv[k as int].0;
                    assert(offs@[w] == byte_offset(cs@, w));
                }
                if is_boundary(s, edit_end(dv[k as int])) {
                    let w = choose|w: int| 0 <= w <= s.len() && byte_offset(s, w) == edit_end(dv[k as int]);
                    assert(offs@[w] == byte_offset(cs@, w));
                }
                assert(!edit_fits(s, dv, k as int));
                assert(first_misfit(s, dv, k as int) == k);
                assert(sort_by_offset_desc(edit_views(edits@)) == dv);
                assert(dv[k as int].0 == e.offset);
                assert(spec_apply_edits(s, edit_views(edits@)) == Err::<Seq<char>, usize>(e.offset));
            }
            return Err(e.offset);
        }
        let iv = i.unwrap();
        let jv = j.unwrap();
        assert(offs@[iv as int] == byte_offset(cs@, iv as int));
        assert(offs@[jv as int] == byte_offset(cs@, jv as int));
        assert(edit_fits(s, dv, k as int));
        starts.push(iv);
        ends.push(jv);
        k += 1;
    }
    let ghost n = dv.len() as int;
    assert(first_misfit(s, dv, n) == n);
    // The text before the last edit's start, then every edit and the text
    // after it, from the last edit back to the first.
    let (lead_i, lead_b) = if d.len() == 0 {
        (cs.len(), n_bytes)
    } else {
        (starts[d.len() - 1], d[d.len() - 1].offset)
    };
    proof {
        if d@.len() == 0 {
            lemma_offset_mono(s, s.len() as int, s.len() as int);
            assert(s.take(s.len() as int) =~= s);
        } else {
            assert(dv[n - 1] == edit_view(d@[n - 1]));
        }
        assert(byte_offset(s, lead_i as int) == bound_before(s, dv, n));
        lemma_index_at(s, lead_i as int);
    }
    let mut out = String::new();
    push_str(&mut out, substr(text, 0, lead_b, Ghost(0), Ghost(lead_i as int)));
    proof {
        lemma_offset_mono(s, 0, 0);
        assert(s.take(0) =~= Seq::<char>::empty());
    }
    assert(out@ =~= s.take(index_at(s, bound_before(s, dv, n))));
    let ghost head = out@;
    let mut m: usize = d.len();
    assert(head + rewritten_tail(s, dv, n) =~= out@ + rewritten_tail(s, dv, m as int));
    while m > 0
        invariant
            s == text@,
            cs@ == s,
            n_bytes == byte_len(s),
            dv == edit_views(d@),
            dv == sort_by_offset_desc(edit_views(edits@)),
            n == dv.len(),
            0 <= m <= n,
            starts@.len() == n,
            ends@.len() == n,
            forall|q: int| 0 <= q < n ==> edit_fits(s, dv, q),
            forall|q: int|
                0 <= q < n ==> #[trigger] starts@[q] <= s.len() && byte_offset(s, starts@[q] as int) == dv[q].0,
            forall|q: int|
                0 <= q < n ==> #[trigger] ends@[q] <= s.len() && byte_offset(s, ends@[q] as int) == edit_end(dv[q]),
            out@ + rewritten_tail(s, dv, m as int) == head + rewritten_tail(s, dv, n),
        decreases m,
    {
        let q = m - 1;
        let e = &d[q];
        assert(dv[q as int] == edit_view(*e));
        let end = if e.offset > usize::MAX - e.len {
            usize::MAX
        } else {
            e.offset + e.len
        };
        let (stop_i, stop_b) = if q == 0 {
            (cs.len(), n_bytes)
        } else {
            (starts[q - 1], d[q - 1].offset)
        };
        let ghost ji = ends@[q as int] as int;
        proof {
            if q == 0 {
                lemma_offset_mono(s, s.len() as int, s.len() as int);
                assert(s.take(s.len() as int) =~= s);
            } else {
                assert(dv[q - 1] == edit_view(d@[q - 1]));
            }
            assert(byte_offset(s, stop_i as int) == bound_before(s, dv, q as int));
            assert(edit_fits(s, dv, q as int));
            lemma_index_at(s, stop_i as int);
            lemma_index_at(s, ji);
            if stop_i < ji {
                lemma_offset_strict(s, stop_i as int, ji);
            }
        }
        push_str(&mut out, e.replacement.as_str());
        push_str(&mut out, substr(text, end, stop_b, Ghost(ji), Ghost(stop_i as int)));
        assert(out@ + rewritten_tail(s, dv, q as int) =~= head + rewritten_tail(s, dv, n));
        m = q;
    }
    assert(rewritten_tail(s, dv, 0) =~= Seq::<char>::empty());
    assert(out@ =~= head + rewritten_tail(s, dv, n));
    Ok(out)
}

// ---------------------------------------------------------------------------
// Choosing words and recording decisions

/// Whether triage limited to `filter` takes findings of `kind`.
pub open spec fn kind_filter_takes(filter: Option<TriageKind>, kind: IssueKind) -> bool {
    match filter {
        None => true,
        Some(t) => match t {
            TriageKind::Typo => kind == IssueKind::Typo,
            TriageKind::UnknownWord => kind == IssueKind::UnknownWord,
            TriageKind::EnVariant => kind == IssueKind::EnVariant,
            TriageKind::JaVariant => kind == IssueKind::JaVariant,
        },
    }
}

/// The collected words flagged at least `min_count` times and of the kind
/// asked for, in their order.
pub open spec fn triage_kept(cs: Seq<CollectedView>, filter: Option<TriageKind>, min_count: usize) -> Seq<CollectedView>
    decreases cs.len(),
{
    if cs.len() == 0 {
        cs
    } else {
        let r = triage_kept(cs.drop_last(), filter, min_count);
        let c = cs.last();
        if c.1 >= min_count && kind_filter_takes(filter, c.2) {
            r.push(c)
        } else {
            r
        }
    }
}

/// The words to triage: those kept, at most `limit` of them.
pub open spec fn spec_triage_candidates(
    cs: Seq<CollectedView>,
    filter: Option<TriageKind>,
    min_count: usize,
    limit: Option<usize>,
) -> Seq<CollectedView> {
    let kept = triage_kept(cs, filter, min_count);
    match limit {
        Some(l) => if l < kept.len() {
            kept.take(l as int)
        } else {
            kept
        },
        None => kept,
    }
}

/// Selecting triage candidates: a collected word is kept exactly when it
/// was flagged at least `min_count` times and its kind is the one asked
/// for (any kind without a filter); without a limit every such word is a
/// candidate, and a limit keeps a prefix of them.
pub proof fn law_triage_keeps_frequent_words(
    cs: Seq<CollectedView>,
    filter: Option<TriageKind>,
    min_count: usize,
    limit: Option<usize>,
)
    ensures
        forall|c: CollectedView|
            #[trigger] triage_kept(cs, filter, min_count).contains(c) <==> cs.contains(c) && c.1 >= min_count
                && kind_filter_takes(filter, c.2),
        forall|c: CollectedView|
            cs.contains(c) && c.1 >= min_count && (filter is None || kind_filter_takes(filter, c.2))
                ==> #[trigger] spec_triage_candidates(cs, filter, min_count, None).contains(c),
        forall|c: CollectedView|
            #[trigger] spec_triage_candidates(cs, filter, min_count, limit).contains(c) ==> cs.contains(c)
                && c.1 >= min_count,
        spec_triage_candidates(cs, filter, min_count, limit).len() <= triage_kept(cs, filter, min_count).len(),
        spec_triage_candidates(cs, filter, min_count, limit) == triage_kept(cs, filter, min_count).take(
            spec_triage_candidates(cs, filter, min_count, limit).len() as int,
        ),
        limit is Some ==> spec_triage_candidates(cs, filter, min_count, limit).len() <= limit->0,
        filter == Some(TriageKind::Typo) ==> forall|c: CollectedView|
            #[trigger] triage_kept(cs, filter, min_count).contains(c) ==> c.2 == IssueKind::Typo,
        filter == Some(TriageKind::UnknownWord) ==> forall|c: CollectedView|
            #[trigger] triage_kept(cs, filter, min_count).contains(c) ==> c.2 == IssueKind::UnknownWord,
        filter == Some(TriageKind::EnVariant) ==> forall|c: CollectedView|
            #[trigger] triage_kept(cs, filter, min_count).contains(c) ==> c.2 == IssueKind::EnVariant,
        filter == Some(TriageKind::JaVariant) ==> forall|c: CollectedView|
            #[trigger] triage_kept(cs, filter, min_count).contains(c) ==> c.2 == IssueKind::JaVariant,
    decreases cs.len(),
{
    if cs.len() > 0 {
        law_triage_keeps_frequent_words(cs.drop_last(), filter, min_count, limit);
        let r = triage_kept(cs.drop_last(), filter, min_count);
        assert forall|c: CollectedView|
            #[trigger] triage_kept(cs, filter, min_count).contains(c) <==> cs.contains(c) && c.1 >= min_count
                && kind_filter_takes(filter, c.2) by {
            if cs.contains(c) {
                let j = choose|j: int| 0 <= j < cs.len() && cs[j] == c;
                if j < cs.len() - 1 {
                    assert(cs.drop_last()[j] == c);
                }
            }
            if cs.drop_last().contains(c) {
                let j = choose|j: int| 0 <= j < cs.drop_last().len() && cs.drop_last()[j] == c;
                assert(cs[j] == c);
            }
            if triage_kept(cs, filter, min_count).contains(c) && !r.contains(c) {
                let j = choose|j: int| 0 <= j < triage_kept(cs, filter, min_count).len() && triage_kept(
                    cs,
                    filter,
                    min_count,
                )[j] == c;
                assert(c == cs.last());
                assert(cs[cs.len() - 1] == c);
            }
            if r.contains(c) {
                let j = choose|j: int| 0 <= j < r.len() && r[j] == c;
                if cs.last().1 >= min_count && kind_filter_takes(filter, cs.last().2) {
                    assert(r.push(cs.last())[j] == c);
                }
            }
            if c == cs.last() && c.1 >= min_count && kind_filter_takes(filter, c.2) {
                assert(r.push(cs.last())[r.len() as int] == c);
            }
        }
    }
    let kept = triage_kept(cs, filter, min_count);
    assert forall|c: CollectedView|
        #[trigger] spec_triage_candidates(cs, filter, min_count, limit).contains(c) implies kept.contains(c) by {
        let t = spec_triage_candidates(cs, filter, min_count, limit);
        let j = choose|j: int| 0 <= j < t.len() && t[j] == c;
        assert(kept[j] == c);
    }
    assert(spec_triage_candidates(cs, filter, min_count, limit) =~= kept.take(
        spec_triage_candidates(cs, filter, min_count, limit).len() as int,
    ));
}

/// The collected words to triage: those flagged at least `min_count` times
/// and of the kind asked for, at most `limit` of them.
pub fn triage_candidates(list: Vec<Collected>, kind: Option<TriageKind>, min_count: usize, limit: Option<usize>) -> (r: Vec<
    Collected,
>)
    ensures
        collected_views(r@) == spec_triage_candidates(collected_views(list@), kind, min_count, limit),
{
    let ghost all = collected_views(list@);
    let mut list = list;
    let mut out: Vec<Collected> = Vec::new();
    let ghost mut i: int = 0;
    while list.len() > 0
        invariant
            0 <= i <= all.len(),
            collected_views(list@) == all.skip(i),
            collected_views(out@) == triage_kept(all.take(i), kind, min_count),
        decreases list@.len(),
    {
        let ghost before = list@;
        let c = list.remove(0);
        proof {
            assert(collected_views(before)[0] == collected_view(c));
            assert(collected_views(before).len() == before.len());
            assert(i < all.len());
            assert(all.skip(i)[0] == all[i]);
            assert(all[i] == collected_view(c));
            assert(all.take(i + 1).drop_last() =~= all.take(i));
            assert(all.take(i + 1).last() == collected_view(c));
            assert forall|k: int| 0 <= k < list@.len() implies collected_views(list@)[k] == all.skip(i + 1)[k] by {
                assert(list@[k] == before[k + 1]);
                assert(collected_views(before)[k + 1] == all.skip(i)[k + 1]);
            }
            assert(collected_views(list@) =~= all.skip(i + 1));
        }
        let takes = match kind {
            None => true,
            Some(t) => t.matches(c.kind),
        };
        if c.count >= min_count && takes {
            let ghost o = collected_views(out@);
            out.push(c);
            assert(collected_views(out@) =~= o.push(all[i]));
        }
        proof {
            i = i + 1;
        }
    }
    assert(all.skip(i).len() == 0);
    assert(all.take(i) =~= all);
    match limit {
        Some(l) => {
            if l < out.len() {
                let ghost o = collected_views(out@);
                out.truncate(l);
                assert(collected_views(out@) =~= o.take(l as int));
            }
        },
        None => {},
    }
    out
}

/// What can be decided for a word in triage.
#[derive(Clone, Copy, Debug, PartialEq, Eq, Structural)]
pub enum TriageAction {
    Project,
    Global,
    Ignore,
    Fix,
    Skip,
}

pub open spec fn spec_action_label(a: TriageAction) -> Seq<char> {
    match a {
        TriageAction::Project => "Add to the project dictionary"@,
        TriageAction::Global => "Add to the global dictionary"@,
        TriageAction::Ignore => "Add to [words].ignore"@,
        TriageAction::Fix => "Fix every occurrence"@,
        TriageAction::Skip => "Skip"@,
    }
}

impl TriageAction {
    /// The menu text of the action.
    pub fn label(self) -> (r: &'static str)
        ensures
            r@ == spec_action_label(self),
    {
        match self {
            TriageAction::Project => "Add to the project dictionary",
            TriageAction::Global => "Add to the global dictionary",
            TriageAction::Ignore => "Add to [words].ignore",
            TriageAction::Fix => "Fix every occurrence",
            TriageAction::Skip => "Skip",
        }
    }
}

/// The actions offered for a word: fixing only where there is a
/// suggestion.
pub fn triage_actions(has_suggestions: bool) -> (r: Vec<TriageAction>)
    ensures
        r@ == if has_suggestions {
            seq![TriageAction::Project, TriageAction::Global, TriageAction::Ignore, TriageAction::Fix, TriageAction::Skip]
        } else {
            seq![TriageAction::Project, TriageAction::Global, TriageAction::Ignore, TriageAction::Skip]
        },
{
    let mut v = vec![TriageAction::Project, TriageAction::Global, TriageAction::Ignore];
    if has_suggestions {
        v.push(TriageAction::Fix);
    }
    v.push(TriageAction::Skip);
    assert(v@ =~= if has_suggestions {
        seq![TriageAction::Project, TriageAction::Global, TriageAction::Ignore, TriageAction::Fix, TriageAction::Skip]
    } else {
        seq![TriageAction::Project, TriageAction::Global, TriageAction::Ignore, TriageAction::Skip]
    });
    v
}

/// A fix decision: every occurrence of a word becomes `replacement`.
pub struct FixDecision {
    pub replacement: String,
    pub occurrences: Vec<Occurrence>,
}

pub type OccurrenceView = (Seq<char>, usize, usize);

pub open spec fn occurrence_views(os: Seq<Occurrence>) -> Seq<OccurrenceView> {
    os.map_values(|o: Occurrence| (o.path@, o.offset, o.len))
}

pub open spec fn fix_view(f: FixDecision) -> (Seq<char>, Seq<OccurrenceView>) {
    (f.replacement@, occurrence_views(f.occurrences@))
}

pub open spec fn fix_views(fs: Seq<FixDecision>) -> Seq<(Seq<char>, Seq<OccurrenceView>)> {
    fs.map_values(|f: FixDecision| fix_view(f))
}

/// The decisions of a triage session.
pub struct TriageDecisions {
    pub project: Vec<String>,
    pub global: Vec<String>,
    pub ignored: Vec<String>,
    pub fixes: Vec<FixDecision>,
    pub skipped: usize,
}

/// Project words, global words, ignored words, fixes, and the number of
/// words skipped.
pub type DecisionsView = (
    Seq<Seq<char>>,
    Seq<Seq<char>>,
    Seq<Seq<char>>,
    Seq<(Seq<char>, Seq<OccurrenceView>)>,
    nat,
);

impl View for TriageDecisions {
    type V = DecisionsView;

    open spec fn view(&self) -> DecisionsView {
        (self.project.deep_view(), self.global.deep_view(), self.ignored.deep_view(), fix_views(self.fixes@), self.skipped as nat)
    }
}

/// The decisions after deciding `action` for the word `c`; a fix takes the
/// suggestion at `choice`.
pub open spec fn spec_decide(d: DecisionsView, c: CollectedView, action: TriageAction, choice: int) -> DecisionsView {
    match action {
        TriageAction::Project => (d.0.push(c.0), d.1, d.2, d.3, d.4),
        TriageAction::Global => (d.0, d.1.push(c.0), d.2, d.3, d.4),
        TriageAction::Ignore => (d.0, d.1, d.2.push(c.0), d.3, d.4),
        TriageAction::Fix => (d.0, d.1, d.2, d.3.push((c.4[choice], c.5)), d.4),
        TriageAction::Skip => (d.0, d.1, d.2, d.3, d.4 + 1),
    }
}

impl TriageDecisions {
    /// No decisions yet.
    pub fn new() -> (r: TriageDecisions)
        ensures
            r@ == (Seq::<Seq<char>>::empty(), Seq::<Seq<char>>::empty(), Seq::<Seq<char>>::empty(), Seq::<
                (Seq<char>, Seq<OccurrenceView>),
            >::empty(), 0nat),
    {
        let r = TriageDecisions {
            project: Vec::new(),
            global: Vec::new(),
            ignored: Vec::new(),
            fixes: Vec::new(),
            skipped: 0,
        };
        assert(r.project.deep_view() =~= Seq::<Seq<char>>::empty());
        assert(r.global.deep_view() =~= Seq::<Seq<char>>::empty());
        assert(r.ignored.deep_view() =~= Seq::<Seq<char>>::empty());
        assert(fix_views(r.fixes@) =~= Seq::<(Seq<char>, Seq<OccurrenceView>)>::empty());
        r
    }

    /// Record `action` for the word `c`; a fix replaces every occurrence
    /// with the suggestion at `choice`.
    pub fn decide(&mut self, c: Collected, action: TriageAction, choice: usize)
        requires
            action == TriageAction::Fix ==> choice < c.suggestions@.len(),
            action == TriageAction::Skip ==> old(self).skipped < usize::MAX,
        ensures
            final(self)@ == spec_decide(old(self)@, collected_view(c), action, choice as int),
    {
        let ghost cv = collected_view(c);
        match action {
            TriageAction::Project => {
                let ghost b = self.project.deep_view();
                self.project.push(c.word);
                assert(self.project.deep_view() =~= b.push(cv.0));
            },
            TriageAction::Global => {
                let ghost b = self.global.deep_view();
                self.global.push(c.word);
                assert(self.global.deep_view() =~= b.push(cv.0));
            },
            TriageAction::Ignore => {
                let ghost b = self.ignored.deep_view();
                self.ignored.push(c.word);
                assert(self.ignored.deep_view() =~= b.push(cv.0));
            },
            TriageAction::Fix => {
                let ghost b = fix_views(self.fixes@);
                let replacement = to_owned(c.suggestions[choice].as_str());
                assert(c.suggestions.deep_view()[choice as int] == c.suggestions@[choice as int]@);
                let f = FixDecision { replacement, occurrences: c.occurrences };
                self.fixes.push(f);
                assert(fix_views(self.fixes@) =~= b.push(fix_view(f)));
            },
            TriageAction::Skip => {
                self.skipped = self.skipped + 1;
            },
        }
    }

    /// Finish with `remaining` words left undecided: they count as skipped.
    pub fn finish(&mut self, remaining: usize)
        requires
            old(self).skipped + remaining <= usize::MAX,
        ensures
            final(self)@ == (old(self)@.0, old(self)@.1, old(self)@.2, old(self)@.3, (old(self)@.4 + remaining) as nat),
    {
        self.skipped = self.skipped + remaining;
    }
}

/// The edits the fix decisions make in the file at `path`: for each
/// decision in turn, each of its occurrences there.
pub open spec fn spec_edits_for_path(fs: Seq<(Seq<char>, Seq<OccurrenceView>)>, path: Seq<char>) -> Seq<EditView>
    decreases fs.len(),
{
    if fs.len() == 0 {
        Seq::empty()
    } else {
        let f = fs.last();
        spec_edits_for_path(fs.drop_last(), path) + occurrence_edits(f.1, path, f.0)
    }
}

/// The occurrences in `path`, each as an edit to `replacement`.
pub open spec fn occurrence_edits(os: Seq<OccurrenceView>, path: Seq<char>, replacement: Seq<char>) -> Seq<EditView>
    decreases os.len(),
{
    if os.len() == 0 {
        Seq::empty()
    } else {
        let o = os.last();
        let r = occurrence_edits(os.drop_last(), path, replacement);
        if o.0 == path {
            r.push((o.1, o.2, replacement))
        } else {
            r
        }
    }
}

/// The edits that the fix decisions make in the file at `path`.
pub fn edits_for_path(fixes: &Vec<FixDecision>, path: &str) -> (r: Vec<Edit>)
    ensures
        edit_views(r@) == spec_edits_for_path(fix_views(fixes@), path@),
{
    let ghost fs = fix_views(fixes@);
    let mut out: Vec<Edit> = Vec::new();
    let mut i: usize = 0;
    while i < fixes.len()
        invariant
            0 <= i <= fixes@.len(),
            fs == fix_views(fixes@),
            edit_views(out@) == spec_edits_for_path(fs.take(i as int), path@),
        decreases fixes@.len() - i,
    {
        let f = &fixes[i];
        let ghost os = occurrence_views(f.occurrences@);
        let ghost base = edit_views(out@);
        let mut j: usize = 0;
        while j < f.occurrences.len()
            invariant
                0 <= j <= f.occurrences@.len(),
                os == occurrence_views(f.occurrences@),
                edit_views(out@) == base + occurrence_edits(os.take(j as int), path@, f.replacement@),
            decreases f.occurrences@.len() - j,
        {
            let o = &f.occurrences[j];
            assert(os.take(j + 1).drop_last() =~= os.take(j as int));
            assert(os.take(j + 1).last() == (o.path@, o.offset, o.len));
            if crate::text::str_eq(o.path.as_str(), path) {
                let ghost b = edit_views(out@);
                let e = Edit { offset: o.offset, len: o.len, replacement: to_owned(f.replacement.as_str()) };
                out.push(e);
                assert(edit_views(out@) =~= b.push(edit_view(e)));
            }
            j += 1;
        }
        assert(os.take(os.len() as int) =~= os);
        assert(fs.take(i + 1).drop_last() =~= fs.take(i as int));
        assert(fs.take(i + 1).last() == fix_view(*f));
        i += 1;
    }
    assert(fs.take(fs.len() as int) =~= fs);
    out
}

} // verus!
