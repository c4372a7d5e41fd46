//! Wordlists for unknown-word ("dictionary mode") checking, and the edit
//! distance used to rank suggestions.
use vstd::prelude::*;
use vstd::hash_map::StringHashMap;
use vstd::string::StringSliceAdditionalSpecFns;
use vstd::utf8::encode_utf8;

use crate::config::{lowercase, unicode_lowercase};
use crate::registry_lock::{lemma_lex_total, lemma_lex_trans, lex_le, lex_le_exec};
use crate::text::{chars_of, lines, slice_range, split_lines, string_from_chars, trim, trim_bounds};

verus! {

pub open spec fn min3(x: int, y: int, z: int) -> int {
    if x <= y && x <= z {
        x
    } else if y <= z {
        y
    } else {
        z
    }
}

/// Levenshtein distance: the fewest single-element insertions, deletions
/// and substitutions that turn `a` into `b`.
pub open spec fn lev<T>(a: Seq<T>, b: Seq<T>) -> nat
    decreases a.len() + b.len(),
{
    if a.len() == 0 {
        b.len()
    } else if b.len() == 0 {
        a.len()
    } else {
        min3(
            lev(a.drop_last(), b) + 1int,
            lev(a, b.drop_last()) + 1int,
            lev(a.drop_last(), b.drop_last()) as int + if a.last() == b.last() {
                0int
            } else {
                1int
            },
        ) as nat
    }
}

/// A sequence is at distance 0 from itself.
pub proof fn law_lev_identity<T>(a: Seq<T>)
    ensures
        lev(a, a) == 0,
    decreases a.len(),
{
    if a.len() > 0 {
        law_lev_identity(a.drop_last());
    }
}

/// The distance from the empty sequence is the other sequence's length,
/// either way round.
pub proof fn law_lev_empty<T>(b: Seq<T>)
    ensures
        lev(Seq::<T>::empty(), b) == b.len(),
        lev(b, Seq::<T>::empty()) == b.len(),
{
}

/// The distance does not depend on the order of its arguments.
pub proof fn law_lev_symmetric<T>(a: Seq<T>, b: Seq<T>)
    ensures
        lev(a, b) == lev(b, a),
    decreases a.len() + b.len(),
{
    if a.len() > 0 && b.len() > 0 {
        law_lev_symmetric(a.drop_last(), b);
        law_lev_symmetric(a, b.drop_last());
        law_lev_symmetric(a.drop_last(), b.drop_last());
    }
}

pub proof fn lemma_lev_bound<T>(a: Seq<T>, b: Seq<T>)
    ensures
        lev(a, b) <= if a.len() >= b.len() {
            a.len()
        } else {
            b.len()
        },
    decreases a.len() + b.len(),
{
    if a.len() > 0 && b.len() > 0 {
        lemma_lev_bound(a.drop_last(), b.drop_last());
        lemma_lev_bound(a.drop_last(), b);
        lemma_lev_bound(a, b.drop_last());
    }
}

/// The distance is at least the difference of the lengths.
pub proof fn law_lev_lower_bound<T>(a: Seq<T>, b: Seq<T>)
    ensures
        lev(a, b) >= if a.len() >= b.len() {
            a.len() - b.len()
        } else {
            b.len() - a.len()
        },
    decreases a.len() + b.len(),
{
    if a.len() > 0 && b.len() > 0 {
        law_lev_lower_bound(a.drop_last(), b);
        law_lev_lower_bound(a, b.drop_last());
        law_lev_lower_bound(a.drop_last(), b.drop_last());
    }
}

/// The distance is zero exactly between equal sequences.
pub proof fn law_lev_zero<T>(a: Seq<T>, b: Seq<T>)
    ensures
        (lev(a, b) == 0) == (a == b),
    decreases a.len() + b.len(),
{
    if a == b {
        law_lev_identity(a);
    } else if a.len() > 0 && b.len() > 0 {
        law_lev_zero(a.drop_last(), b.drop_last());
        if lev(a, b) == 0 {
            assert(a.drop_last() == b.drop_last());
            assert(a =~= a.drop_last().push(a.last()));
            assert(b =~= b.drop_last().push(b.last()));
        }
    } else if a.len() == 0 && b.len() == 0 {
        assert(a =~= b);
    }
}

/// Going through a third sequence is never shorter: the distance obeys
/// the triangle inequality.
pub proof fn law_lev_triangle<T>(a: Seq<T>, b: Seq<T>, c: Seq<T>)
    ensures
        lev(a, c) <= lev(a, b) + lev(b, c),
    decreases a.len() + b.len() + c.len(),
{
    if a.len() == 0 {
        law_lev_lower_bound(b, c);
    } else if c.len() == 0 {
        law_lev_lower_bound(a, b);
    } else if b.len() == 0 {
        lemma_lev_bound(a, c);
    } else {
        let a1 = a.drop_last();
        let b1 = b.drop_last();
        let c1 = c.drop_last();
        law_lev_triangle(a1, b, c);
        law_lev_triangle(a, b1, c);
        law_lev_triangle(a, b, c1);
        law_lev_triangle(a1, b1, c1);
        law_lev_triangle(a, b1, c1);
        assert(lev(a, b1) <= lev(a1, b1) + 1) by {
            if b1.len() > 0 {
            } else {
                law_lev_lower_bound(a1, b1);
                lemma_lev_bound(a, b1);
                lemma_lev_bound(a1, b1);
            }
        }
    }
}

/// `y` is `x` after one insertion, deletion or substitution.
pub open spec fn one_edit<T>(x: Seq<T>, y: Seq<T>) -> bool {
    ||| exists|i: int| 0 <= i < x.len() && y == #[trigger] x.remove(i)
    ||| exists|i: int, c: T| 0 <= i <= x.len() && y == #[trigger] x.insert(i, c)
    ||| exists|i: int, c: T| 0 <= i < x.len() && y == #[trigger] x.update(i, c)
}

/// `xs` is a chain of single edits from its first sequence to its last.
pub open spec fn edit_chain<T>(xs: Seq<Seq<T>>) -> bool {
    xs.len() >= 1 && forall|k: int| 0 <= k < xs.len() - 1 ==> one_edit(#[trigger] xs[k], xs[k + 1])
}

proof fn lemma_lev_remove<T>(x: Seq<T>, i: int)
    requires
        0 <= i < x.len(),
    ensures
        lev(x, x.remove(i)) <= 1,
    decreases x.len(),
{
    let y = x.remove(i);
    if i == x.len() - 1 {
        assert(y =~= x.drop_last());
        law_lev_identity(y);
    } else {
        assert(y.last() == x.last());
        assert(y.drop_last() =~= x.drop_last().remove(i));
        lemma_lev_remove(x.drop_last(), i);
    }
}

proof fn lemma_lev_update<T>(x: Seq<T>, i: int, c: T)
    requires
        0 <= i < x.len(),
    ensures
        lev(x, x.update(i, c)) <= 1,
    decreases x.len(),
{
    let y = x.update(i, c);
    if i == x.len() - 1 {
        assert(y.drop_last() =~= x.drop_last());
        law_lev_identity(x.drop_last());
    } else {
        assert(y.last() == x.last());
        assert(y.drop_last() =~= x.drop_last().update(i, c));
        lemma_lev_update(x.drop_last(), i, c);
    }
}

proof fn lemma_one_edit_lev<T>(x: Seq<T>, y: Seq<T>)
    requires
        one_edit(x, y),
    ensures
        lev(x, y) <= 1,
{
    if exists|i: int| 0 <= i < x.len() && y == #[trigger] x.remove(i) {
        let i = choose|i: int| 0 <= i < x.len() && y == #[trigger] x.remove(i);
        lemma_lev_remove(x, i);
    } else if exists|i: int, c: T| 0 <= i <= x.len() && y == #[trigger] x.insert(i, c) {
        let (i, c) = choose|i: int, c: T| 0 <= i <= x.len() && y == #[trigger] x.insert(i, c);
        assert(y.remove(i) =~= x);
        lemma_lev_remove(y, i);
        law_lev_symmetric(x, y);
    } else {
        let (i, c) = choose|i: int, c: T| 0 <= i < x.len() && y == #[trigger] x.update(i, c);
        lemma_lev_update(x, i, c);
    }
}

/// No chain of single edits from `xs[0]` to its last sequence is shorter
/// than their distance: the distance is the least number of edits.
pub proof fn law_lev_least<T>(xs: Seq<Seq<T>>)
    requires
        edit_chain(xs),
    ensures
        lev(xs[0], xs.last()) <= xs.len() - 1,
    decreases xs.len(),
{
    if xs.len() == 1 {
        law_lev_identity(xs[0]);
    } else {
        let ys = xs.drop_last();
        assert forall|k: int| 0 <= k < ys.len() - 1 implies one_edit(#[trigger] ys[k], ys[k + 1]) by {
            assert(one_edit(xs[k], xs[k + 1]));
        }
        law_lev_least(ys);
        lemma_one_edit_lev(xs[xs.len() - 2], xs.last());
        law_lev_triangle(xs[0], xs[xs.len() - 2], xs.last());
    }
}

proof fn lemma_one_edit_push<T>(u: Seq<T>, v: Seq<T>, x: T)
    requires
        one_edit(u, v),
    ensures
        one_edit(u.push(x), v.push(x)),
{
    if exists|i: int| 0 <= i < u.len() && v == #[trigger] u.remove(i) {
        let i = choose|i: int| 0 <= i < u.len() && v == #[trigger] u.remove(i);
        assert(u.push(x).remove(i) =~= v.push(x));
    } else if exists|i: int, c: T| 0 <= i <= u.len() && v == #[trigger] u.insert(i, c) {
        let (i, c) = choose|i: int, c: T| 0 <= i <= u.len() && v == #[trigger] u.insert(i, c);
        assert(u.push(x).insert(i, c) =~= v.push(x));
    } else {
        let (i, c) = choose|i: int, c: T| 0 <= i < u.len() && v == #[trigger] u.update(i, c);
        assert(u.push(x).update(i, c) =~= v.push(x));
    }
}

/// A chain of single edits from `a` to `b` exactly as long as their
/// distance: the distance is reached.
pub proof fn law_lev_reached<T>(a: Seq<T>, b: Seq<T>) -> (xs: Seq<Seq<T>>)
    ensures
        edit_chain(xs),
        xs[0] == a,
        xs.last() == b,
        xs.len() == lev(a, b) + 1,
    decreases a.len() + b.len(),
{
    if a.len() == 0 && b.len() == 0 {
        assert(a =~= b);
        seq![a]
    } else if a.len() == 0 || (b.len() > 0 && lev(a, b) == lev(a, b.drop_last()) + 1) {
        let ys = law_lev_reached(a, b.drop_last());
        let xs = ys.push(b);
        assert(b.drop_last().insert(b.len() - 1, b.last()) =~= b);
        assert(one_edit(b.drop_last(), b));
        assert forall|k: int| 0 <= k < xs.len() - 1 implies one_edit(#[trigger] xs[k], xs[k + 1]) by {
            if k < ys.len() - 1 {
                assert(one_edit(ys[k], ys[k + 1]));
            }
        }
        xs
    } else if b.len() == 0 || lev(a, b) == lev(a.drop_last(), b) + 1 {
        let ys = law_lev_reached(a.drop_last(), b);
        let xs = seq![a] + ys;
        assert(a.remove(a.len() - 1) =~= a.drop_last());
        assert(one_edit(a, a.drop_last()));
        assert forall|k: int| 0 <= k < xs.len() - 1 implies one_edit(#[trigger] xs[k], xs[k + 1]) by {
            if k > 0 {
                assert(xs[k] == ys[k - 1] && xs[k + 1] == ys[k]);
                assert(one_edit(ys[k - 1], ys[k]));
            }
        }
        xs
    } else {
        let x = a.last();
        let y = b.last();
        let ys = law_lev_reached(a.drop_last(), b.drop_last());
        let zs = ys.map_values(|s: Seq<T>| s.push(x));
        assert forall|k: int| 0 <= k < zs.len() - 1 implies one_edit(#[trigger] zs[k], zs[k + 1]) by {
            assert(one_edit(ys[k], ys[k + 1]));
            lemma_one_edit_push(ys[k], ys[k + 1], x);
        }
        assert(zs[0] =~= a);
        if x == y {
            assert(zs.last() =~= b);
            zs
        } else {
            let xs = zs.push(b);
            let last = b.drop_last().push(x);
            assert(zs.last() == last);
            assert(last.update(last.len() - 1, y) =~= b);
            assert(one_edit(last, b));
            assert forall|k: int| 0 <= k < xs.len() - 1 implies one_edit(#[trigger] xs[k], xs[k + 1]) by {
                if k < zs.len() - 1 {
                    assert(one_edit(zs[k], zs[k + 1]));
                }
            }
            xs
        }
    }
}

/// Plain Levenshtein distance over bytes (words here are ASCII).
pub fn edit_distance(a: &str, b: &str) -> (d: usize)
    requires
        a.spec_bytes().len() < usize::MAX,
        b.spec_bytes().len() < usize::MAX,
    ensures
        d == lev(a.spec_bytes(), b.spec_bytes()),
{
    let x = a.as_bytes();
    let y = b.as_bytes();
    let ghost sa = x@;
    let ghost sb = y@;
    let m = y.len();
    let mut prev: Vec<usize> = Vec::new();
    let mut j: usize = 0;
    while j <= m
        invariant
            m == sb.len(),
            m < usize::MAX,
            0 <= j <= m + 1,
            prev@.len() == j,
            forall|k: int| 0 <= k < j ==> #[trigger] prev@[k] == lev(sa.take(0), sb.take(k)),
        decreases m + 1 - j,
    {
        assert(sa.take(0).len() == 0);
        prev.push(j);
        j += 1;
    }
    let mut i: usize = 0;
    while i < x.len()
        invariant
            sa == x@,
            sb == y@,
            m == sb.len(),
            m < usize::MAX,
            sa.len() < usize::MAX,
            0 <= i <= sa.len(),
            prev@.len() == m + 1,
            forall|k: int| 0 <= k <= m ==> #[trigger] prev@[k] == lev(sa.take(i as int), sb.take(k)),
        decreases sa.len() - i,
    {
        let ca = x[i];
        let mut cur: Vec<usize> = Vec::new();
        proof {
            assert(sb.take(0).len() == 0);
        }
        cur.push(i + 1);
        let mut j: usize = 0;
        while j < m
            invariant
                sa == x@,
                sb == y@,
                m == sb.len(),
                m < usize::MAX,
                sa.len() < usize::MAX,
                0 <= i < sa.len(),
                ca == sa[i as int],
                0 <= j <= m,
                prev@.len() == m + 1,
                forall|k: int| 0 <= k <= m ==> #[trigger] prev@[k] == lev(sa.take(i as int), sb.take(k)),
                cur@.len() == j + 1,
                forall|k: int| 0 <= k <= j ==> #[trigger] cur@[k] == lev(sa.take(i + 1), sb.take(k)),
            decreases m - j,
        {
            let cb = y[j];
            proof {
                lemma_lev_bound(sa.take(i as int), sb.take(j as int));
                lemma_lev_bound(sa.take(i as int), sb.take(j + 1));
                lemma_lev_bound(sa.take(i + 1), sb.take(j as int));
                let p = sa.take(i + 1);
                let q = sb.take(j + 1);
                assert(p.drop_last() =~= sa.take(i as int));
                assert(q.drop_last() =~= sb.take(j as int));
                assert(p.last() == ca);
                assert(q.last() == cb);
            }
            let cost: usize = if ca != cb {
                1
            } else {
                0
            };
            let sub = prev[j] + cost;
            let del = prev[j + 1] + 1;
            let ins = cur[j] + 1;
            let best = if sub <= del && sub <= ins {
                sub
            } else if del <= ins {
                del
            } else {
                ins
            };
            cur.push(best);
            j += 1;
        }
        prev = cur;
        i += 1;
    }
    proof {
        assert(sa.take(sa.len() as int) =~= sa);
        assert(sb.take(m as int) =~= sb);
    }
    prev[m]
}


// ---------------------------------------------------------------------------
// FST word sets
// ---------------------------------------------------------------------------

#[verifier::external_type_specification]
#[verifier::external_body]
#[verifier::reject_recursive_types(D)]
pub struct ExFstSet<D>(fst::Set<D>);

/// The keys of an FST set.
pub uninterp spec fn fst_keys(s: fst::Set<Vec<u8>>) -> Set<Seq<u8>>;

/// Keys strictly increasing in byte order.
pub open spec fn strictly_increasing(ws: Seq<String>) -> bool {
    forall|i: int, j: int|
        0 <= i < j < ws.len() ==> lex_le(#[trigger] ws[i]@, #[trigger] ws[j]@) && ws[i]@ != ws[j]@
}

/// `fst::Set::from_iter` over strictly increasing keys. Claims the set's
/// keys are the keys handed in; the crate fails only on keys out of order.
#[verifier::external_body]
fn fst_build(words: &Vec<String>) -> (r: fst::Set<Vec<u8>>)
    requires
        strictly_increasing(words@),
    ensures
        fst_keys(r) == encodings(words@).to_set(),
{
    fst::Set::from_iter(words.iter()).unwrap_or_default()
}

/// `fst::Set::contains`.
#[verifier::external_body]
fn fst_contains(set: &fst::Set<Vec<u8>>, key: &str) -> (r: bool)
    ensures
        r == fst_keys(*set).contains(key.spec_bytes()),
{
    set.contains(key)
}

/// Whether a search of the keys `keys` for the words within `dist` edits of
/// `query` succeeds: the automaton for `query` and `dist` can be built and
/// every key it accepts is UTF-8.
pub uninterp spec fn fst_search_succeeds(keys: Set<Seq<u8>>, query: Seq<char>, dist: u32) -> bool;

/// The keys of a set within `dist` edits (insertions, deletions and
/// substitutions of Unicode characters) of `query`, by an
/// `fst::automaton::Levenshtein` search; `None` when the automaton cannot
/// be built or a key is not UTF-8. Claims each key handed back is such a
/// key, that every such key is handed back, and that whether the search
/// succeeds depends on the keys, the query and the distance alone.
#[verifier::external_body]
fn fst_search(set: &fst::Set<Vec<u8>>, query: &str, dist: u32) -> (r: Option<Vec<String>>)
    ensures
        match r {
            Some(v) => {
                &&& forall|j: int|
                    0 <= j < v@.len() ==> fst_keys(*set).contains(encode_utf8((#[trigger] v@[j])@))
                        && lev(query@, v@[j]@) <= dist
                &&& forall|x: Seq<char>|
                    fst_keys(*set).contains(#[trigger] encode_utf8(x)) && lev(query@, x) <= dist
                        ==> exists|j: int| 0 <= j < v@.len() && (#[trigger] v@[j])@ == x
            },
            None => true,
        },
        r is Some <==> fst_search_succeeds(fst_keys(*set), query@, dist),
{
    let lev = fst::automaton::Levenshtein::new(query, dist).ok()?;
    fst::IntoStreamer::into_stream(set.search(&lev)).into_strs().ok()
}

/// `slice::sort` of strings (byte order, which for UTF-8 is the order of
/// the characters): a permutation in non-decreasing order.
#[verifier::external_body]
fn sort_strings(v: &mut Vec<String>)
    ensures
        final(v)@.to_multiset() == old(v)@.to_multiset(),
        forall|i: int, j: int|
            0 <= i < j < final(v)@.len() ==> lex_le(#[trigger] final(v)@[i]@, #[trigger] final(v)@[j]@),
{
    v.sort();
}

/// The words of a wordlist text: one per line, trimmed and lowercased,
/// skipping blank lines and `#` comments.
pub open spec fn list_words(ls: Seq<Seq<char>>) -> Set<Seq<char>>
    decreases ls.len(),
{
    if ls.len() == 0 {
        Set::empty()
    } else {
        let t = trim(ls.last());
        let rest = list_words(ls.drop_last());
        if t.len() > 0 && t[0] != '#' {
            rest.insert(unicode_lowercase(t))
        } else {
            rest
        }
    }
}

/// Wordlists for unknown-word checking: large lists held in FSTs, small
/// mutable lists (project and global words) in a hash set.
pub struct WordSets {
    sets: Vec<fst::Set<Vec<u8>>>,
    exact: StringHashMap<()>,
    exact_list: Vec<String>,
}

impl WordSets {
    /// Well-formed: the list of exact words holds exactly the hash set's
    /// words, once each.
    pub closed spec fn wf(&self) -> bool {
        &&& forall|k: Seq<char>| self.exact@.contains_key(k) <==> exists|i: int|
            0 <= i < self.exact_list@.len() && (#[trigger] self.exact_list@[i])@ == k
        &&& forall|i: int, j: int|
            0 <= i < j < self.exact_list@.len() ==> (#[trigger] self.exact_list@[i])@ != (
            #[trigger] self.exact_list@[j])@
    }

    /// Every word the sets hold.
    pub closed spec fn words(&self) -> Set<Seq<char>> {
        Set::new(
            |x: Seq<char>|
                self.exact@.contains_key(x) || exists|i: int|
                    0 <= i < self.sets@.len() && fst_keys(#[trigger] self.sets@[i]).contains(
                        encode_utf8(x),
                    ),
        )
    }

    /// How many wordlists have been added.
    pub closed spec fn list_count(&self) -> nat {
        self.sets@.len()
    }

    /// The individually added words.
    pub closed spec fn single_words(&self) -> Set<Seq<char>> {
        self.exact@.dom()
    }

    pub fn new() -> (r: Self)
        ensures
            r.wf(),
            r.words() == Set::<Seq<char>>::empty(),
            r.list_count() == 0,
            r.single_words() == Set::<Seq<char>>::empty(),
    {
        let r = WordSets { sets: Vec::new(), exact: StringHashMap::new(), exact_list: Vec::new() };
        assert(r.words() =~= Set::<Seq<char>>::empty());
        r
    }

    /// Add a wordlist from text: one word per line, `#` comments.
    pub fn add_wordlist_str(&mut self, text: &str)
        requires
            old(self).wf(),
        ensures
            final(self).wf(),
            final(self).words() == old(self).words().union(list_words(split_lines(text@))),
    {
        let cs = chars_of(text);
        let ls = lines(cs.as_slice());
        let ghost all = split_lines(text@);
        let mut words: Vec<String> = Vec::new();
        let mut i: usize = 0;
        while i < ls.len()
            invariant
                cs@ == text@,
                all == split_lines(text@),
                ls@.len() == all.len(),
                forall|k: int| 0 <= k < ls@.len() ==> #[trigger] ls@[k]@ == all[k],
                0 <= i <= ls@.len(),
                views(words@) == list_words(all.take(i as int)),
            decreases ls@.len() - i,
        {
            let (a, b) = trim_bounds(ls[i].as_slice(), 0, ls[i].len());
            let ghost l = ls@[i as int]@;
            assert(l.subrange(0, l.len() as int) =~= l);
            proof {
                assert(all.take(i + 1).drop_last() =~= all.take(i as int));
                assert(all.take(i + 1).last() == l);
            }
            if a < b && ls[i][a] != '#' {
                let t = string_from_chars(slice_range(ls[i].as_slice(), a, b).as_slice());
                let w = lowercase(t.as_str());
                let ghost before = words@;
                words.push(w);
                proof {
                    assert(views_seq(words@) =~= views_seq(before).push(w@));
                    broadcast use vstd::seq_lib::group_seq_properties;
                    assert(views(words@) =~= views(before).insert(w@));
                }
            }
            i += 1;
        }
        assert(all.take(ls@.len() as int) =~= all);
        assert(views(Seq::<String>::empty()) =~= Set::<Seq<char>>::empty());
        let ghost listed = views(words@);
        let ghost unsorted = words@;
        sort_strings(&mut words);
        proof {
            lemma_views_of_perm(unsorted, words@);
        }
        let unique = dedup_sorted(words);
        let ghost old_words = self.words();
        let set = fst_build(&unique);
        self.sets.push(set);
        proof {
            assert(self.exact@ == old(self).exact@);
            assert(self.exact_list@ == old(self).exact_list@);
            assert forall|x: Seq<char>| self.words().contains(x) <==> old_words.union(listed).contains(x) by {
                if fst_keys(set).contains(encode_utf8(x)) {
                    let k = choose|k: int| 0 <= k < unique@.len() && #[trigger] encodings(unique@)[k] == encode_utf8(x);
                    vstd::utf8::encode_utf8_decode_utf8(x);
                    vstd::utf8::encode_utf8_decode_utf8(unique@[k]@);
                    assert(unique@[k]@ == x);
                    assert(views(unique@).contains(x)) by {
                        assert(views(unique@) =~= views_seq(unique@).to_set());
                        assert(views_seq(unique@)[k] == x);
                    }
                }
                if listed.contains(x) {
                    assert(views(unique@).contains(x));
                    let k = choose|k: int| 0 <= k < unique@.len() && #[trigger] views_seq(unique@)[k] == x;
                    assert(encodings(unique@)[k] == encode_utf8(x));
                    assert(fst_keys(set).contains(encode_utf8(x)));
                    assert(self.sets@[self.sets@.len() - 1] == set);
                }
                if old_words.contains(x) && !self.exact@.contains_key(x) {
                    let i = choose|i: int| 0 <= i < old(self).sets@.len() && fst_keys(#[trigger] old(self).sets@[i]).contains(encode_utf8(x));
                    assert(self.sets@[i] == old(self).sets@[i]);
                }
                if self.words().contains(x) && !self.exact@.contains_key(x) && !fst_keys(set).contains(encode_utf8(x)) {
                    let i = choose|i: int| 0 <= i < self.sets@.len() && fst_keys(#[trigger] self.sets@[i]).contains(encode_utf8(x));
                    assert(i < old(self).sets@.len());
                    assert(self.sets@[i] == old(self).sets@[i]);
                }
            }
            assert(self.words() =~= old_words.union(listed));
        }
    }
}

/// The UTF-8 encoding of each string, in order.
pub open spec fn encodings(ws: Seq<String>) -> Seq<Seq<u8>> {
    ws.map_values(|w: String| encode_utf8(w@))
}

/// The characters of each string, in order.
pub open spec fn views_seq(ws: Seq<String>) -> Seq<Seq<char>> {
    ws.map_values(|w: String| w@)
}

/// The characters of each string, as a set.
pub open spec fn views(ws: Seq<String>) -> Set<Seq<char>> {
    views_seq(ws).to_set()
}

proof fn lemma_views_of_perm(a: Seq<String>, b: Seq<String>)
    requires
        a.to_multiset() == b.to_multiset(),
    ensures
        views(a) == views(b),
{
    broadcast use vstd::seq_lib::to_multiset_contains;

    assert forall|x: Seq<char>| views(a).contains(x) implies views(b).contains(x) by {
        let i = choose|i: int| 0 <= i < a.len() && #[trigger] views_seq(a)[i] == x;
        vstd::seq_lib::to_multiset_contains(a, a[i]);
        vstd::seq_lib::to_multiset_contains(b, a[i]);
        assert(a.contains(a[i]));
        assert(b.contains(a[i]));
        let j = choose|j: int| 0 <= j < b.len() && b[j] == a[i];
        assert(views_seq(b)[j] == x);
    }
    assert forall|x: Seq<char>| views(b).contains(x) implies views(a).contains(x) by {
        let i = choose|i: int| 0 <= i < b.len() && #[trigger] views_seq(b)[i] == x;
        vstd::seq_lib::to_multiset_contains(a, b[i]);
        vstd::seq_lib::to_multiset_contains(b, b[i]);
        assert(b.contains(b[i]));
        assert(a.contains(b[i]));
        let j = choose|j: int| 0 <= j < a.len() && a[j] == b[i];
        assert(views_seq(a)[j] == x);
    }
    assert(views(a) =~= views(b));
}

/// Drop adjacent repeats of a sorted list.
fn dedup_sorted(v: Vec<String>) -> (r: Vec<String>)
    requires
        forall|i: int, j: int| 0 <= i < j < v@.len() ==> lex_le(#[trigger] v@[i]@, #[trigger] v@[j]@),
    ensures
        strictly_increasing(r@),
        views(r@) == views(v@),
{
    let ghost orig = v@;
    let mut v = v;
    let mut out: Vec<String> = Vec::new();
    let n = v.len();
    let mut k: usize = 0;
    while v.len() > 0
        invariant
            n == orig.len(),
            k + v@.len() == n,
            v@ == orig.skip(k as int),
            forall|i: int, j: int| 0 <= i < j < orig.len() ==> lex_le(#[trigger] orig[i]@, #[trigger] orig[j]@),
            strictly_increasing(out@),
            views(out@) == views(orig.take(k as int)),
            out@.len() > 0 ==> k > 0 && out@.last()@ == orig[k - 1]@,
            out@.len() == 0 ==> k == 0,
        decreases v@.len(),
    {
        let w = v.remove(0);
        proof {
            assert(orig[k as int] == w);
            assert(v@ =~= orig.skip(k + 1));
            assert(orig.take(k + 1) =~= orig.take(k as int).push(w));
            assert(views_seq(orig.take(k + 1)) =~= views_seq(orig.take(k as int)).push(w@));
            broadcast use vstd::seq_lib::group_seq_properties;
        }
        let dup = out.len() > 0 && crate::text::str_eq(out[out.len() - 1].as_str(), w.as_str());
        let ghost before = out@;
        if !dup {
            out.push(w);
            proof {
                assert(views_seq(out@) =~= views_seq(before).push(w@));
                assert(views(out@) =~= views(before).insert(w@));
                assert(views(orig.take(k + 1)) =~= views(orig.take(k as int)).insert(w@));
                assert forall|i: int, j: int| 0 <= i < j < out@.len() implies lex_le(#[trigger] out@[i]@, #[trigger] out@[j]@) && out@[i]@ != out@[j]@ by {
                    if j == out@.len() - 1 && i < j {
                        if before.len() > 0 {
                            let last = before.len() - 1;
                            assert(lex_le(orig[k - 1]@, w@));
                            if i < last {
                                lemma_lex_trans(before[i]@, before[last]@, w@);
                                if before[i]@ == w@ {
                                    lemma_lex_total(before[i]@, before[last]@);
                                }
                            }
                        }
                    }
                }
            }
        } else {
            proof {
                assert(views(orig.take(k + 1)) =~= views(orig.take(k as int)).insert(w@));
                assert(views(out@).contains(w@)) by {
                    assert(views_seq(out@)[out@.len() - 1] == w@);
                }
                assert(views(orig.take(k + 1)) =~= views(out@));
            }
        }
        k += 1;
    }
    assert(orig.take(n as int) =~= orig);
    out
}


/// Programming vocabulary that would otherwise drown users in false
/// positives on their first run (only consulted in dictionary mode).
pub const CODE_TERMS: &'static str = "# Programming vocabulary
api
args
async
auth
backend
bool
boolean
cli
config
const
cpu
css
dev
enum
env
frontend
github
grpc
html
http
https
json
lang
localhost
mutex
namespace
npm
param
params
repo
runtime
rustc
stderr
stdin
stdout
struct
subcommand
tokio
toml
tuple
url
utf
vec
yaml
";

impl WordSets {
    /// Build with the embedded programming-terms list.
    pub fn with_code_terms() -> (r: Self)
        ensures
            r.wf(),
            r.words() == list_words(split_lines(CODE_TERMS@)),
    {
        let mut w = WordSets::new();
        w.add_wordlist_str(CODE_TERMS);
        assert(w.words() =~= list_words(split_lines(CODE_TERMS@)));
        w
    }

    /// Add individual words to the mutable set (project/global words):
    /// trimmed and lowercased, blank entries and `#` comments skipped.
    pub fn add_words(&mut self, words: &Vec<String>)
        requires
            old(self).wf(),
        ensures
            final(self).wf(),
            final(self).words() == old(self).words().union(list_words(views_seq(words@))),
    {
        let mut i: usize = 0;
        while i < words.len()
            invariant
                self.wf(),
                0 <= i <= words@.len(),
                self.words() == old(self).words().union(list_words(views_seq(words@).take(i as int))),
            decreases words@.len() - i,
        {
            let cs = chars_of(words[i].as_str());
            let (a, b) = trim_bounds(cs.as_slice(), 0, cs.len());
            assert(cs@.subrange(0, cs@.len() as int) =~= cs@);
            proof {
                assert(views_seq(words@).take(i + 1).drop_last() =~= views_seq(words@).take(i as int));
                assert(views_seq(words@).take(i + 1).last() == words@[i as int]@);
            }
            if a < b && cs[a] != '#' {
                let t = string_from_chars(slice_range(cs.as_slice(), a, b).as_slice());
                let w = lowercase(t.as_str());
                self.insert_exact(w);
            }
            proof {
                assert(self.words() =~= old(self).words().union(list_words(views_seq(words@).take(i + 1))));
            }
            i += 1;
        }
        assert(views_seq(words@).take(words@.len() as int) =~= views_seq(words@));
    }

    fn insert_exact(&mut self, w: String)
        requires
            old(self).wf(),
        ensures
            final(self).wf(),
            final(self).words() == old(self).words().insert(w@),
    {
        if !self.exact.contains_key(w.as_str()) {
            let key = crate::text::to_owned(w.as_str());
            self.exact.insert(key, ());
            let ghost before = self.exact_list@;
            self.exact_list.push(w);
            proof {
                assert forall|k: Seq<char>| self.exact@.contains_key(k) <==> exists|i: int|
                    0 <= i < self.exact_list@.len() && (#[trigger] self.exact_list@[i])@ == k by {
                    if k == w@ {
                        assert(self.exact_list@[before.len() as int]@ == k);
                    } else if self.exact@.contains_key(k) {
                        let i = choose|i: int| 0 <= i < before.len() && (#[trigger] before[i])@ == k;
                        assert(self.exact_list@[i] == before[i]);
                    } else if exists|i: int| 0 <= i < self.exact_list@.len() && (#[trigger] self.exact_list@[i])@ == k {
                        let i = choose|i: int| 0 <= i < self.exact_list@.len() && (#[trigger] self.exact_list@[i])@ == k;
                        assert(i < before.len());
                        assert(before[i]@ == k);
                    }
                }
                assert forall|i: int, j: int| 0 <= i < j < self.exact_list@.len() implies (
                #[trigger] self.exact_list@[i])@ != (#[trigger] self.exact_list@[j])@ by {
                    if j == before.len() {
                        assert(old(self).exact@.contains_key(before[i]@));
                    } else {
                        assert(before[i] == self.exact_list@[i] && before[j] == self.exact_list@[j]);
                    }
                }
            }
        }
        assert(self.words() =~= old(self).words().insert(w@));
    }

    /// Whether no wordlist and no single word has been added.
    pub fn is_empty(&self) -> (r: bool)
        ensures
            r == (self.list_count() == 0 && self.single_words() == Set::<Seq<char>>::empty()),
            r ==> self.words() == Set::<Seq<char>>::empty(),
    {
        let r = self.sets.len() == 0 && self.exact.is_empty();
        if r {
            assert(self.words() =~= Set::<Seq<char>>::empty());
        }
        r
    }

    /// Membership; `word_lower` must already be lowercase.
    pub fn contains(&self, word_lower: &str) -> (r: bool)
        ensures
            r == self.words().contains(word_lower@),
    {
        if self.exact.contains_key(word_lower) {
            return true;
        }
        let mut i: usize = 0;
        while i < self.sets.len()
            invariant
                0 <= i <= self.sets@.len(),
                !self.exact@.contains_key(word_lower@),
                forall|k: int| 0 <= k < i ==> !fst_keys(#[trigger] self.sets@[k]).contains(encode_utf8(word_lower@)),
            decreases self.sets@.len() - i,
        {
            if fst_contains(&self.sets[i], word_lower) {
                return true;
            }
            i += 1;
        }
        false
    }
}

/// `a` strictly before `b` in character order.
pub open spec fn lex_lt(a: Seq<char>, b: Seq<char>) -> bool {
    lex_le(a, b) && a != b
}

/// Ranking of a suggestion `c` for `q`: edit distance, then difference in
/// length, then character order.
pub open spec fn ranks_before(q: Seq<u8>, a: Seq<char>, b: Seq<char>) -> bool {
    let da = lev(q, encode_utf8(a));
    let db = lev(q, encode_utf8(b));
    let la = if encode_utf8(a).len() >= q.len() { encode_utf8(a).len() - q.len() } else { q.len() - encode_utf8(a).len() };
    let lb = if encode_utf8(b).len() >= q.len() { encode_utf8(b).len() - q.len() } else { q.len() - encode_utf8(b).len() };
    da < db || (da == db && la < lb) || (da == db && la == lb && lex_lt(a, b))
}

/// A suggestion: a word of the sets within `dist` edits of `q` (in
/// characters for the FST lists, in bytes for the exact words).
pub closed spec fn is_candidate(w: &WordSets, q: Seq<char>, dist: nat, c: Seq<char>) -> bool {
    ||| (exists|i: int| 0 <= i < w.sets@.len() && fst_keys(#[trigger] w.sets@[i]).contains(encode_utf8(c))) && lev(q, c) <= dist
    ||| w.exact@.contains_key(c) && lev(encode_utf8(q), encode_utf8(c)) <= dist
}

/// Whether a word of the wordlist `i` is found by a search for `q` within
/// `d` character edits: it is within that distance and the list's search
/// succeeds.
pub closed spec fn from_list(w: &WordSets, i: int, q: Seq<char>, d: nat, c: Seq<char>) -> bool {
    &&& fst_keys(w.sets@[i]).contains(encode_utf8(c))
    &&& fst_search_succeeds(fst_keys(w.sets@[i]), q, d as u32)
    &&& lev(q, c) <= d
}

/// A word that a search for `q` within `d` edits finds: a single word within
/// `d` byte edits, or a word of a wordlist whose search succeeds within `d`
/// character edits.
pub closed spec fn is_found(w: &WordSets, q: Seq<char>, d: nat, c: Seq<char>) -> bool {
    ||| w.exact@.contains_key(c) && lev(encode_utf8(q), encode_utf8(c)) <= d
    ||| exists|i: int| 0 <= i < w.sets@.len() && #[trigger] from_list(w, i, q, d, c)
}

/// Whether `c` is one of the words of a ranked list.
pub open spec fn listed(rs: Seq<(String, usize, usize)>, c: Seq<char>) -> bool {
    exists|t: int| 0 <= t < rs.len() && (#[trigger] rs[t]).0@ == c
}

/// The edit distance suggestions for `q` may have: one, two for words over
/// six bytes.
pub open spec fn suggest_distance(q: Seq<char>) -> nat {
    if encode_utf8(q).len() <= 6 {
        1
    } else {
        2
    }
}

impl WordSets {
    /// Spelling suggestions for an unknown word, best first: words within
    /// one edit (two for words over six bytes) ranked by distance, then
    /// length difference, then alphabetically; none for words over 24
    /// bytes.
    pub fn suggest(&self, word_lower: &str, max: usize) -> (r: Vec<String>)
        requires
            self.wf(),
        ensures
            r@.len() <= max,
            encode_utf8(word_lower@).len() > 24 ==> r@.len() == 0,
            word_lower@.len() > 24 ==> r@.len() == 0,
            forall|i: int, j: int|
                0 <= i < j < r@.len() ==> ranks_before(encode_utf8(word_lower@), #[trigger] r@[i]@, #[trigger] r@[j]@),
            forall|i: int|
                0 <= i < r@.len() ==> is_candidate(self, word_lower@, suggest_distance(word_lower@), #[trigger] r@[i]@),
            encode_utf8(word_lower@).len() <= 24 ==> forall|c: Seq<char>|
                #[trigger] is_found(self, word_lower@, suggest_distance(word_lower@), c)
                    && encode_utf8(c).len() < usize::MAX ==> (exists|i: int| 0 <= i < r@.len() && r@[i]@ == c)
                    || (r@.len() == max && forall|i: int|
                        0 <= i < r@.len() ==> ranks_before(encode_utf8(word_lower@), #[trigger] r@[i]@, c)),
    {
        let n = crate::text::str_byte_len(word_lower);
        proof {
            lemma_chars_le_bytes(word_lower@);
        }
        if n > 24 {
            return Vec::new();
        }
        let dist: u32 = if n <= 6 {
            1
        } else {
            2
        };
        let ghost q = encode_utf8(word_lower@);
        let ghost d = dist as nat;
        let mut ranked: Vec<(String, usize, usize)> = Vec::new();
        let mut i: usize = 0;
        while i < self.sets.len()
            invariant
                n == q.len(),
                n <= 24,
                word_lower@.len() <= 24,
                q == encode_utf8(word_lower@),
                d == dist as nat,
                d == if n <= 6 { 1nat } else { 2nat },
                i <= self.sets@.len(),
                ranked_ok(self, word_lower@, d, ranked@),
                forall|i2: int, x: Seq<char>|
                    0 <= i2 < i && #[trigger] from_list(self, i2, word_lower@, d, x) && encode_utf8(x).len()
                        < usize::MAX ==> listed(ranked@, x),
            decreases self.sets@.len() - i,
        {
            match fst_search(&self.sets[i], word_lower, dist) {
                Some(found) => {
                    let mut k: usize = 0;
                    while k < found.len()
                        invariant
                            n == q.len(),
                            n <= 24,
                            word_lower@.len() <= 24,
                            q == encode_utf8(word_lower@),
                            d == dist as nat,
                            i < self.sets@.len(),
                            k <= found@.len(),
                            ranked_ok(self, word_lower@, d, ranked@),
                            forall|j: int|
                                0 <= j < found@.len() ==> fst_keys(self.sets@[i as int]).contains(encode_utf8((#[trigger] found@[j])@))
                                    && lev(word_lower@, found@[j]@) <= dist,
                            forall|i2: int, x: Seq<char>|
                                0 <= i2 < i && #[trigger] from_list(self, i2, word_lower@, d, x) && encode_utf8(x).len()
                                    < usize::MAX ==> listed(ranked@, x),
                            forall|t: int|
                                0 <= t < k && encode_utf8(found@[t]@).len() < usize::MAX ==> listed(
                                    ranked@,
                                    (#[trigger] found@[t])@,
                                ),
                        decreases found@.len() - k,
                    {
                        let c = &found[k];
                        assert(is_candidate(self, word_lower@, d, c@));
                        if crate::text::str_byte_len(c.as_str()) < usize::MAX {
                            insert_ranked(&mut ranked, word_lower, c);
                        }
                        k += 1;
                    }
                    proof {
                        assert forall|x: Seq<char>|
                            #[trigger] from_list(self, i as int, word_lower@, d, x) && encode_utf8(x).len()
                                < usize::MAX implies listed(ranked@, x) by {
                            assert(fst_keys(self.sets@[i as int]).contains(encode_utf8(x)));
                            let j = choose|j: int| 0 <= j < found@.len() && (#[trigger] found@[j])@ == x;
                            assert(listed(ranked@, found@[j]@));
                        }
                    }
                },
                None => {
                    assert forall|x: Seq<char>| !#[trigger] from_list(self, i as int, word_lower@, d, x) by {}
                },
            }
            i += 1;
        }
        let mut j: usize = 0;
        while j < self.exact_list.len()
            invariant
                self.wf(),
                n == q.len(),
                n <= 24,
                word_lower@.len() <= 24,
                q == encode_utf8(word_lower@),
                d == dist as nat,
                j <= self.exact_list@.len(),
                ranked_ok(self, word_lower@, d, ranked@),
                forall|i2: int, x: Seq<char>|
                    0 <= i2 < self.sets@.len() && #[trigger] from_list(self, i2, word_lower@, d, x)
                        && encode_utf8(x).len() < usize::MAX ==> listed(ranked@, x),
                forall|t: int|
                    0 <= t < j && lev(q, encode_utf8(self.exact_list@[t]@)) <= d && encode_utf8(
                        self.exact_list@[t]@,
                    ).len() < usize::MAX ==> listed(ranked@, (#[trigger] self.exact_list@[t])@),
            decreases self.exact_list@.len() - j,
        {
            let c = &self.exact_list[j];
            if crate::text::str_byte_len(c.as_str()) < usize::MAX && edit_distance(word_lower, c.as_str()) <= dist as usize {
                proof {
                    assert(self.exact@.contains_key(c@));
                }
                insert_ranked(&mut ranked, word_lower, c);
            }
            j += 1;
        }
        let mut out: Vec<String> = Vec::new();
        let mut k: usize = 0;
        while k < ranked.len() && k < max
            invariant
                0 <= k <= ranked@.len(),
                k <= max,
                out@.len() == k,
                ranked_ok(self, word_lower@, d, ranked@),
                forall|t: int| 0 <= t < k ==> (#[trigger] out@[t])@ == ranked@[t].0@,
            decreases ranked@.len() - k,
        {
            out.push(crate::text::to_owned(ranked[k].0.as_str()));
            k += 1;
        }
        proof {
            assert(d == suggest_distance(word_lower@));
            assert forall|c: Seq<char>|
                #[trigger] is_found(self, word_lower@, d, c) && encode_utf8(c).len() < usize::MAX implies (exists|i: int|
                    0 <= i < out@.len() && out@[i]@ == c) || (out@.len() == max && forall|i: int|
                    0 <= i < out@.len() ==> ranks_before(q, #[trigger] out@[i]@, c)) by {
                if self.exact@.contains_key(c) && lev(q, encode_utf8(c)) <= d {
                    let t = choose|t: int| 0 <= t < self.exact_list@.len() && (#[trigger] self.exact_list@[t])@ == c;
                    assert(listed(ranked@, self.exact_list@[t]@));
                } else {
                    let i2 = choose|i2: int| 0 <= i2 < self.sets@.len() && #[trigger] from_list(self, i2, word_lower@, d, c);
                    assert(listed(ranked@, c));
                }
                let p = choose|p: int| 0 <= p < ranked@.len() && (#[trigger] ranked@[p]).0@ == c;
                if p < k {
                    assert(out@[p]@ == c);
                } else {
                    assert forall|i: int| 0 <= i < out@.len() implies ranks_before(q, #[trigger] out@[i]@, c) by {
                        assert(out@[i]@ == ranked@[i].0@);
                    }
                }
            }
        }
        out
    }
}

proof fn lemma_chars_le_bytes(s: Seq<char>)
    ensures
        s.len() <= encode_utf8(s).len(),
    decreases s.len(),
{
    if s.len() > 0 {
        lemma_chars_le_bytes(s.drop_first());
        crate::text::lemma_scalar_width(s[0]);
        assert(encode_utf8(s) =~= vstd::utf8::encode_scalar(s[0] as u32) + encode_utf8(s.drop_first()));
    }
}

/// A ranked list: candidates, each with its distance and length difference,
/// in ranking order without repeats.
pub open spec fn ranked_ok(w: &WordSets, q: Seq<char>, d: nat, rs: Seq<(String, usize, usize)>) -> bool {
    &&& forall|i: int| 0 <= i < rs.len() ==> is_candidate(w, q, d, (#[trigger] rs[i]).0@)
    &&& forall|i: int| 0 <= i < rs.len() ==> (#[trigger] rs[i]).1 == lev(encode_utf8(q), encode_utf8(rs[i].0@))
        && rs[i].2 == (if encode_utf8(rs[i].0@).len() >= encode_utf8(q).len() {
            encode_utf8(rs[i].0@).len() - encode_utf8(q).len()
        } else {
            encode_utf8(q).len() - encode_utf8(rs[i].0@).len()
        })
    &&& forall|i: int, j: int| 0 <= i < j < rs.len() ==> ranks_before(encode_utf8(q), #[trigger] rs[i].0@, #[trigger] rs[j].0@)
}


pub open spec fn len_diff(q: Seq<u8>, c: Seq<char>) -> nat {
    if encode_utf8(c).len() >= q.len() {
        (encode_utf8(c).len() - q.len()) as nat
    } else {
        (q.len() - encode_utf8(c).len()) as nat
    }
}

/// Entries annotated with their distance and length difference, in
/// ranking order without repeats.
pub open spec fn sorted_ranks(q: Seq<u8>, rs: Seq<(String, usize, usize)>) -> bool {
    &&& forall|i: int| 0 <= i < rs.len() ==> (#[trigger] rs[i]).1 == lev(q, encode_utf8(rs[i].0@))
        && rs[i].2 == len_diff(q, rs[i].0@)
    &&& forall|i: int, j: int| 0 <= i < j < rs.len() ==> ranks_before(q, #[trigger] rs[i].0@, #[trigger] rs[j].0@)
}

proof fn lemma_ranks_total(q: Seq<u8>, a: Seq<char>, b: Seq<char>)
    requires
        a != b,
    ensures
        ranks_before(q, a, b) || ranks_before(q, b, a),
{
    lemma_lex_total(a, b);
}

proof fn lemma_ranks_trans(q: Seq<u8>, a: Seq<char>, b: Seq<char>, c: Seq<char>)
    requires
        ranks_before(q, a, b),
        ranks_before(q, b, c),
    ensures
        ranks_before(q, a, c),
{
    if lex_lt(a, b) && lex_lt(b, c) {
        lemma_lex_trans(a, b, c);
        if a == c {
            lemma_lex_total(a, b);
        }
    }
}

proof fn lemma_ranks_irreflexive(q: Seq<u8>, a: Seq<char>)
    ensures
        !ranks_before(q, a, a),
{
}

fn entry_before(e: &(String, usize, usize), dc: usize, lc: usize, c: &String) -> (r: bool)
    ensures
        r == (e.1 < dc || (e.1 == dc && e.2 < lc) || (e.1 == dc && e.2 == lc && lex_lt(e.0@, c@))),
{
    e.1 < dc || (e.1 == dc && e.2 < lc) || (e.1 == dc && e.2 == lc && lex_le_exec(&e.0, c)
        && !crate::text::str_eq(e.0.as_str(), c.as_str()))
}

/// Insert `c` at its rank, unless it is already listed.
fn insert_ranked(ranked: &mut Vec<(String, usize, usize)>, q: &str, c: &String)
    requires
        q@.len() <= 24,
        encode_utf8(q@).len() <= 24,
        encode_utf8(c@).len() < usize::MAX,
        sorted_ranks(encode_utf8(q@), old(ranked)@),
    ensures
        sorted_ranks(encode_utf8(q@), final(ranked)@),
        forall|i: int|
            0 <= i < final(ranked)@.len() ==> (#[trigger] final(ranked)@[i]).0@ == c@ || listed(
                old(ranked)@,
                final(ranked)@[i].0@,
            ),
        listed(final(ranked)@, c@),
        forall|x: Seq<char>| listed(old(ranked)@, x) ==> #[trigger] listed(final(ranked)@, x),
        final(ranked)@.len() <= old(ranked)@.len() + 1,
{
    let ghost qb = encode_utf8(q@);
    let dc = edit_distance(q, c.as_str());
    let qn = q.len();
    let cn = c.as_str().len();
    let lc = if cn >= qn {
        cn - qn
    } else {
        qn - cn
    };
    let mut p: usize = 0;
    while p < ranked.len() && entry_before(&ranked[p], dc, lc, c)
        invariant
            0 <= p <= ranked@.len(),
            ranked@ == old(ranked)@,
            forall|k: int| 0 <= k < p ==> ranks_before(qb, (#[trigger] ranked@[k]).0@, c@),
            sorted_ranks(qb, ranked@),
            dc == lev(qb, encode_utf8(c@)),
            lc == len_diff(qb, c@),
            qb == encode_utf8(q@),
        decreases ranked@.len() - p,
    {
        p += 1;
    }
    if p < ranked.len() && crate::text::str_eq(ranked[p].0.as_str(), c.as_str()) {
        assert(ranked@[p as int].0@ == c@);
        return;
    }
    let ghost before = ranked@;
    let entry = (crate::text::to_owned(c.as_str()), dc, lc);
    ranked.insert(p, entry);
    proof {
        if p < before.len() {
            lemma_ranks_total(qb, before[p as int].0@, c@);
        }
        assert forall|i: int, j: int| 0 <= i < j < ranked@.len() implies ranks_before(qb, #[trigger] ranked@[i].0@, #[trigger] ranked@[j].0@) by {
            if i < p && j == p {
            } else if i == p && j > p {
                if j - 1 > p {
                    lemma_ranks_trans(qb, c@, before[p as int].0@, before[j - 1].0@);
                }
            } else if i < p && j > p {
                assert(ranked@[i] == before[i]);
                assert(ranked@[j] == before[j - 1]);
            } else if i > p {
                assert(ranked@[i] == before[i - 1]);
                assert(ranked@[j] == before[j - 1]);
            } else {
                assert(ranked@[i] == before[i]);
                assert(ranked@[j] == before[j]);
            }
        }
    }
    proof {
        lemma_insert_lists(before, ranked@, p as int, c@);
    }
}

/// Inserting an entry lists its word and keeps every listed word, and
/// lists no other.
proof fn lemma_insert_lists(
    before: Seq<(String, usize, usize)>,
    after: Seq<(String, usize, usize)>,
    p: int,
    c: Seq<char>,
)
    requires
        0 <= p <= before.len(),
        after.len() == before.len() + 1,
        after[p].0@ == c,
        forall|i: int| 0 <= i < p ==> after[i] == before[i],
        forall|i: int| p < i < after.len() ==> after[i] == before[i - 1],
    ensures
        forall|i: int|
            0 <= i < after.len() ==> (#[trigger] after[i]).0@ == c || listed(before, after[i].0@),
        listed(after, c),
        forall|x: Seq<char>| listed(before, x) ==> #[trigger] listed(after, x),
{
    assert(after[p].0@ == c);
    assert forall|i: int| 0 <= i < after.len() implies (#[trigger] after[i]).0@ == c || listed(
        before,
        after[i].0@,
    ) by {
        if i < p {
            assert(before[i] == after[i]);
        } else if i > p {
            assert(before[i - 1] == after[i]);
        }
    }
    assert forall|x: Seq<char>| listed(before, x) implies #[trigger] listed(after, x) by {
        let t = choose|t: int| 0 <= t < before.len() && (#[trigger] before[t]).0@ == x;
        if t < p {
            assert(after[t] == before[t]);
        } else {
            assert(after[t + 1] == before[t]);
        }
    }
}

} // verus!
