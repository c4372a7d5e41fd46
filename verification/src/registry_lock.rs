//! Reproducible dictionary registry resolution: the lockfile that pins each
//! registry dictionary to a version and a checksum.
//!
//! Reading and writing the lockfile is the caller's part; this module holds
//! its rules: lookup, update, ordering, reference resolution and checksum
//! comparison.
use vstd::prelude::*;

use crate::text::{
    byte_len, byte_offsets, chars_of, joined, plain_base, plain_name, push_char, push_str, str_eq, substr,
    to_owned,
};
use crate::tokenizer::{ascii_lowercase, lower_seq};

verus! {

pub const LOCK_FILE: &'static str = "ayame-spell.lock";

pub const LOCK_VERSION: u32 = 1;

#[derive(Clone, Debug)]
pub struct RegistryLock {
    pub version: u32,
    pub dictionaries: Vec<LockedDictionary>,
}

#[derive(Clone, Debug)]
pub struct LockedDictionary {
    pub name: String,
    pub version: String,
    pub sha256: String,
    pub file: String,
}

impl Default for RegistryLock {
    fn default() -> (r: Self)
        ensures
            r.version == LOCK_VERSION,
            r.dictionaries@.len() == 0,
    {
        RegistryLock { version: LOCK_VERSION, dictionaries: Vec::new() }
    }
}

/// Index of the first entry named `name` at or after `i`, or the length.
pub open spec fn first_named(ds: Seq<LockedDictionary>, name: Seq<char>, i: int) -> int
    decreases ds.len() - i,
{
    if i < 0 || i >= ds.len() {
        ds.len() as int
    } else if ds[i].name@ == name {
        i
    } else {
        first_named(ds, name, i + 1)
    }
}

/// The entries not named `name`, in order.
pub open spec fn without_name(ds: Seq<LockedDictionary>, name: Seq<char>) -> Seq<LockedDictionary>
    decreases ds.len(),
{
    if ds.len() == 0 {
        Seq::empty()
    } else {
        let rest = without_name(ds.drop_last(), name);
        if ds.last().name@ == name {
            rest
        } else {
            rest.push(ds.last())
        }
    }
}

/// Whether `a` sorts before or with `b`, character by character.
pub open spec fn lex_le(a: Seq<char>, b: Seq<char>) -> bool
    decreases a.len(),
{
    if a.len() == 0 {
        true
    } else if b.len() == 0 {
        false
    } else if a[0] != b[0] {
        a[0] < b[0]
    } else {
        lex_le(a.drop_first(), b.drop_first())
    }
}

pub proof fn lemma_lex_total(a: Seq<char>, b: Seq<char>)
    ensures
        lex_le(a, b) || lex_le(b, a),
        lex_le(a, b) && lex_le(b, a) ==> a == b,
    decreases a.len(),
{
    if a.len() > 0 && b.len() > 0 && a[0] == b[0] {
        lemma_lex_total(a.drop_first(), b.drop_first());
        if lex_le(a, b) && lex_le(b, a) {
            assert(a =~= seq![a[0]] + a.drop_first());
            assert(b =~= seq![b[0]] + b.drop_first());
        }
    }
}

pub proof fn lemma_lex_trans(a: Seq<char>, b: Seq<char>, c: Seq<char>)
    requires
        lex_le(a, b),
        lex_le(b, c),
    ensures
        lex_le(a, c),
    decreases a.len(),
{
    if a.len() > 0 && b.len() > 0 && c.len() > 0 && a[0] == b[0] && b[0] == c[0] {
        lemma_lex_trans(a.drop_first(), b.drop_first(), c.drop_first());
    }
}

pub(crate) fn lex_le_exec(a: &String, b: &String) -> (r: bool)
    ensures
        r == lex_le(a@, b@),
{
    let x = chars_of(a.as_str());
    let y = chars_of(b.as_str());
    let mut i: usize = 0;
    assert(x@.skip(0) =~= x@);
    assert(y@.skip(0) =~= y@);
    while i < x.len() && i < y.len() && x[i] == y[i]
        invariant
            x@ == a@,
            y@ == b@,
            0 <= i <= x@.len(),
            i <= y@.len(),
            lex_le(a@, b@) == lex_le(x@.skip(i as int), y@.skip(i as int)),
        decreases x@.len() - i,
    {
        proof {
            assert(x@.skip(i as int).drop_first() =~= x@.skip(i + 1));
            assert(y@.skip(i as int).drop_first() =~= y@.skip(i + 1));
        }
        i += 1;
    }
    if i == x.len() {
        return true;
    }
    if i == y.len() {
        return false;
    }
    x[i] < y[i]
}

/// Entries ordered by name.
pub open spec fn sorted_by_name(ds: Seq<LockedDictionary>) -> bool {
    forall|i: int, j: int| 0 <= i < j < ds.len() ==> lex_le(#[trigger] ds[i].name@, #[trigger] ds[j].name@)
}

/// Names strictly increasing: ordered, and no name twice.
pub open spec fn strictly_sorted(ds: Seq<LockedDictionary>) -> bool {
    forall|i: int, j: int|
        0 <= i < j < ds.len() ==> lex_le(#[trigger] ds[i].name@, #[trigger] ds[j].name@) && ds[i].name@
            != ds[j].name@
}

impl RegistryLock {
    /// The entry named `name`, if any.
    pub fn get(&self, name: &str) -> (r: Option<&LockedDictionary>)
        ensures
            match r {
                Some(d) => {
                    let i = first_named(self.dictionaries@, name@, 0);
                    i < self.dictionaries@.len() && *d == self.dictionaries@[i]
                },
                None => first_named(self.dictionaries@, name@, 0) == self.dictionaries@.len(),
            },
    {
        let mut i: usize = 0;
        while i < self.dictionaries.len()
            invariant
                0 <= i <= self.dictionaries@.len(),
                first_named(self.dictionaries@, name@, 0) == first_named(self.dictionaries@, name@, i as int),
            decreases self.dictionaries@.len() - i,
        {
            if str_eq(self.dictionaries[i].name.as_str(), name) {
                return Some(&self.dictionaries[i]);
            }
            i += 1;
        }
        None
    }

    /// Replace the entry with the same name, or append a new one.
    pub fn upsert(&mut self, dictionary: LockedDictionary)
        ensures
            final(self).version == old(self).version,
            ({
                let i = first_named(old(self).dictionaries@, dictionary.name@, 0);
                final(self).dictionaries@ == if i < old(self).dictionaries@.len() {
                    old(self).dictionaries@.update(i, dictionary)
                } else {
                    old(self).dictionaries@.push(dictionary)
                }
            }),
    {
        let mut i: usize = 0;
        while i < self.dictionaries.len() && !str_eq(self.dictionaries[i].name.as_str(), dictionary.name.as_str())
            invariant
                0 <= i <= self.dictionaries@.len(),
                self.dictionaries@ == old(self).dictionaries@,
                self.version == old(self).version,
                first_named(self.dictionaries@, dictionary.name@, 0) == first_named(
                    self.dictionaries@,
                    dictionary.name@,
                    i as int,
                ),
            decreases self.dictionaries@.len() - i,
        {
            i += 1;
        }
        if i < self.dictionaries.len() {
            self.dictionaries.set(i, dictionary);
        } else {
            self.dictionaries.push(dictionary);
        }
    }

    /// Drop every entry named `name`; whether any was dropped.
    pub fn remove(&mut self, name: &str) -> (r: bool)
        ensures
            final(self).version == old(self).version,
            final(self).dictionaries@ == without_name(old(self).dictionaries@, name@),
            r == (without_name(old(self).dictionaries@, name@).len() != old(self).dictionaries@.len()),
    {
        let ghost orig = self.dictionaries@;
        let before = self.dictionaries.len();
        let mut kept: Vec<LockedDictionary> = Vec::new();
        let mut rest = Vec::new();
        std::mem::swap(&mut rest, &mut self.dictionaries);
        let mut k: usize = 0;
        while rest.len() > 0
            invariant
                k + rest@.len() == orig.len(),
                rest@ == orig.skip(k as int),
                kept@ == without_name(orig.take(k as int), name@),
                before == orig.len(),
            decreases rest@.len(),
        {
            let d = rest.remove(0);
            proof {
                assert(orig.take(k + 1).drop_last() =~= orig.take(k as int));
                assert(orig.take(k + 1).last() == d);
                assert(rest@ =~= orig.skip(k + 1));
            }
            if !str_eq(d.name.as_str(), name) {
                kept.push(d);
            }
            k += 1;
        }
        assert(orig.take(orig.len() as int) =~= orig);
        self.dictionaries = kept;
        self.dictionaries.len() != before
    }

    /// Order the entries by name, keeping entries with the same name in
    /// their order (the order a loaded lockfile is used in).
    pub fn sort_by_name(&mut self)
        ensures
            final(self).version == old(self).version,
            sorted_by_name(final(self).dictionaries@),
            final(self).dictionaries@.to_multiset() == old(self).dictionaries@.to_multiset(),
    {
        let mut out: Vec<LockedDictionary> = Vec::new();
        let mut rest = Vec::new();
        std::mem::swap(&mut rest, &mut self.dictionaries);
        let ghost orig = rest@;
        let n = rest.len();
        let mut k: usize = 0;
        assert(orig.take(0) =~= Seq::<LockedDictionary>::empty());
        assert(out@ =~= Seq::<LockedDictionary>::empty());
        while rest.len() > 0
            invariant
                n == orig.len(),
                k + rest@.len() == orig.len(),
                rest@ == orig.skip(k as int),
                sorted_by_name(out@),
                out@.to_multiset() == orig.take(k as int).to_multiset(),
            decreases rest@.len(),
        {
            let d = rest.remove(0);
            proof {
                assert(orig.take(k + 1) =~= orig.take(k as int).push(d));
                assert(rest@ =~= orig.skip(k + 1));
                vstd::seq_lib::to_multiset_build(orig.take(k as int), d);
            }
            // insertion point: after every entry that sorts with or before `d`
            let mut p = out.len();
            while p > 0 && !lex_le_exec(&out[p - 1].name, &d.name)
                invariant
                    0 <= p <= out@.len(),
                    sorted_by_name(out@),
                    forall|j: int| p <= j < out@.len() ==> !lex_le(#[trigger] out@[j].name@, d.name@),
                decreases p,
            {
                p -= 1;
            }
            let ghost before = out@;
            out.insert(p, d);
            proof {
                assert forall|i: int, j: int| 0 <= i < j < out@.len() implies lex_le(
                    #[trigger] out@[i].name@,
                    #[trigger] out@[j].name@,
                ) by {
                    if i < p && j == p {
                        if i < p - 1 {
                            lemma_lex_trans(before[i].name@, before[p - 1].name@, d.name@);
                        }
                    } else if i == p && j > p {
                        lemma_lex_total(d.name@, before[j - 1].name@);
                    } else if i < p && j > p {
                        assert(out@[i] == before[i]);
                        assert(out@[j] == before[j - 1]);
                    } else if i > p {
                        assert(out@[i] == before[i - 1]);
                        assert(out@[j] == before[j - 1]);
                    } else {
                        assert(out@[i] == before[i]);
                        assert(out@[j] == before[j]);
                    }
                }
                assert(out@ =~= before.insert(p as int, d));
                vstd::seq_lib::to_multiset_insert(before, p as int, d);
            }
            k += 1;
        }
        assert(orig.take(orig.len() as int) =~= orig);
        let ghost result = out@;
        self.dictionaries = out;
        assert(self.dictionaries@ == result);
    }
}


/// Entries after removing each one whose name equals the previous entry's.
pub open spec fn dedup_names(ds: Seq<LockedDictionary>) -> Seq<LockedDictionary>
    decreases ds.len(),
{
    if ds.len() == 0 {
        Seq::empty()
    } else {
        let rest = dedup_names(ds.drop_last());
        if ds.len() >= 2 && ds[ds.len() - 2].name@ == ds.last().name@ {
            rest
        } else {
            rest.push(ds.last())
        }
    }
}

proof fn lemma_dedup_strict(ds: Seq<LockedDictionary>)
    requires
        sorted_by_name(ds),
    ensures
        strictly_sorted(dedup_names(ds)),
        forall|i: int| 0 <= i < dedup_names(ds).len() ==> ds.contains(#[trigger] dedup_names(ds)[i]),
    decreases ds.len(),
{
    if ds.len() > 0 {
        let init = ds.drop_last();
        assert(sorted_by_name(init));
        lemma_dedup_strict(init);
        let r = dedup_names(init);
        assert forall|i: int| 0 <= i < r.len() implies ds.contains(#[trigger] r[i]) by {
            assert(init.contains(r[i]));
            let k = choose|k: int| 0 <= k < init.len() && init[k] == r[i];
            assert(ds[k] == r[i]);
        }
        if !(ds.len() >= 2 && ds[ds.len() - 2].name@ == ds.last().name@) {
            let d = ds.last();
            assert(dedup_names(ds) == r.push(d));
            assert(ds[ds.len() - 1] == d);
            assert forall|i: int| 0 <= i < r.len() implies lex_le(#[trigger] r[i].name@, d.name@) && r[i].name@ != d.name@ by {
                let x = r[i];
                let k = choose|k: int| 0 <= k < init.len() && init[k] == x;
                assert(ds[k] == x);
                assert(lex_le(ds[k].name@, ds[ds.len() - 1].name@));
                if x.name@ == d.name@ {
                    // x sorts between ds[k] and d, so ds[len-2] has d's name too
                    assert(k <= ds.len() - 2);
                    assert(lex_le(ds[k].name@, ds[ds.len() - 2].name@) || k == ds.len() - 2);
                    assert(lex_le(ds[ds.len() - 2].name@, d.name@));
                    if k < ds.len() - 2 {
                        lemma_lex_total(ds[ds.len() - 2].name@, d.name@);
                    }
                }
            }
        }
    }
}

/// Some entry is named `name`.
pub open spec fn has_name(ds: Seq<LockedDictionary>, name: Seq<char>) -> bool {
    exists|j: int| 0 <= j < ds.len() && #[trigger] ds[j].name@ == name
}

proof fn lemma_dedup_names(ds: Seq<LockedDictionary>)
    ensures
        forall|i: int| 0 <= i < ds.len() ==> has_name(dedup_names(ds), (#[trigger] ds[i]).name@),
    decreases ds.len(),
{
    if ds.len() > 0 {
        let init = ds.drop_last();
        lemma_dedup_names(init);
        let r = dedup_names(init);
        let dup = ds.len() >= 2 && ds[ds.len() - 2].name@ == ds.last().name@;
        assert forall|i: int| 0 <= i < ds.len() implies has_name(dedup_names(ds), (#[trigger] ds[i]).name@) by {
            if dup {
                assert(dedup_names(ds) == r);
            } else {
                assert(dedup_names(ds) == r.push(ds.last()));
            }
            if i < ds.len() - 1 {
                assert(init[i] == ds[i]);
                assert(has_name(r, init[i].name@));
                let j = choose|j: int| 0 <= j < r.len() && #[trigger] r[j].name@ == init[i].name@;
                assert(dedup_names(ds)[j] == r[j]);
                assert(dedup_names(ds)[j].name@ == ds[i].name@);
            } else if dup {
                let i2 = ds.len() - 2;
                assert(init[i2] == ds[i2]);
                assert(has_name(r, init[i2].name@));
                let j = choose|j: int| 0 <= j < r.len() && #[trigger] r[j].name@ == init[i2].name@;
                assert(dedup_names(ds)[j] == r[j]);
                assert(dedup_names(ds)[j].name@ == ds[i].name@);
            } else {
                assert(dedup_names(ds)[r.len() as int] == ds.last());
                assert(dedup_names(ds)[r.len() as int].name@ == ds[i].name@);
            }
        }
    }
}

proof fn lemma_dedup_nonempty(ds: Seq<LockedDictionary>)
    requires
        ds.len() > 0,
    ensures
        dedup_names(ds).len() > 0,
        dedup_names(ds).last().name@ == ds.last().name@,
    decreases ds.len(),
{
    let init = ds.drop_last();
    if ds.len() >= 2 && ds[ds.len() - 2].name@ == ds.last().name@ {
        lemma_dedup_nonempty(init);
    }
}

impl RegistryLock {
    /// Ready the lock for writing: the current version, entries ordered by
    /// name and one entry per name.
    pub fn prepare_save(&mut self)
        ensures
            final(self).version == LOCK_VERSION,
            strictly_sorted(final(self).dictionaries@),
            forall|i: int|
                0 <= i < final(self).dictionaries@.len() ==> old(self).dictionaries@.contains(
                    #[trigger] final(self).dictionaries@[i],
                ),
            forall|i: int|
                0 <= i < old(self).dictionaries@.len() ==> has_name(
                    final(self).dictionaries@,
                    (#[trigger] old(self).dictionaries@[i]).name@,
                ),
    {
        self.version = LOCK_VERSION;
        let ghost before = old(self).dictionaries@;
        self.sort_by_name();
        let ghost sorted = self.dictionaries@;
        let mut out: Vec<LockedDictionary> = Vec::new();
        let mut rest = Vec::new();
        std::mem::swap(&mut rest, &mut self.dictionaries);
        let n = rest.len();
        let mut k: usize = 0;
        while rest.len() > 0
            invariant
                n == sorted.len(),
                k + rest@.len() == sorted.len(),
                rest@ == sorted.skip(k as int),
                out@ == dedup_names(sorted.take(k as int)),
                out@.len() > 0 ==> k > 0 && out@.last().name@ == sorted[k - 1].name@,
            decreases rest@.len(),
        {
            let d = rest.remove(0);
            proof {
                assert(sorted.take(k + 1).drop_last() =~= sorted.take(k as int));
                assert(sorted.take(k + 1).last() == d);
                assert(rest@ =~= sorted.skip(k + 1));
            }
            let dup = out.len() > 0 && str_eq(out[out.len() - 1].name.as_str(), d.name.as_str());
            proof {
                if k > 0 {
                    assert(sorted.take(k + 1)[k - 1] == sorted[k - 1]);
                    lemma_dedup_nonempty(sorted.take(k as int));
                }
            }
            if !dup {
                out.push(d);
            }
            k += 1;
        }
        assert(sorted.take(n as int) =~= sorted);
        proof {
            broadcast use vstd::seq_lib::to_multiset_contains;

            lemma_dedup_strict(sorted);
            lemma_dedup_names(sorted);
            assert forall|i: int| 0 <= i < out@.len() implies before.contains(#[trigger] out@[i]) by {
                assert(sorted.contains(out@[i]));
                assert(sorted.to_multiset().count(out@[i]) > 0);
                assert(before.to_multiset().count(out@[i]) > 0);
            }
            assert forall|i: int| 0 <= i < before.len() implies has_name(out@, (#[trigger] before[i]).name@) by {
                assert(before.contains(before[i]));
                assert(before.to_multiset().count(before[i]) > 0);
                assert(sorted.to_multiset().count(before[i]) > 0);
                assert(sorted.contains(before[i]));
                let k = choose|k: int| 0 <= k < sorted.len() && sorted[k] == before[i];
                assert(has_name(out@, sorted[k].name@));
            }
        }
        let ghost result = out@;
        self.dictionaries = out;
        assert(self.dictionaries@ == result);
    }
}


/// Index of the last `@` in the first `n` characters, or -1.
pub open spec fn last_at(s: Seq<char>, n: int) -> int
    decreases n,
{
    if n <= 0 {
        -1
    } else if s[n - 1] == '@' {
        n - 1
    } else {
        last_at(s, n - 1)
    }
}

proof fn lemma_last_at(s: Seq<char>, n: int)
    requires
        0 <= n <= s.len(),
    ensures
        -1 <= last_at(s, n) < n,
        last_at(s, n) >= 0 ==> s[last_at(s, n)] == '@',
    decreases n,
{
    if n > 0 && s[n - 1] != '@' {
        lemma_last_at(s, n - 1);
    }
}

/// A reference split at its last `@` into name and version.
pub open spec fn spec_split_reference(s: Seq<char>) -> (Seq<char>, Option<Seq<char>>) {
    let j = last_at(s, s.len() as int);
    if j < 0 {
        (s, None)
    } else {
        (s.take(j), Some(s.skip(j + 1)))
    }
}

/// Split `name@version`; a reference without `@` has no version.
pub fn split_reference(reference: &str) -> (r: (&str, Option<&str>))
    ensures
        r.0@ == spec_split_reference(reference@).0,
        match r.1 {
            Some(v) => spec_split_reference(reference@).1 == Some(v@),
            None => spec_split_reference(reference@).1 is None,
        },
{
    let _n = crate::text::str_byte_len(reference);
    let cs = chars_of(reference);
    let offs = byte_offsets(cs.as_slice());
    let mut j = cs.len();
    while j > 0 && cs[j - 1] != '@'
        invariant
            j <= cs@.len(),
            cs@ == reference@,
            last_at(cs@, cs@.len() as int) == last_at(cs@, j as int),
        decreases j,
    {
        j -= 1;
    }
    if j == 0 {
        return (reference, None);
    }
    let at = j - 1;
    let name = substr(reference, offs[0], offs[at], Ghost(0), Ghost(at as int));
    let version = substr(reference, offs[at + 1], offs[cs.len()], Ghost(at + 1), Ghost(cs@.len() as int));
    assert(reference@.subrange(0, at as int) =~= reference@.take(at as int));
    assert(reference@.subrange(at + 1, reference@.len() as int) =~= reference@.skip(at + 1));
    (name, Some(version))
}

pub struct ResolvedRegistryRef {
    pub name: String,
    pub version: Option<String>,
    pub sha256: Option<String>,
    /// Where the dictionary is cached, when the cache directory is known.
    pub path: String,
}

/// `r` is the file `key.txt` in the `ayame-spell/dicts` directory under
/// `root`, each part joined by one separator.
pub open spec fn cache_file_at(root: Seq<char>, key: Seq<char>, r: Seq<char>) -> bool {
    exists|a: Seq<char>, b: Seq<char>|
        #![trigger joined(root, "ayame-spell"@, a), joined(a, "dicts"@, b)]
        joined(root, "ayame-spell"@, a) && joined(a, "dicts"@, b) && joined(b, key + ".txt"@, r)
}

/// Path of the cached registry dictionary `name` under the cache root
/// (`<cache>/ayame-spell/dicts/<name>.txt`), if the cache root is known.
/// The path is stated where the root and the name read the same on every
/// platform (see `join_path`).
pub fn registry_cache_path(cache_root: Option<&str>, name: &str) -> (r: Option<String>)
    ensures
        r is Some <==> cache_root is Some,
        cache_root is Some && plain_base(cache_root->0@) && plain_name(name@) ==> cache_file_at(
            cache_root->0@,
            name@,
            r->0@,
        ),
{
    proof {
        reveal_strlit("ayame-spell");
        reveal_strlit("dicts");
        reveal_strlit(".txt");
    }
    match cache_root {
        Some(root) => {
            let app = crate::text::join_path(root, "ayame-spell");
            let dicts = crate::text::join_path(app.as_str(), "dicts");
            let mut file = to_owned(name);
            push_str(&mut file, ".txt");
            let r = crate::text::join_path(dicts.as_str(), file.as_str());
            proof {
                if plain_base(root@) && plain_name(name@) {
                    assert(plain_name("ayame-spell"@));
                    assert(plain_name("dicts"@));
                    assert(plain_base(app@));
                    assert(plain_base(dicts@));
                    assert(!file@.contains('/') && !file@.contains('\\') && !file@.contains(':')) by {
                        assert forall|i: int| 0 <= i < file@.len() implies file@[i] != '/' && file@[i] != '\\'
                            && file@[i] != ':' by {
                            if i < name@.len() {
                                assert(file@[i] == name@[i]);
                            } else {
                                assert(file@[i] == ".txt"@[i - name@.len()]);
                            }
                        }
                    }
                    assert(plain_name(file@));
                    assert(joined(root@, "ayame-spell"@, app@) && joined(app@, "dicts"@, dicts@));
                }
            }
            Some(r)
        },
        None => None,
    }
}

/// The version a reference resolves to: the one it asks for, else the
/// locked one.
pub open spec fn release_version(lock: Seq<LockedDictionary>, name: Seq<char>, req: Option<Seq<char>>) -> Option<
    Seq<char>,
> {
    match req {
        Some(v) => Some(v),
        None => match locked_entry(lock, name, req) {
            Some(d) => Some(d.version@),
            None => None,
        },
    }
}

/// The cache key of a release: the name, with `@` and the version when
/// one is known.
pub open spec fn release_key(name: Seq<char>, version: Option<Seq<char>>) -> Seq<char> {
    match version {
        Some(v) => name + "@"@ + v,
        None => name,
    }
}

/// The lock entry a reference pins: the entry with its name, unless the
/// reference asks for another version.
pub open spec fn locked_entry(lock: Seq<LockedDictionary>, name: Seq<char>, version: Option<Seq<char>>) -> Option<LockedDictionary> {
    let i = first_named(lock, name, 0);
    if i < lock.len() && (version is None || version == Some(lock[i].version@)) {
        Some(lock[i])
    } else {
        None
    }
}

/// Resolve a registry reference (`name` or `name@version`) against the
/// lock: the version asked for, else the locked one; the locked checksum
/// when the versions agree; and the cache path of that release.
pub fn resolve(lock: &RegistryLock, cache_root: Option<&str>, reference: &str) -> (r: Result<ResolvedRegistryRef, String>)
    ensures
        ({
            let (name, req) = spec_split_reference(reference@);
            let locked = locked_entry(lock.dictionaries@, name, req);
            match r {
                Ok(res) => {
                    &&& name.len() > 0
                    &&& req != Some(Seq::<char>::empty())
                    &&& cache_root is Some
                    &&& res.name@ == name
                    &&& opt_view(res.version) == match req {
                        Some(v) => Some(v),
                        None => match locked {
                            Some(d) => Some(d.version@),
                            None => None,
                        },
                    }
                    &&& opt_view(res.sha256) == match locked {
                        Some(d) => Some(d.sha256@),
                        None => None,
                    }
                    &&& cache_root is Some && plain_base(cache_root->0@) && plain_name(
                        release_key(name, opt_view(res.version)),
                    ) ==> cache_file_at(cache_root->0@, release_key(name, opt_view(res.version)), res.path@)
                },
                Err(e) => if name.len() == 0 {
                    e@ == "empty registry dictionary name"@
                } else if req == Some(Seq::<char>::empty()) {
                    e@ == "empty registry version for `"@ + name + "`"@
                } else {
                    cache_root is None && e@ == "cannot determine the registry cache directory"@
                },
            }
        }),
{
    let (name, requested) = split_reference(reference);
    if name.is_empty() {
        return Err(to_owned("empty registry dictionary name"));
    }
    match requested {
        Some(v) => {
            if v.is_empty() {
                proof {
                    assert(v@ =~= Seq::<char>::empty());
                }
                let mut msg = to_owned("empty registry version for `");
                push_str(&mut msg, name);
                push_str(&mut msg, "`");
                return Err(msg);
            }
        },
        None => {},
    }
    let locked: Option<&LockedDictionary> = match lock.get(name) {
        Some(d) => match requested {
            Some(v) => if str_eq(v, d.version.as_str()) {
                Some(d)
            } else {
                None
            },
            None => Some(d),
        },
        None => None,
    };
    let version: Option<String> = match requested {
        Some(v) => Some(to_owned(v)),
        None => match locked {
            Some(d) => Some(to_owned(d.version.as_str())),
            None => None,
        },
    };
    let mut key = to_owned(name);
    match &version {
        Some(v) => {
            push_char(&mut key, '@');
            push_str(&mut key, v.as_str());
            proof {
                reveal_strlit("@");
                assert(key@ =~= name@ + "@"@ + v@);
            }
        },
        None => {},
    }
    assert(key@ == release_key(name@, opt_view(version)));
    let path = match registry_cache_path(cache_root, key.as_str()) {
        Some(p) => p,
        None => {
            return Err(to_owned("cannot determine the registry cache directory"));
        },
    };
    let sha256 = match locked {
        Some(d) => Some(to_owned(d.sha256.as_str())),
        None => None,
    };
    Ok(ResolvedRegistryRef { name: to_owned(name), version, sha256, path })
}

pub open spec fn opt_view(o: Option<String>) -> Option<Seq<char>> {
    match o {
        Some(s) => Some(s@),
        None => None,
    }
}

/// The SHA-256 digest of a byte string (`sha2::Sha256::digest`).
pub uninterp spec fn sha256(bytes: Seq<u8>) -> Seq<u8>;

/// `sha2::Sha256::digest`: the named digest, which is 32 bytes long.
#[verifier::external_body]
fn sha256_digest(bytes: &[u8]) -> (r: Vec<u8>)
    ensures
        r@ == sha256(bytes@),
        r@.len() == 32,
{
    <sha2::Sha256 as sha2::Digest>::digest(bytes).to_vec()
}

/// The lowercase hexadecimal digit of a value below 16.
pub open spec fn hex_digit(v: u8) -> char {
    if v < 10 {
        ((48 + v) as u8) as char
    } else {
        ((87 + v) as u8) as char
    }
}

/// Bytes in lowercase hexadecimal, two digits each.
pub open spec fn spec_hex(bytes: Seq<u8>) -> Seq<char>
    decreases bytes.len(),
{
    if bytes.len() == 0 {
        Seq::empty()
    } else {
        spec_hex(bytes.drop_last()) + seq![hex_digit(bytes.last() / 16), hex_digit(bytes.last() % 16)]
    }
}

fn hex_char(v: u8) -> (c: char)
    requires
        v < 16,
    ensures
        c == hex_digit(v),
{
    if v < 10 {
        (48 + v) as char
    } else {
        (87 + v) as char
    }
}

pub fn hex(bytes: &[u8]) -> (r: String)
    ensures
        r@ == spec_hex(bytes@),
{
    let mut r = String::new();
    let mut i: usize = 0;
    while i < bytes.len()
        invariant
            0 <= i <= bytes@.len(),
            r@ == spec_hex(bytes@.take(i as int)),
        decreases bytes@.len() - i,
    {
        let b = bytes[i];
        push_char(&mut r, hex_char(b / 16));
        push_char(&mut r, hex_char(b % 16));
        proof {
            assert(bytes@.take(i + 1).drop_last() =~= bytes@.take(i as int));
            assert(r@ =~= spec_hex(bytes@.take(i + 1)));
        }
        i += 1;
    }
    assert(bytes@.take(bytes@.len() as int) =~= bytes@);
    r
}

/// Check a locked dictionary's bytes against the checksum its lock entry
/// records (compared ASCII case-insensitively). `path` names the file in
/// the error.
pub fn verify_digest(bytes: &[u8], expected: &str, path: &str) -> (r: Result<(), String>)
    ensures
        r is Ok <==> spec_hex(sha256(bytes@)) == lower_seq(expected@),
        r matches Err(e) ==> e@ == "checksum mismatch for locked dictionary "@ + path@ + " (expected "@
            + expected@ + ", got "@ + spec_hex(sha256(bytes@)) + "); run `ayame-spell dict add` to restore it"@,
{
    let digest = sha256_digest(bytes);
    let actual = hex(digest.as_slice());
    let want = ascii_lowercase(expected);
    if actual == want {
        Ok(())
    } else {
        let mut msg = to_owned("checksum mismatch for locked dictionary ");
        push_str(&mut msg, path);
        push_str(&mut msg, " (expected ");
        push_str(&mut msg, expected);
        push_str(&mut msg, ", got ");
        push_str(&mut msg, actual.as_str());
        push_str(&mut msg, "); run `ayame-spell dict add` to restore it");
        Err(msg)
    }
}

/// Check downloaded dictionary bytes against the checksum the registry
/// publishes (compared ASCII case-insensitively). `name` names the
/// dictionary in the error.
pub fn verify_download(bytes: &[u8], expected: &str, name: &str) -> (r: Result<(), String>)
    ensures
        r is Ok <==> spec_hex(sha256(bytes@)) == lower_seq(expected@),
        r matches Err(e) ==> e@ == "checksum mismatch for "@ + name@ + " (expected "@ + expected@ + ", got "@
            + spec_hex(sha256(bytes@)) + ")"@,
{
    let digest = sha256_digest(bytes);
    let actual = hex(digest.as_slice());
    let want = ascii_lowercase(expected);
    if actual == want {
        Ok(())
    } else {
        let mut msg = to_owned("checksum mismatch for ");
        push_str(&mut msg, name);
        push_str(&mut msg, " (expected ");
        push_str(&mut msg, expected);
        push_str(&mut msg, ", got ");
        push_str(&mut msg, actual.as_str());
        push_str(&mut msg, ")");
        Err(msg)
    }
}

/// The lock a lock file holds: its entries sorted by name, when it has the
/// supported version; otherwise `unsupported lockfile version N`.
pub fn lock_from_file(version: u32, dictionaries: Vec<LockedDictionary>) -> (r: Result<RegistryLock, String>)
    ensures
        version != LOCK_VERSION ==> r is Err && r->Err_0@ == "unsupported lockfile version "@
            + crate::report::decimal(version as nat),
        version == LOCK_VERSION ==> r is Ok && r->Ok_0.version == version && sorted_by_name(
            r->Ok_0.dictionaries@,
        ) && r->Ok_0.dictionaries@.to_multiset() == dictionaries@.to_multiset(),
{
    if version != LOCK_VERSION {
        let mut msg = to_owned("unsupported lockfile version ");
        let n = crate::report::decimal_string(version as usize);
        push_str(&mut msg, n.as_str());
        return Err(msg);
    }
    let mut lock = RegistryLock { version, dictionaries };
    lock.sort_by_name();
    Ok(lock)
}

} // verus!
