//! Dictionary registry entries and the choice of a release to install.
use vstd::prelude::*;

use crate::config::Config;
use crate::text::{push_str, spec_strip_prefix, str_eq, strip_prefix, to_owned};
use crate::config::{lowercase, unicode_lowercase};
use crate::registry_lock::{spec_split_reference, split_reference};

verus! {

/// A published release of a registry dictionary.
pub struct Release {
    pub version: String,
    pub file: String,
    pub sha256: String,
    pub entries: usize,
}

/// A dictionary of the registry index: its current release, with the
/// earlier ones under `versions`.
pub struct Entry {
    pub name: String,
    pub version: String,
    pub language: String,
    pub kind: String,
    pub description: String,
    pub provenance: String,
    pub file: String,
    pub sha256: String,
    pub entries: usize,
    pub versions: Vec<Release>,
    pub license: Option<String>,
}

/// The release chosen for installation.
pub struct SelectedRelease<'a> {
    pub version: &'a str,
    pub file: &'a str,
    pub sha256: &'a str,
    pub entries: usize,
}

/// Index of the first release with version `v`, or -1.
pub open spec fn release_index(vs: Seq<Release>, v: Seq<char>, n: int) -> int
    decreases n,
{
    if n <= 0 {
        -1
    } else {
        let k = release_index(vs, v, n - 1);
        if k < 0 && vs[n - 1].version@ == v {
            n - 1
        } else {
            k
        }
    }
}

/// The version asked for: the requested one, or the entry's current one.
pub open spec fn wanted_version(entry: Entry, requested: Option<&str>) -> Seq<char> {
    match requested {
        Some(v) => v@,
        None => entry.version@,
    }
}

/// The release of `entry` to install: the current one when its version is
/// asked for (or none is), else the first listed release of that version;
/// an error names the dictionary, the version and the current version.
pub fn select_release<'a>(entry: &'a Entry, requested_version: Option<&str>) -> (r: Result<
    SelectedRelease<'a>,
    String,
>)
    ensures
        ({
            let v = wanted_version(*entry, requested_version);
            let k = release_index(entry.versions@, v, entry.versions@.len() as int);
            if v == entry.version@ {
                r matches Ok(s) && s.version@ == entry.version@ && s.file@ == entry.file@
                    && s.sha256@ == entry.sha256@ && s.entries == entry.entries
            } else if k >= 0 {
                &&& 0 <= k < entry.versions@.len()
                &&& r matches Ok(s) && s.version@ == entry.versions@[k].version@ && s.file@
                    == entry.versions@[k].file@ && s.sha256@ == entry.versions@[k].sha256@
                    && s.entries == entry.versions@[k].entries
            } else {
                r matches Err(e) && e@ == "dictionary `"@ + entry.name@ + "` has no version `"@ + v
                    + "` (current: "@ + entry.version@ + ")"@
            }
        }),
{
    let version: &str = match requested_version {
        Some(v) => v,
        None => entry.version.as_str(),
    };
    if str_eq(version, entry.version.as_str()) {
        return Ok(
            SelectedRelease {
                version: entry.version.as_str(),
                file: entry.file.as_str(),
                sha256: entry.sha256.as_str(),
                entries: entry.entries,
            },
        );
    }
    let mut i: usize = 0;
    while i < entry.versions.len()
        invariant
            0 <= i <= entry.versions@.len(),
            version@ == wanted_version(*entry, requested_version),
            version@ != entry.version@,
            release_index(entry.versions@, version@, i as int) == -1,
        decreases entry.versions@.len() - i,
    {
        let release = &entry.versions[i];
        if str_eq(release.version.as_str(), version) {
            proof {
                assert(release_index(entry.versions@, version@, i + 1) == i);
                lemma_release_index_stays(entry.versions@, version@, i as int + 1, entry.versions@.len() as int);
            }
            return Ok(
                SelectedRelease {
                    version: release.version.as_str(),
                    file: release.file.as_str(),
                    sha256: release.sha256.as_str(),
                    entries: release.entries,
                },
            );
        }
        i += 1;
    }
    let mut e = to_owned("dictionary `");
    push_str(&mut e, entry.name.as_str());
    push_str(&mut e, "` has no version `");
    push_str(&mut e, version);
    push_str(&mut e, "` (current: ");
    push_str(&mut e, entry.version.as_str());
    push_str(&mut e, ")");
    Err(e)
}

/// Once found, the first matching release stays the first.
proof fn lemma_release_index_stays(vs: Seq<Release>, v: Seq<char>, m: int, n: int)
    requires
        0 < m <= n,
        release_index(vs, v, m) == m - 1,
    ensures
        release_index(vs, v, n) == m - 1,
    decreases n - m,
{
    if n > m {
        lemma_release_index_stays(vs, v, m, n - 1);
    }
}


/// Languages of registry dictionaries.
#[derive(Clone, Copy, PartialEq, Eq, Structural, Debug)]
pub enum Language {
    En,
    Ja,
}

impl Language {
    /// The registry's name of the language.
    pub fn as_str(self) -> (r: &'static str)
        ensures
            r@ == match self {
                Language::En => "en"@,
                Language::Ja => "ja"@,
            },
    {
        match self {
            Language::En => "en",
            Language::Ja => "ja",
        }
    }
}

/// Kinds of registry dictionaries.
#[derive(Clone, Copy, PartialEq, Eq, Structural, Debug)]
pub enum DictKind {
    Wordlist,
    Corrections,
    Variants,
}

impl DictKind {
    /// The registry's name of the kind.
    pub fn as_str(self) -> (r: &'static str)
        ensures
            r@ == match self {
                DictKind::Wordlist => "wordlist"@,
                DictKind::Corrections => "corrections"@,
                DictKind::Variants => "variants"@,
            },
    {
        match self {
            DictKind::Wordlist => "wordlist",
            DictKind::Corrections => "corrections",
            DictKind::Variants => "variants",
        }
    }
}

/// Whether a configuration reference names the registry dictionary `name`
/// (`registry:name`, with or without `@version`).
pub open spec fn names_registry_entry(reference: Seq<char>, name: Seq<char>) -> bool {
    match crate::text::spec_strip_prefix(reference, "registry:"@) {
        Some(r) => crate::registry_lock::spec_split_reference(r).0 == name,
        None => false,
    }
}

/// The configuration references that enable dictionaries of a kind.
pub open spec fn references_of(config: Config, kind: Seq<char>) -> Option<Seq<Seq<char>>> {
    if kind == "wordlist"@ {
        Some(config.words.dictionaries.deep_view())
    } else if kind == "corrections"@ {
        Some(config.corrections.extra.deep_view())
    } else if kind == "variants"@ {
        Some(config.japanese.variant_files.deep_view())
    } else {
        None
    }
}

/// Whether the configuration enables a registry dictionary: a reference of
/// its kind names it.
pub open spec fn spec_is_enabled(config: Config, entry: Entry) -> bool {
    match references_of(config, entry.kind@) {
        Some(refs) => exists|k: int| 0 <= k < refs.len() && names_registry_entry(#[trigger] refs[k], entry.name@),
        None => false,
    }
}

fn any_names(refs: &Vec<String>, name: &str) -> (r: bool)
    ensures
        r == exists|k: int| 0 <= k < refs@.len() && names_registry_entry(#[trigger] refs.deep_view()[k], name@),
{
    let mut i: usize = 0;
    while i < refs.len()
        invariant
            0 <= i <= refs@.len(),
            forall|k: int| 0 <= k < i ==> !names_registry_entry(#[trigger] refs.deep_view()[k], name@),
        decreases refs@.len() - i,
    {
        assert(refs.deep_view()[i as int] == refs@[i as int]@);
        match crate::text::strip_prefix(refs[i].as_str(), "registry:") {
            Some(r) => {
                let (n, _) = crate::registry_lock::split_reference(r);
                if str_eq(n, name) {
                    return true;
                }
            },
            None => {},
        }
        i += 1;
    }
    false
}

/// Whether the configuration enables a registry dictionary.
pub fn is_enabled(config: &Config, entry: &Entry) -> (r: bool)
    ensures
        r == spec_is_enabled(*config, *entry),
{
    let kind = entry.kind.as_str();
    if str_eq(kind, "wordlist") {
        any_names(&config.words.dictionaries, entry.name.as_str())
    } else if str_eq(kind, "corrections") {
        any_names(&config.corrections.extra, entry.name.as_str())
    } else if str_eq(kind, "variants") {
        any_names(&config.japanese.variant_files, entry.name.as_str())
    } else {
        false
    }
}

/// Whether an entry is of the language and kind asked for (each where one
/// is asked for).
pub fn matches_filters(entry: &Entry, lang: Option<Language>, kind: Option<DictKind>) -> (r: bool)
    ensures
        r == ((match lang {
            None => true,
            Some(Language::En) => entry.language@ == "en"@,
            Some(Language::Ja) => entry.language@ == "ja"@,
        }) && (match kind {
            None => true,
            Some(DictKind::Wordlist) => entry.kind@ == "wordlist"@,
            Some(DictKind::Corrections) => entry.kind@ == "corrections"@,
            Some(DictKind::Variants) => entry.kind@ == "variants"@,
        })),
{
    let lang_ok = match lang {
        None => true,
        Some(l) => str_eq(entry.language.as_str(), l.as_str()),
    };
    let kind_ok = match kind {
        None => true,
        Some(k) => str_eq(entry.kind.as_str(), k.as_str()),
    };
    lang_ok && kind_ok
}

/// The config table and key that enable dictionaries of a kind.
pub open spec fn spec_config_slot(kind: Seq<char>) -> Option<(Seq<char>, Seq<char>)> {
    if kind == "wordlist"@ {
        Some(("words"@, "dictionaries"@))
    } else if kind == "corrections"@ {
        Some(("corrections"@, "extra"@))
    } else if kind == "variants"@ {
        Some(("japanese"@, "variant-files"@))
    } else {
        None
    }
}

/// Which config array a dictionary kind belongs to.
pub fn config_slot(kind: &str) -> (r: Option<(&'static str, &'static str)>)
    ensures
        match r {
            Some((t, k)) => spec_config_slot(kind@) == Some((t@, k@)),
            None => spec_config_slot(kind@) is None,
        },
{
    if str_eq(kind, "wordlist") {
        Some(("words", "dictionaries"))
    } else if str_eq(kind, "corrections") {
        Some(("corrections", "extra"))
    } else if str_eq(kind, "variants") {
        Some(("japanese", "variant-files"))
    } else {
        None
    }
}

/// The file extension of a vendored dictionary of a kind.
pub open spec fn spec_vendor_extension(kind: Seq<char>) -> Option<Seq<char>> {
    if kind == "wordlist"@ {
        Some("txt"@)
    } else if kind == "corrections"@ {
        Some("tsv"@)
    } else if kind == "variants"@ {
        Some("toml"@)
    } else {
        None
    }
}

/// The file extension of a vendored dictionary of a kind; none for an
/// unknown kind, which cannot be vendored.
pub fn vendor_extension(kind: &str) -> (r: Option<&'static str>)
    ensures
        match r {
            Some(e) => spec_vendor_extension(kind@) == Some(e@),
            None => spec_vendor_extension(kind@) is None,
        },
{
    if str_eq(kind, "wordlist") {
        Some("txt")
    } else if str_eq(kind, "corrections") {
        Some("tsv")
    } else if str_eq(kind, "variants") {
        Some("toml")
    } else {
        None
    }
}

/// The URL of a registry file: the index URL with its last segment
/// replaced by `file`.
pub open spec fn spec_source_url(index_url: Seq<char>, file: Seq<char>) -> Seq<char> {
    let j = crate::migrate::last_index(index_url, '/', index_url.len() as int);
    if j >= 0 {
        index_url.take(j) + "/"@ + file
    } else {
        index_url + "/"@ + file
    }
}

/// The URL of a registry file, next to the index.
pub fn source_url(index_url: &str, file: &str) -> (r: String)
    ensures
        r@ == spec_source_url(index_url@, file@),
{
    let cs = crate::text::chars_of(index_url);
    let mut j = cs.len();
    while j > 0 && cs[j - 1] != '/'
        invariant
            j <= cs@.len(),
            cs@ == index_url@,
            crate::migrate::last_index(cs@, '/', cs@.len() as int) == crate::migrate::last_index(cs@, '/', j as int),
        decreases j,
    {
        j -= 1;
    }
    let mut s = if j > 0 {
        crate::text::string_from_range(cs.as_slice(), 0, j - 1)
    } else {
        to_owned(index_url)
    };
    push_str(&mut s, "/");
    push_str(&mut s, file);
    proof {
        if j > 0 {
            assert(cs@.subrange(0, j - 1) =~= cs@.take(j - 1));
        }
    }
    s
}

/// The reference that enables a registry dictionary: `registry:name`, with
/// `@version` where a version was asked for.
pub fn registry_reference(name: &str, version: Option<&str>) -> (r: String)
    ensures
        r@ == match version {
            Some(v) => "registry:"@ + name@ + "@"@ + v@,
            None => "registry:"@ + name@,
        },
{
    let mut s = to_owned("registry:");
    push_str(&mut s, name);
    match version {
        Some(v) => {
            push_str(&mut s, "@");
            push_str(&mut s, v);
        },
        None => {},
    }
    s
}

/// The version pinned for `name` by the first reference of `refs` (from
/// `i` on) that names it with a version.
pub open spec fn pinned_from(refs: Seq<Seq<char>>, name: Seq<char>, i: int) -> Option<Seq<char>>
    decreases refs.len() - i,
{
    if i >= refs.len() || i < 0 {
        None
    } else {
        match crate::text::spec_strip_prefix(refs[i], "registry:"@) {
            Some(rest) => {
                let (n, v) = crate::registry_lock::spec_split_reference(rest);
                if n == name && v is Some {
                    v
                } else {
                    pinned_from(refs, name, i + 1)
                }
            },
            None => pinned_from(refs, name, i + 1),
        }
    }
}

/// The version that the configuration pins for the registry dictionary
/// `name` of a kind, if a reference gives one.
pub open spec fn spec_pinned_version(config: Config, kind: Seq<char>, name: Seq<char>) -> Option<Seq<char>> {
    match references_of(config, kind) {
        Some(refs) => pinned_from(refs, name, 0),
        None => None,
    }
}

fn pinned_in(refs: &Vec<String>, name: &str) -> (r: Option<String>)
    ensures
        crate::registry_lock::opt_view(r) == pinned_from(refs.deep_view(), name@, 0),
{
    let ghost rv = refs.deep_view();
    let mut i: usize = 0;
    while i < refs.len()
        invariant
            0 <= i <= refs@.len(),
            rv == refs.deep_view(),
            pinned_from(rv, name@, 0) == pinned_from(rv, name@, i as int),
        decreases refs@.len() - i,
    {
        assert(rv[i as int] == refs@[i as int]@);
        match crate::text::strip_prefix(refs[i].as_str(), "registry:") {
            Some(rest) => {
                let (n, v) = crate::registry_lock::split_reference(rest);
                if str_eq(n, name) {
                    match v {
                        Some(version) => {
                            return Some(to_owned(version));
                        },
                        None => {},
                    }
                }
            },
            None => {},
        }
        i += 1;
    }
    None
}

/// The version that the configuration pins for the registry dictionary
/// `name` of a kind: the first reference of that kind naming it with a
/// version.
pub fn pinned_version(config: &Config, kind: &str, name: &str) -> (r: Option<String>)
    ensures
        crate::registry_lock::opt_view(r) == spec_pinned_version(*config, kind@, name@),
{
    if str_eq(kind, "wordlist") {
        pinned_in(&config.words.dictionaries, name)
    } else if str_eq(kind, "corrections") {
        pinned_in(&config.corrections.extra, name)
    } else if str_eq(kind, "variants") {
        pinned_in(&config.japanese.variant_files, name)
    } else {
        None
    }
}

/// `vs` with its references to the registry dictionary `name` rewritten:
/// the first becomes `replacement`, the others are dropped; also whether
/// there was one.
pub open spec fn rewritten_references(vs: Seq<Seq<char>>, name: Seq<char>, replacement: Seq<char>) -> (Seq<Seq<char>>, bool)
    decreases vs.len(),
{
    if vs.len() == 0 {
        (Seq::empty(), false)
    } else {
        let (r, done) = rewritten_references(vs.drop_last(), name, replacement);
        let v = vs.last();
        if names_registry_entry(v, name) {
            if done {
                (r, true)
            } else {
                (r.push(replacement), true)
            }
        } else {
            (r.push(v), done)
        }
    }
}

/// A config array with every reference to the registry dictionary `name`
/// replaced by one `replacement` (where the first stood, or at the end),
/// other values kept.
pub open spec fn spec_replace_registry_reference(vs: Seq<Seq<char>>, name: Seq<char>, replacement: Seq<char>) -> Seq<Seq<char>> {
    let (r, done) = rewritten_references(vs, name, replacement);
    if done {
        r
    } else {
        r.push(replacement)
    }
}

/// A config array with every reference to the registry dictionary `name`
/// replaced by one `replacement`, other values kept in order.
pub fn replace_registry_reference(values: &Vec<String>, name: &str, replacement: &str) -> (r: Vec<String>)
    ensures
        r.deep_view() == spec_replace_registry_reference(values.deep_view(), name@, replacement@),
{
    let ghost vv = values.deep_view();
    let mut out: Vec<String> = Vec::new();
    let mut done = false;
    let mut i: usize = 0;
    assert(vv.take(0) =~= Seq::<Seq<char>>::empty());
    assert(out.deep_view() =~= Seq::<Seq<char>>::empty());
    while i < values.len()
        invariant
            0 <= i <= values@.len(),
            vv == values.deep_view(),
            (out.deep_view(), done) == rewritten_references(vv.take(i as int), name@, replacement@),
        decreases values@.len() - i,
    {
        let v = values[i].as_str();
        assert(vv[i as int] == v@);
        assert(vv.take(i + 1).drop_last() =~= vv.take(i as int));
        let matches = match crate::text::strip_prefix(v, "registry:") {
            Some(r) => {
                let (n, _) = crate::registry_lock::split_reference(r);
                str_eq(n, name)
            },
            None => false,
        };
        let ghost before = out.deep_view();
        if matches {
            if !done {
                out.push(to_owned(replacement));
                assert(out.deep_view() =~= before.push(replacement@));
                done = true;
            }
        } else {
            out.push(to_owned(v));
            assert(out.deep_view() =~= before.push(v@));
        }
        i += 1;
    }
    assert(vv.take(vv.len() as int) =~= vv);
    if !done {
        let ghost before = out.deep_view();
        out.push(to_owned(replacement));
        assert(out.deep_view() =~= before.push(replacement@));
    }
    out
}


/// Whether `n` occurs in `h`.
pub open spec fn occurs_in(h: Seq<char>, n: Seq<char>) -> bool {
    exists|i: int| 0 <= i && i + n.len() <= h.len() && #[trigger] h.subrange(i, i + n.len()) == n
}

/// Whether `n` occurs in `h` (`str::contains`).
fn contains_text(h: &str, n: &str) -> (r: bool)
    ensures
        r == occurs_in(h@, n@),
{
    let cs = crate::text::chars_of(h);
    let ps = crate::text::chars_of(n);
    if ps.len() == 0 {
        assert(h@.subrange(0, 0) =~= n@);
        return true;
    }
    let r = crate::syntax::find_seq(&cs, 0, &ps);
    proof {
        if occurs_in(h@, n@) {
            let i = choose|i: int| 0 <= i && i + n@.len() <= h@.len() && #[trigger] h@.subrange(i, i + n@.len()) == n@;
            assert(crate::syntax::occurs_at(cs@, i, ps@));
        }
    }
    match r {
        Some(_) => true,
        None => false,
    }
}

/// Whether a registry entry matches a search: its name or its description
/// holds the query, case ignored.
pub fn search_matches(name: &str, description: &str, query: &str) -> (r: bool)
    ensures
        r == (occurs_in(unicode_lowercase(name@), unicode_lowercase(query@)) || occurs_in(
            unicode_lowercase(description@),
            unicode_lowercase(query@),
        )),
{
    let q = lowercase(query);
    let a = lowercase(name);
    let b = lowercase(description);
    contains_text(a.as_str(), q.as_str()) || contains_text(b.as_str(), q.as_str())
}

/// Whether a configured reference names the registry dictionary `base`,
/// whatever version it pins.
pub open spec fn refers_to(reference: Seq<char>, base: Seq<char>) -> bool {
    spec_strip_prefix(reference, "registry:"@) matches Some(rest) && spec_split_reference(rest).0 == base
}

/// The references of `rs` that name the registry dictionary `base`, in
/// order.
pub open spec fn references_to(rs: Seq<Seq<char>>, base: Seq<char>) -> Seq<Seq<char>>
    decreases rs.len(),
{
    if rs.len() == 0 {
        Seq::empty()
    } else if refers_to(rs.last(), base) {
        references_to(rs.drop_last(), base).push(rs.last())
    } else {
        references_to(rs.drop_last(), base)
    }
}

/// The configured references to the registry dictionary `base`.
pub fn registry_references_to(references: &Vec<String>, base: &str) -> (r: Vec<String>)
    ensures
        r.deep_view() == references_to(references.deep_view(), base@),
{
    proof {
        reveal_strlit("registry:");
    }
    let ghost rv = references.deep_view();
    let mut out: Vec<String> = Vec::new();
    let mut i: usize = 0;
    assert(rv.take(0) =~= Seq::<Seq<char>>::empty());
    while i < references.len()
        invariant
            rv == references.deep_view(),
            i <= references@.len(),
            out.deep_view() == references_to(rv.take(i as int), base@),
        decreases references@.len() - i,
    {
        let reference = references[i].as_str();
        assert(rv.take(i + 1).drop_last() =~= rv.take(i as int));
        assert(rv.take(i + 1).last() == reference@);
        let hit = match strip_prefix(reference, "registry:") {
            Some(rest) => str_eq(split_reference(rest).0, base),
            None => false,
        };
        if hit {
            let ghost before = out.deep_view();
            out.push(to_owned(reference));
            assert(out.deep_view() =~= before.push(reference@));
        }
        i += 1;
    }
    assert(rv.take(references@.len() as int) =~= rv);
    out
}

} // verus!
