//! Configuration: `ayame-spell.toml` at the project root, merged over the
//! per-user global configuration.
//!
//! Dictionary references understand these forms:
//! - `registry:name` — a dictionary installed from the registry, resolved
//!   through `ayame-spell.lock`;
//! - `registry:name@version` — an explicit immutable registry release;
//! - a path relative to the project root;
//! - an absolute path.
//!
//! Reading and parsing the TOML files is the caller's part; this module
//! holds the merge rules, the defaults, key validation and reference
//! resolution.
use vstd::prelude::*;

use crate::dictionary::lev;
use crate::japanese::{KatakanaStyle, SpacePolicy};
use crate::registry_lock::{
    cache_file_at, locked_entry, opt_view, release_key, release_version, resolve, spec_split_reference, RegistryLock,
};
use crate::text::{chars_of, is_absolute_path, join_path, joined, plain_base, plain_name, rel_path, push_str, spec_strip_prefix, str_eq, strip_prefix, to_owned};

verus! {

pub const PROJECT_FILE_NAMES: [&'static str; 2] = ["ayame-spell.toml", ".ayame-spell.toml"];

#[derive(Debug, Clone, Copy, PartialEq, Eq, Structural)]
pub enum Mode {
    /// Flag only known misspellings (near-zero false positives).
    Corrections,
    /// Corrections plus unknown-word detection against wordlists.
    Dictionary,
    Off,
}

#[derive(Debug, Clone, Copy, PartialEq, Eq, Structural)]
pub enum EnglishLocale {
    Any,
    EnUs,
    EnGb,
}

#[derive(Debug, Clone, Copy, PartialEq, Eq, Structural)]
pub enum SyntaxProfile {
    /// Select prose or source filtering from the file extension.
    Auto,
    /// Check prose while masking Markdown markup and code.
    Prose,
    /// Check only comments and string literals in source files.
    Source,
    /// Check every token.
    All,
}

#[derive(Debug, Clone, Copy, PartialEq, Eq, Structural)]
pub enum KatakanaStyleConfig {
    Consistency,
    Long,
    Short,
    Off,
}

#[derive(Debug, Clone, Copy, PartialEq, Eq, Structural)]
pub enum SpacePolicyConfig {
    Code,
    Always,
    Never,
}

impl Default for Mode {
    fn default() -> (r: Self)
        ensures
            r == Mode::Corrections,
    {
        Mode::Corrections
    }
}

impl Default for EnglishLocale {
    fn default() -> (r: Self)
        ensures
            r == EnglishLocale::Any,
    {
        EnglishLocale::Any
    }
}

impl Default for SyntaxProfile {
    fn default() -> (r: Self)
        ensures
            r == SyntaxProfile::All,
    {
        SyntaxProfile::All
    }
}

impl Default for KatakanaStyleConfig {
    fn default() -> (r: Self)
        ensures
            r == KatakanaStyleConfig::Consistency,
    {
        KatakanaStyleConfig::Consistency
    }
}

impl Default for SpacePolicyConfig {
    fn default() -> (r: Self)
        ensures
            r == SpacePolicyConfig::Code,
    {
        SpacePolicyConfig::Code
    }
}

pub open spec fn style_of(v: KatakanaStyleConfig) -> KatakanaStyle {
    match v {
        KatakanaStyleConfig::Consistency => KatakanaStyle::Consistency,
        KatakanaStyleConfig::Long => KatakanaStyle::Long,
        KatakanaStyleConfig::Short => KatakanaStyle::Short,
        KatakanaStyleConfig::Off => KatakanaStyle::Off,
    }
}

pub open spec fn policy_of(v: SpacePolicyConfig) -> SpacePolicy {
    match v {
        SpacePolicyConfig::Code => SpacePolicy::Code,
        SpacePolicyConfig::Always => SpacePolicy::Always,
        SpacePolicyConfig::Never => SpacePolicy::Never,
    }
}

impl From<KatakanaStyleConfig> for KatakanaStyle {
    fn from(v: KatakanaStyleConfig) -> (r: Self) {
        match v {
            KatakanaStyleConfig::Consistency => KatakanaStyle::Consistency,
            KatakanaStyleConfig::Long => KatakanaStyle::Long,
            KatakanaStyleConfig::Short => KatakanaStyle::Short,
            KatakanaStyleConfig::Off => KatakanaStyle::Off,
        }
    }
}

impl vstd::std_specs::convert::FromSpecImpl<KatakanaStyleConfig> for KatakanaStyle {
    open spec fn obeys_from_spec() -> bool {
        true
    }

    open spec fn from_spec(v: KatakanaStyleConfig) -> KatakanaStyle {
        style_of(v)
    }
}

impl From<SpacePolicyConfig> for SpacePolicy {
    fn from(v: SpacePolicyConfig) -> (r: Self) {
        match v {
            SpacePolicyConfig::Code => SpacePolicy::Code,
            SpacePolicyConfig::Always => SpacePolicy::Always,
            SpacePolicyConfig::Never => SpacePolicy::Never,
        }
    }
}

impl vstd::std_specs::convert::FromSpecImpl<SpacePolicyConfig> for SpacePolicy {
    open spec fn obeys_from_spec() -> bool {
        true
    }

    open spec fn from_spec(v: SpacePolicyConfig) -> SpacePolicy {
        policy_of(v)
    }
}

/// Effective configuration with all defaults applied.
#[derive(Debug, Clone)]
pub struct Config {
    pub check: CheckConfig,
    pub files: FilesConfig,
    pub words: WordsConfig,
    pub corrections: CorrectionsConfig,
    pub japanese: JapaneseConfig,
    pub overrides: Vec<OverrideConfig>,
}

#[derive(Debug, Clone)]
pub struct CheckConfig {
    pub mode: Mode,
    /// English regional spelling policy.
    pub locale: EnglishLocale,
    /// How markup and source syntax is filtered before checking.
    pub profile: SyntaxProfile,
    /// Words shorter than this are never flagged.
    pub min_word_len: usize,
    /// Longer digit-containing tokens are treated as hashes and skipped.
    pub max_token_len: usize,
}

#[derive(Debug, Clone)]
pub struct FilesConfig {
    /// Glob patterns excluded in addition to `.gitignore`.
    pub exclude: Vec<String>,
    pub include_hidden: bool,
    /// Files larger than this many bytes are skipped (0 = no limit).
    pub max_file_size: u64,
}

#[derive(Debug, Clone)]
pub struct WordsConfig {
    /// Project word file, relative to the project root.
    pub project: String,
    /// Words never flagged, in any mode (lowercase).
    pub ignore: Vec<String>,
    /// Wordlists for dictionary mode.
    pub dictionaries: Vec<String>,
}

#[derive(Debug, Clone)]
pub struct CorrectionsConfig {
    /// Use the built-in English corrections table.
    pub builtin: bool,
    /// Extra correction tables: TSV files or registry references.
    pub extra: Vec<String>,
    /// Inline corrections, one entry per typo, in the key order of the
    /// configuration table; a fix equal to its typo whitelists the word.
    /// Where two keys fold to the same lowercase word, the later one wins.
    pub words: Vec<(String, Vec<String>)>,
}

#[derive(Debug, Clone)]
pub struct JapaneseConfig {
    pub enabled: bool,
    pub katakana_style: KatakanaStyleConfig,
    /// Inline variant rules: `"変種" = "正規形"`, one entry per variant, in
    /// the key order of the configuration table.
    pub variants: Vec<(String, String)>,
    /// Variant rule files or registry references.
    pub variant_files: Vec<String>,
    pub flag_fullwidth_alnum: bool,
    pub flag_halfwidth_kana: bool,
    /// Flag compatibility characters such as ㎏ with an NFKC suggestion.
    pub flag_compatibility: bool,
    /// Flag minority kanji/okurigana forms when a document mixes known pairs.
    pub kanji_consistency: bool,
    /// Flag minority Arabic/kanji number forms for the same value and unit.
    pub number_consistency: bool,
    /// Flag minority Japanese/fullwidth punctuation styles.
    pub punctuation_consistency: bool,
    pub fullwidth_space: SpacePolicyConfig,
}

/// Per-glob overrides; later entries win.
#[derive(Debug, Clone)]
pub struct OverrideConfig {
    pub paths: Vec<String>,
    pub mode: Option<Mode>,
    pub profile: Option<SyntaxProfile>,
    pub japanese: Option<bool>,
}

// ---------------------------------------------------------------------------
// Raw (partial) configuration as read from files, before merging and
// defaults.
// ---------------------------------------------------------------------------

#[derive(Debug, Clone)]
pub struct RawConfig {
    pub check: RawCheck,
    pub files: RawFiles,
    pub words: RawWords,
    pub corrections: RawCorrections,
    pub japanese: RawJapanese,
    pub overrides: Vec<OverrideConfig>,
}

#[derive(Debug, Clone)]
pub struct RawCheck {
    pub mode: Option<Mode>,
    pub locale: Option<EnglishLocale>,
    pub profile: Option<SyntaxProfile>,
    pub min_word_len: Option<usize>,
    pub max_token_len: Option<usize>,
}

#[derive(Debug, Clone)]
pub struct RawFiles {
    pub exclude: Vec<String>,
    pub include_hidden: Option<bool>,
    pub max_file_size: Option<u64>,
}

#[derive(Debug, Clone)]
pub struct RawWords {
    pub project: Option<String>,
    pub ignore: Vec<String>,
    pub dictionaries: Vec<String>,
}

#[derive(Debug, Clone)]
pub struct RawCorrections {
    pub builtin: Option<bool>,
    pub extra: Vec<String>,
    pub words: Vec<(String, OneOrMany)>,
}

/// A correction written as one fix or a list of fixes.
#[derive(Debug, Clone)]
pub enum OneOrMany {
    One(String),
    Many(Vec<String>),
}

#[derive(Debug, Clone)]
pub struct RawJapanese {
    pub enabled: Option<bool>,
    pub katakana_style: Option<KatakanaStyleConfig>,
    pub variants: Vec<(String, String)>,
    pub variant_files: Vec<String>,
    pub flag_fullwidth_alnum: Option<bool>,
    pub flag_halfwidth_kana: Option<bool>,
    pub flag_compatibility: Option<bool>,
    pub kanji_consistency: Option<bool>,
    pub number_consistency: Option<bool>,
    pub punctuation_consistency: Option<bool>,
    pub fullwidth_space: Option<SpacePolicyConfig>,
}

pub open spec fn or_else<T>(a: Option<T>, b: Option<T>) -> Option<T> {
    if a is Some {
        a
    } else {
        b
    }
}

pub open spec fn unwrap_or<T>(a: Option<T>, d: T) -> T {
    match a {
        Some(x) => x,
        None => d,
    }
}

/// The fixes of a correction entry.
pub open spec fn fixes_view(v: OneOrMany) -> Seq<Seq<char>> {
    match v {
        OneOrMany::One(s) => seq![s@],
        OneOrMany::Many(v) => v.deep_view(),
    }
}

/// Keys of an association list, in order.
pub open spec fn keys_of<V>(m: Seq<(String, V)>) -> Seq<Seq<char>> {
    m.map_values(|e: (String, V)| e.0@)
}

pub open spec fn words_view(m: Seq<(String, OneOrMany)>) -> Seq<(Seq<char>, Seq<Seq<char>>)> {
    m.map_values(|e: (String, OneOrMany)| (e.0@, fixes_view(e.1)))
}

pub open spec fn fixes_list_view(m: Seq<(String, Vec<String>)>) -> Seq<(Seq<char>, Seq<Seq<char>>)> {
    m.map_values(|e: (String, Vec<String>)| (e.0@, e.1.deep_view()))
}

pub open spec fn pairs_view(m: Seq<(String, String)>) -> Seq<(Seq<char>, Seq<char>)> {
    m.map_values(|e: (String, String)| (e.0@, e.1@))
}

pub open spec fn opt_str(o: Option<String>) -> Option<Seq<char>> {
    match o {
        Some(s) => Some(s@),
        None => None,
    }
}


/// Index of the first entry with key `k` at or after `i`, or the length.
pub open spec fn first_key<V>(m: Seq<(String, V)>, k: Seq<char>, i: int) -> int
    decreases m.len() - i,
{
    if i < 0 || i >= m.len() {
        m.len() as int
    } else if m[i].0@ == k {
        i
    } else {
        first_key(m, k, i + 1)
    }
}

/// Index of the first entry at or after `i` whose key comes after `k` in
/// character order, or the length.
pub open spec fn insert_pos<V>(m: Seq<(String, V)>, k: Seq<char>, i: int) -> int
    decreases m.len() - i,
{
    if i < 0 || i >= m.len() {
        m.len() as int
    } else if crate::dictionary::lex_lt(k, m[i].0@) {
        i
    } else {
        insert_pos(m, k, i + 1)
    }
}

/// Insert an entry into an association list kept in key order, as a sorted
/// map does: a present key keeps its place and takes the new value, a new
/// key goes before the first key after it.
pub open spec fn assoc_insert<V>(m: Seq<(String, V)>, k: String, v: V) -> Seq<(String, V)> {
    let i = first_key(m, k@, 0);
    if i < m.len() {
        m.update(i, (k, v))
    } else {
        m.insert(insert_pos(m, k@, 0), (k, v))
    }
}

/// Extend an association list with the entries of another, in order.
pub open spec fn assoc_extend<V>(m: Seq<(String, V)>, es: Seq<(String, V)>) -> Seq<(String, V)>
    decreases es.len(),
{
    if es.len() == 0 {
        m
    } else {
        assoc_insert(assoc_extend(m, es.drop_last()), es.last().0, es.last().1)
    }
}

proof fn lemma_first_key<V>(m: Seq<(String, V)>, k: Seq<char>, i: int)
    requires
        0 <= i <= m.len(),
    ensures
        i <= first_key(m, k, i) <= m.len(),
        first_key(m, k, i) < m.len() ==> m[first_key(m, k, i)].0@ == k,
    decreases m.len() - i,
{
    if i < m.len() && m[i].0@ != k {
        lemma_first_key(m, k, i + 1);
    }
}

/// The value an association list gives for key `k`: that of its first
/// entry with that key.
pub open spec fn assoc_get<V>(m: Seq<(String, V)>, k: Seq<char>) -> Option<V> {
    let i = first_key(m, k, 0);
    if 0 <= i < m.len() {
        Some(m[i].1)
    } else {
        None
    }
}

/// The value of the last entry with key `k` in `es`, if any.
pub open spec fn last_value<V>(es: Seq<(String, V)>, k: Seq<char>) -> Option<V>
    decreases es.len(),
{
    if es.len() == 0 {
        None
    } else if es.last().0@ == k {
        Some(es.last().1)
    } else {
        last_value(es.drop_last(), k)
    }
}

proof fn lemma_first_key_least<V>(m: Seq<(String, V)>, k: Seq<char>, i: int)
    requires
        0 <= i <= m.len(),
    ensures
        i <= first_key(m, k, i) <= m.len(),
        first_key(m, k, i) < m.len() ==> m[first_key(m, k, i)].0@ == k,
        forall|t: int| i <= t < first_key(m, k, i) ==> (#[trigger] m[t]).0@ != k,
    decreases m.len() - i,
{
    if i < m.len() && m[i].0@ != k {
        lemma_first_key_least(m, k, i + 1);
    }
}

proof fn lemma_first_key_is<V>(m: Seq<(String, V)>, k: Seq<char>, j: int)
    requires
        0 <= j <= m.len(),
        j < m.len() ==> m[j].0@ == k,
        forall|t: int| 0 <= t < j ==> (#[trigger] m[t]).0@ != k,
    ensures
        first_key(m, k, 0) == j,
{
    lemma_first_key_least(m, k, 0);
    let f = first_key(m, k, 0);
    if f < j {
        assert(m[f].0@ != k);
    }
    if f > j {
        assert(m[j].0@ != k);
    }
}

proof fn lemma_insert_pos_bounds<V>(m: Seq<(String, V)>, k: Seq<char>, i: int)
    requires
        0 <= i <= m.len(),
    ensures
        i <= insert_pos(m, k, i) <= m.len(),
    decreases m.len() - i,
{
    if i < m.len() && !crate::dictionary::lex_lt(k, m[i].0@) {
        lemma_insert_pos_bounds(m, k, i + 1);
    }
}

proof fn lemma_assoc_get_insert<V>(m: Seq<(String, V)>, k: String, v: V, k2: Seq<char>)
    ensures
        assoc_get(assoc_insert(m, k, v), k2) == (if k2 == k@ {
            Some(v)
        } else {
            assoc_get(m, k2)
        }),
{
    lemma_first_key_least(m, k@, 0);
    lemma_first_key_least(m, k2, 0);
    let r = assoc_insert(m, k, v);
    let i = first_key(m, k@, 0);
    let q = first_key(m, k2, 0);
    if i < m.len() {
        if k2 == k@ {
            lemma_first_key_is(r, k2, i);
        } else {
            assert forall|t: int| 0 <= t < q implies (#[trigger] r[t]).0@ != k2 by {
                assert(m[t].0@ != k2);
            }
            lemma_first_key_is(r, k2, q);
        }
    } else {
        let p = insert_pos(m, k@, 0);
        lemma_insert_pos_bounds(m, k@, 0);
        if k2 == k@ {
            assert forall|t: int| 0 <= t < p implies (#[trigger] r[t]).0@ != k2 by {
                assert(r[t] == m[t]);
            }
            lemma_first_key_is(r, k2, p);
        } else if q < m.len() {
            let q2 = if q < p { q } else { q + 1 };
            assert forall|t: int| 0 <= t < q2 implies (#[trigger] r[t]).0@ != k2 by {
                if t < p {
                    assert(r[t] == m[t]);
                } else if t > p {
                    assert(r[t] == m[t - 1]);
                }
            }
            lemma_first_key_is(r, k2, q2);
        } else {
            assert forall|t: int| 0 <= t < r.len() implies (#[trigger] r[t]).0@ != k2 by {
                if t < p {
                    assert(r[t] == m[t]);
                } else if t > p {
                    assert(r[t] == m[t - 1]);
                }
            }
            lemma_first_key_is(r, k2, r.len() as int);
        }
    }
}

/// Extending an association list: each key takes the value of the last
/// entry with that key among the new entries, and keeps its old value
/// where no new entry has it.
pub proof fn law_assoc_extend_newer_wins<V>(m: Seq<(String, V)>, es: Seq<(String, V)>, k: Seq<char>)
    ensures
        assoc_get(assoc_extend(m, es), k) == (if last_value(es, k) is Some {
            last_value(es, k)
        } else {
            assoc_get(m, k)
        }),
    decreases es.len(),
{
    if es.len() > 0 {
        law_assoc_extend_newer_wins(m, es.drop_last(), k);
        lemma_assoc_get_insert(assoc_extend(m, es.drop_last()), es.last().0, es.last().1, k);
    }
}

fn assoc_insert_exec<V>(m: &mut Vec<(String, V)>, k: String, v: V)
    ensures
        final(m)@ == assoc_insert(old(m)@, k, v),
{
    let mut i: usize = 0;
    while i < m.len() && !(m[i].0 == k)
        invariant
            0 <= i <= m@.len(),
            m@ == old(m)@,
            first_key(m@, k@, 0) == first_key(m@, k@, i as int),
        decreases m@.len() - i,
    {
        i += 1;
    }
    if i < m.len() {
        m.set(i, (k, v));
    } else {
        let mut p: usize = 0;
        while p < m.len() && !(crate::registry_lock::lex_le_exec(&k, &m[p].0) && !str_eq(k.as_str(), m[p].0.as_str()))
            invariant
                0 <= p <= m@.len(),
                m@ == old(m)@,
                insert_pos(m@, k@, 0) == insert_pos(m@, k@, p as int),
            decreases m@.len() - p,
        {
            p += 1;
        }
        m.insert(p, (k, v));
    }
}

fn assoc_extend_exec<V>(m: &mut Vec<(String, V)>, es: Vec<(String, V)>)
    ensures
        final(m)@ == assoc_extend(old(m)@, es@),
{
    let ghost orig = es@;
    let mut es = es;
    let mut k: usize = 0;
    let n = es.len();
    while es.len() > 0
        invariant
            n == orig.len(),
            k + es@.len() == n,
            es@ == orig.skip(k as int),
            m@ == assoc_extend(old(m)@, orig.take(k as int)),
        decreases es@.len(),
    {
        let e = es.remove(0);
        proof {
            assert(orig.take(k + 1).drop_last() =~= orig.take(k as int));
            assert(orig.take(k + 1).last() == e);
            assert(es@ =~= orig.skip(k + 1));
        }
        assoc_insert_exec(m, e.0, e.1);
        k += 1;
    }
    assert(orig.take(n as int) =~= orig);
}

fn pick<T>(a: Option<T>, b: Option<T>) -> (r: Option<T>)
    ensures
        r == or_else(a, b),
{
    match a {
        Some(x) => Some(x),
        None => b,
    }
}

impl OneOrMany {
    pub fn into_vec(self) -> (r: Vec<String>)
        ensures
            r.deep_view() == fixes_view(self),
    {
        match self {
            OneOrMany::One(s) => {
                let mut v: Vec<String> = Vec::new();
                v.push(s);
                assert(v.deep_view() =~= seq![s@]);
                v
            },
            OneOrMany::Many(v) => v,
        }
    }
}

/// What an empty configuration file gives.
pub open spec fn is_empty_raw(r: RawConfig) -> bool {
    &&& r.check.mode is None && r.check.locale is None && r.check.profile is None
    &&& r.check.min_word_len is None && r.check.max_token_len is None
    &&& r.files.exclude@.len() == 0 && r.files.include_hidden is None && r.files.max_file_size is None
    &&& r.words.project is None && r.words.ignore@.len() == 0 && r.words.dictionaries@.len() == 0
    &&& r.corrections.builtin is None && r.corrections.extra@.len() == 0 && r.corrections.words@.len() == 0
    &&& r.japanese.enabled is None && r.japanese.katakana_style is None
    &&& r.japanese.variants@.len() == 0 && r.japanese.variant_files@.len() == 0
    &&& r.japanese.flag_fullwidth_alnum is None && r.japanese.flag_halfwidth_kana is None
    &&& r.japanese.flag_compatibility is None && r.japanese.kanji_consistency is None
    &&& r.japanese.number_consistency is None && r.japanese.punctuation_consistency is None
    &&& r.japanese.fullwidth_space is None
    &&& r.overrides@.len() == 0
}

impl Default for RawConfig {
    fn default() -> (r: Self)
        ensures
            is_empty_raw(r),
    {
        RawConfig {
            check: RawCheck {
                mode: None,
                locale: None,
                profile: None,
                min_word_len: None,
                max_token_len: None,
            },
            files: RawFiles { exclude: Vec::new(), include_hidden: None, max_file_size: None },
            words: RawWords { project: None, ignore: Vec::new(), dictionaries: Vec::new() },
            corrections: RawCorrections { builtin: None, extra: Vec::new(), words: Vec::new() },
            japanese: RawJapanese {
                enabled: None,
                katakana_style: None,
                variants: Vec::new(),
                variant_files: Vec::new(),
                flag_fullwidth_alnum: None,
                flag_halfwidth_kana: None,
                flag_compatibility: None,
                kanji_consistency: None,
                number_consistency: None,
                punctuation_consistency: None,
                fullwidth_space: None,
            },
            overrides: Vec::new(),
        }
    }
}

/// Overlaying `o` onto `s`: scalars from `o` win, lists are concatenated,
/// maps are extended with `o`'s entries.
pub open spec fn merged(s: RawConfig, o: RawConfig, r: RawConfig) -> bool {
    &&& r.check.mode == or_else(o.check.mode, s.check.mode)
    &&& r.check.locale == or_else(o.check.locale, s.check.locale)
    &&& r.check.profile == or_else(o.check.profile, s.check.profile)
    &&& r.check.min_word_len == or_else(o.check.min_word_len, s.check.min_word_len)
    &&& r.check.max_token_len == or_else(o.check.max_token_len, s.check.max_token_len)
    &&& r.files.exclude@ == s.files.exclude@ + o.files.exclude@
    &&& r.files.include_hidden == or_else(o.files.include_hidden, s.files.include_hidden)
    &&& r.files.max_file_size == or_else(o.files.max_file_size, s.files.max_file_size)
    &&& r.words.project == or_else(o.words.project, s.words.project)
    &&& r.words.ignore@ == s.words.ignore@ + o.words.ignore@
    &&& r.words.dictionaries@ == s.words.dictionaries@ + o.words.dictionaries@
    &&& r.corrections.builtin == or_else(o.corrections.builtin, s.corrections.builtin)
    &&& r.corrections.extra@ == s.corrections.extra@ + o.corrections.extra@
    &&& r.corrections.words@ == assoc_extend(s.corrections.words@, o.corrections.words@)
    &&& r.japanese.enabled == or_else(o.japanese.enabled, s.japanese.enabled)
    &&& r.japanese.katakana_style == or_else(o.japanese.katakana_style, s.japanese.katakana_style)
    &&& r.japanese.variants@ == assoc_extend(s.japanese.variants@, o.japanese.variants@)
    &&& r.japanese.variant_files@ == s.japanese.variant_files@ + o.japanese.variant_files@
    &&& r.japanese.flag_fullwidth_alnum == or_else(o.japanese.flag_fullwidth_alnum, s.japanese.flag_fullwidth_alnum)
    &&& r.japanese.flag_halfwidth_kana == or_else(o.japanese.flag_halfwidth_kana, s.japanese.flag_halfwidth_kana)
    &&& r.japanese.flag_compatibility == or_else(o.japanese.flag_compatibility, s.japanese.flag_compatibility)
    &&& r.japanese.kanji_consistency == or_else(o.japanese.kanji_consistency, s.japanese.kanji_consistency)
    &&& r.japanese.number_consistency == or_else(o.japanese.number_consistency, s.japanese.number_consistency)
    &&& r.japanese.punctuation_consistency == or_else(
        o.japanese.punctuation_consistency,
        s.japanese.punctuation_consistency,
    )
    &&& r.japanese.fullwidth_space == or_else(o.japanese.fullwidth_space, s.japanese.fullwidth_space)
    &&& r.overrides@ == s.overrides@ + o.overrides@
}

/// Merging layers: every scalar setting of the merged configuration is the
/// higher-priority layer's where that layer sets it, and the lower layer's
/// otherwise; every list is the lower layer's followed by the higher one's;
/// in each map a key takes the higher layer's value where it has one.
pub proof fn law_merge_higher_layer_wins(s: RawConfig, o: RawConfig, r: RawConfig)
    requires
        merged(s, o, r),
    ensures
        r.check.mode == (if o.check.mode is Some { o.check.mode } else { s.check.mode }),
        r.check.locale == (if o.check.locale is Some { o.check.locale } else { s.check.locale }),
        r.check.profile == (if o.check.profile is Some { o.check.profile } else { s.check.profile }),
        r.check.min_word_len == (if o.check.min_word_len is Some {
            o.check.min_word_len
        } else {
            s.check.min_word_len
        }),
        r.check.max_token_len == (if o.check.max_token_len is Some {
            o.check.max_token_len
        } else {
            s.check.max_token_len
        }),
        r.files.include_hidden == (if o.files.include_hidden is Some {
            o.files.include_hidden
        } else {
            s.files.include_hidden
        }),
        r.files.max_file_size == (if o.files.max_file_size is Some {
            o.files.max_file_size
        } else {
            s.files.max_file_size
        }),
        r.words.project == (if o.words.project is Some { o.words.project } else { s.words.project }),
        r.corrections.builtin == (if o.corrections.builtin is Some {
            o.corrections.builtin
        } else {
            s.corrections.builtin
        }),
        r.japanese.enabled == (if o.japanese.enabled is Some { o.japanese.enabled } else { s.japanese.enabled }),
        r.japanese.katakana_style == (if o.japanese.katakana_style is Some {
            o.japanese.katakana_style
        } else {
            s.japanese.katakana_style
        }),
        r.japanese.flag_fullwidth_alnum == (if o.japanese.flag_fullwidth_alnum is Some {
            o.japanese.flag_fullwidth_alnum
        } else {
            s.japanese.flag_fullwidth_alnum
        }),
        r.japanese.flag_halfwidth_kana == (if o.japanese.flag_halfwidth_kana is Some {
            o.japanese.flag_halfwidth_kana
        } else {
            s.japanese.flag_halfwidth_kana
        }),
        r.japanese.flag_compatibility == (if o.japanese.flag_compatibility is Some {
            o.japanese.flag_compatibility
        } else {
            s.japanese.flag_compatibility
        }),
        r.japanese.kanji_consistency == (if o.japanese.kanji_consistency is Some {
            o.japanese.kanji_consistency
        } else {
            s.japanese.kanji_consistency
        }),
        r.japanese.number_consistency == (if o.japanese.number_consistency is Some {
            o.japanese.number_consistency
        } else {
            s.japanese.number_consistency
        }),
        r.japanese.punctuation_consistency == (if o.japanese.punctuation_consistency is Some {
            o.japanese.punctuation_consistency
        } else {
            s.japanese.punctuation_consistency
        }),
        r.japanese.fullwidth_space == (if o.japanese.fullwidth_space is Some {
            o.japanese.fullwidth_space
        } else {
            s.japanese.fullwidth_space
        }),
        r.files.exclude@ == s.files.exclude@ + o.files.exclude@,
        r.words.ignore@ == s.words.ignore@ + o.words.ignore@,
        r.words.dictionaries@ == s.words.dictionaries@ + o.words.dictionaries@,
        r.corrections.extra@ == s.corrections.extra@ + o.corrections.extra@,
        r.japanese.variant_files@ == s.japanese.variant_files@ + o.japanese.variant_files@,
        r.overrides@ == s.overrides@ + o.overrides@,
        forall|k: Seq<char>|
            #[trigger] assoc_get(r.corrections.words@, k) == (if last_value(o.corrections.words@, k) is Some {
                last_value(o.corrections.words@, k)
            } else {
                assoc_get(s.corrections.words@, k)
            }),
        forall|k: Seq<char>|
            #[trigger] assoc_get(r.japanese.variants@, k) == (if last_value(o.japanese.variants@, k) is Some {
                last_value(o.japanese.variants@, k)
            } else {
                assoc_get(s.japanese.variants@, k)
            }),
{
    assert forall|k: Seq<char>|
        #[trigger] assoc_get(r.corrections.words@, k) == (if last_value(o.corrections.words@, k) is Some {
            last_value(o.corrections.words@, k)
        } else {
            assoc_get(s.corrections.words@, k)
        }) by {
        law_assoc_extend_newer_wins(s.corrections.words@, o.corrections.words@, k);
    }
    assert forall|k: Seq<char>|
        #[trigger] assoc_get(r.japanese.variants@, k) == (if last_value(o.japanese.variants@, k) is Some {
            last_value(o.japanese.variants@, k)
        } else {
            assoc_get(s.japanese.variants@, k)
        }) by {
        law_assoc_extend_newer_wins(s.japanese.variants@, o.japanese.variants@, k);
    }
}

impl RawConfig {
    /// Overlay `other` (higher priority) onto `self`. Scalars are replaced,
    /// lists and maps are extended.
    pub fn merge(self, other: RawConfig) -> (r: RawConfig)
        ensures
            merged(self, other, r),
    {
        let ghost s0 = self;
        let ghost o0 = other;
        let mut s = self;
        let mut o = other;
        s.check.mode = pick(o.check.mode, s.check.mode);
        s.check.locale = pick(o.check.locale, s.check.locale);
        s.check.profile = pick(o.check.profile, s.check.profile);
        s.check.min_word_len = pick(o.check.min_word_len, s.check.min_word_len);
        s.check.max_token_len = pick(o.check.max_token_len, s.check.max_token_len);

        s.files.exclude.append(&mut o.files.exclude);
        s.files.include_hidden = pick(o.files.include_hidden, s.files.include_hidden);
        s.files.max_file_size = pick(o.files.max_file_size, s.files.max_file_size);

        s.words.project = pick(o.words.project, s.words.project);
        s.words.ignore.append(&mut o.words.ignore);
        s.words.dictionaries.append(&mut o.words.dictionaries);

        s.corrections.builtin = pick(o.corrections.builtin, s.corrections.builtin);
        s.corrections.extra.append(&mut o.corrections.extra);
        assoc_extend_exec(&mut s.corrections.words, o.corrections.words);

        s.japanese.enabled = pick(o.japanese.enabled, s.japanese.enabled);
        s.japanese.katakana_style = pick(o.japanese.katakana_style, s.japanese.katakana_style);
        assoc_extend_exec(&mut s.japanese.variants, o.japanese.variants);
        s.japanese.variant_files.append(&mut o.japanese.variant_files);
        s.japanese.flag_fullwidth_alnum = pick(o.japanese.flag_fullwidth_alnum, s.japanese.flag_fullwidth_alnum);
        s.japanese.flag_halfwidth_kana = pick(o.japanese.flag_halfwidth_kana, s.japanese.flag_halfwidth_kana);
        s.japanese.flag_compatibility = pick(o.japanese.flag_compatibility, s.japanese.flag_compatibility);
        s.japanese.kanji_consistency = pick(o.japanese.kanji_consistency, s.japanese.kanji_consistency);
        s.japanese.number_consistency = pick(o.japanese.number_consistency, s.japanese.number_consistency);
        s.japanese.punctuation_consistency = pick(
            o.japanese.punctuation_consistency,
            s.japanese.punctuation_consistency,
        );
        s.japanese.fullwidth_space = pick(o.japanese.fullwidth_space, s.japanese.fullwidth_space);

        s.overrides.append(&mut o.overrides);
        s
    }
}


/// Globs excluded in every project on top of `.gitignore`: machine-written
/// files whose "words" are package names and minified identifiers.
pub open spec fn default_excludes() -> Seq<Seq<char>> {
    seq![
        "*.lock"@,
        "*.sum"@,
        "package-lock.json"@,
        "pnpm-lock.yaml"@,
        "yarn.lock"@,
        "*.min.js"@,
        "*.min.css"@,
    ]
}

fn default_excludes_vec() -> (r: Vec<String>)
    ensures
        r.deep_view() == default_excludes(),
{
    let mut r: Vec<String> = Vec::new();
    r.push(to_owned("*.lock"));
    r.push(to_owned("*.sum"));
    r.push(to_owned("package-lock.json"));
    r.push(to_owned("pnpm-lock.yaml"));
    r.push(to_owned("yarn.lock"));
    r.push(to_owned("*.min.js"));
    r.push(to_owned("*.min.css"));
    assert(r.deep_view() =~= default_excludes());
    r
}

/// Unicode lowercase mapping (std's `str::to_lowercase`).
pub uninterp spec fn unicode_lowercase(s: Seq<char>) -> Seq<char>;

/// `str::to_lowercase`; its result is named.
#[verifier::external_body]
pub(crate) fn lowercase(s: &str) -> (r: String)
    ensures
        r@ == unicode_lowercase(s@),
{
    s.to_lowercase()
}

/// The effective configuration of a raw one: every absent setting takes
/// its default.
pub open spec fn finalized(s: RawConfig, c: Config) -> bool {
    &&& c.check.mode == unwrap_or(s.check.mode, Mode::Corrections)
    &&& c.check.locale == unwrap_or(s.check.locale, EnglishLocale::Any)
    &&& c.check.profile == unwrap_or(s.check.profile, SyntaxProfile::All)
    &&& c.check.min_word_len == unwrap_or(s.check.min_word_len, 3)
    &&& c.check.max_token_len == unwrap_or(s.check.max_token_len, 40)
    &&& c.files.exclude.deep_view() == default_excludes() + s.files.exclude.deep_view()
    &&& c.files.include_hidden == unwrap_or(s.files.include_hidden, false)
    &&& c.files.max_file_size == unwrap_or(s.files.max_file_size, 0)
    &&& c.words.project@ == match s.words.project {
        Some(p) => p@,
        None => "ayame-words.txt"@,
    }
    &&& c.words.ignore.deep_view() == s.words.ignore.deep_view().map_values(
        |w: Seq<char>| unicode_lowercase(w),
    )
    &&& c.words.dictionaries@ == s.words.dictionaries@
    &&& c.corrections.builtin == unwrap_or(s.corrections.builtin, true)
    &&& c.corrections.extra@ == s.corrections.extra@
    &&& fixes_list_view(c.corrections.words@) == words_view(s.corrections.words@)
    &&& c.japanese.enabled == unwrap_or(s.japanese.enabled, true)
    &&& c.japanese.katakana_style == unwrap_or(s.japanese.katakana_style, KatakanaStyleConfig::Consistency)
    &&& c.japanese.variants@ == s.japanese.variants@
    &&& c.japanese.variant_files@ == s.japanese.variant_files@
    &&& c.japanese.flag_fullwidth_alnum == unwrap_or(s.japanese.flag_fullwidth_alnum, true)
    &&& c.japanese.flag_halfwidth_kana == unwrap_or(s.japanese.flag_halfwidth_kana, true)
    &&& c.japanese.flag_compatibility == unwrap_or(s.japanese.flag_compatibility, true)
    &&& c.japanese.kanji_consistency == unwrap_or(s.japanese.kanji_consistency, true)
    &&& c.japanese.number_consistency == unwrap_or(s.japanese.number_consistency, true)
    &&& c.japanese.punctuation_consistency == unwrap_or(s.japanese.punctuation_consistency, true)
    &&& c.japanese.fullwidth_space == unwrap_or(s.japanese.fullwidth_space, SpacePolicyConfig::Code)
    &&& c.overrides@ == s.overrides@
}

/// The configuration used when no file sets anything.
pub open spec fn is_default_config(c: Config) -> bool {
    &&& c.check.mode == Mode::Corrections
    &&& c.check.locale == EnglishLocale::Any
    &&& c.check.profile == SyntaxProfile::All
    &&& c.check.min_word_len == 3
    &&& c.check.max_token_len == 40
    &&& c.files.exclude.deep_view() == default_excludes()
    &&& !c.files.include_hidden
    &&& c.files.max_file_size == 0
    &&& c.words.project@ == "ayame-words.txt"@
    &&& c.words.ignore@.len() == 0
    &&& c.words.dictionaries@.len() == 0
    &&& c.corrections.builtin
    &&& c.corrections.extra@.len() == 0
    &&& c.corrections.words@.len() == 0
    &&& c.japanese.enabled
    &&& c.japanese.katakana_style == KatakanaStyleConfig::Consistency
    &&& c.japanese.variants@.len() == 0
    &&& c.japanese.variant_files@.len() == 0
    &&& c.japanese.flag_fullwidth_alnum && c.japanese.flag_halfwidth_kana
    &&& c.japanese.flag_compatibility
    &&& c.japanese.kanji_consistency && c.japanese.number_consistency
    &&& c.japanese.punctuation_consistency
    &&& c.japanese.fullwidth_space == SpacePolicyConfig::Code
    &&& c.overrides@.len() == 0
}

/// Finalizing a configuration in which nothing is set gives the defaults.
pub proof fn law_empty_finalizes_to_defaults(s: RawConfig, c: Config)
    requires
        is_empty_raw(s),
        finalized(s, c),
    ensures
        is_default_config(c),
{
    assert(s.files.exclude.deep_view() =~= Seq::<Seq<char>>::empty());
    assert(default_excludes() + s.files.exclude.deep_view() =~= default_excludes());
    assert(c.words.ignore.deep_view().len() == 0);
    assert(fixes_list_view(c.corrections.words@).len() == 0);
}

fn lowercase_all(v: Vec<String>) -> (r: Vec<String>)
    ensures
        r.deep_view() == v.deep_view().map_values(|w: Seq<char>| unicode_lowercase(w)),
{
    let mut r: Vec<String> = Vec::new();
    let mut i: usize = 0;
    while i < v.len()
        invariant
            0 <= i <= v@.len(),
            r.deep_view() == v.deep_view().take(i as int).map_values(|w: Seq<char>| unicode_lowercase(w)),
        decreases v@.len() - i,
    {
        let w = lowercase(v[i].as_str());
        let ghost before = r.deep_view();
        r.push(w);
        proof {
            assert(r.deep_view() =~= before.push(w@));
            assert(v.deep_view().take(i + 1) =~= v.deep_view().take(i as int).push(v@[i as int]@));
            assert(r.deep_view() =~= v.deep_view().take(i + 1).map_values(|w: Seq<char>| unicode_lowercase(w)));
        }
        i += 1;
    }
    assert(v.deep_view().take(v@.len() as int) =~= v.deep_view());
    r
}

fn finalize_words(words: Vec<(String, OneOrMany)>) -> (r: Vec<(String, Vec<String>)>)
    ensures
        fixes_list_view(r@) == words_view(words@),
{
    let ghost orig = words@;
    let mut words = words;
    let mut r: Vec<(String, Vec<String>)> = Vec::new();
    let mut k: usize = 0;
    let n = words.len();
    while words.len() > 0
        invariant
            n == orig.len(),
            k + words@.len() == n,
            words@ == orig.skip(k as int),
            fixes_list_view(r@) == words_view(orig.take(k as int)),
        decreases words@.len(),
    {
        let (key, fixes) = words.remove(0);
        let ghost before = r@;
        let v = fixes.into_vec();
        r.push((key, v));
        proof {
            assert(orig[k as int] == (key, fixes));
            assert(fixes_list_view(r@) =~= fixes_list_view(before).push((key@, v.deep_view())));
            assert(words_view(orig.take(k + 1)) =~= words_view(orig.take(k as int)).push((key@, fixes_view(fixes))));
            assert(words@ =~= orig.skip(k + 1));
        }
        k += 1;
    }
    assert(orig.take(n as int) =~= orig);
    r
}

fn unwrap_opt<T>(a: Option<T>, d: T) -> (r: T)
    ensures
        r == unwrap_or(a, d),
{
    match a {
        Some(x) => x,
        None => d,
    }
}

impl RawConfig {
    pub fn finalize(self) -> (c: Config)
        ensures
            finalized(self, c),
    {
        let ghost s0 = self;
        let s = self;
        let ignore = lowercase_all(s.words.ignore);
        let mut exclude = default_excludes_vec();
        let ghost d = exclude.deep_view();
        let mut extra = s.files.exclude;
        let ghost e = extra.deep_view();
        exclude.append(&mut extra);
        assert(exclude.deep_view() =~= d + e);
        let project = match s.words.project {
            Some(p) => p,
            None => to_owned("ayame-words.txt"),
        };
        Config {
            check: CheckConfig {
                mode: unwrap_opt(s.check.mode, Mode::Corrections),
                locale: unwrap_opt(s.check.locale, EnglishLocale::Any),
                profile: unwrap_opt(s.check.profile, SyntaxProfile::All),
                min_word_len: unwrap_opt(s.check.min_word_len, 3),
                max_token_len: unwrap_opt(s.check.max_token_len, 40),
            },
            files: FilesConfig {
                exclude,
                include_hidden: unwrap_opt(s.files.include_hidden, false),
                max_file_size: unwrap_opt(s.files.max_file_size, 0),
            },
            words: WordsConfig { project, ignore, dictionaries: s.words.dictionaries },
            corrections: CorrectionsConfig {
                builtin: unwrap_opt(s.corrections.builtin, true),
                extra: s.corrections.extra,
                words: finalize_words(s.corrections.words),
            },
            japanese: JapaneseConfig {
                enabled: unwrap_opt(s.japanese.enabled, true),
                katakana_style: unwrap_opt(s.japanese.katakana_style, KatakanaStyleConfig::Consistency),
                variants: s.japanese.variants,
                variant_files: s.japanese.variant_files,
                flag_fullwidth_alnum: unwrap_opt(s.japanese.flag_fullwidth_alnum, true),
                flag_halfwidth_kana: unwrap_opt(s.japanese.flag_halfwidth_kana, true),
                flag_compatibility: unwrap_opt(s.japanese.flag_compatibility, true),
                kanji_consistency: unwrap_opt(s.japanese.kanji_consistency, true),
                number_consistency: unwrap_opt(s.japanese.number_consistency, true),
                punctuation_consistency: unwrap_opt(s.japanese.punctuation_consistency, true),
                fullwidth_space: unwrap_opt(s.japanese.fullwidth_space, SpacePolicyConfig::Code),
            },
            overrides: s.overrides,
        }
    }
}

/// A discovered and merged configuration.
#[derive(Debug, Clone)]
pub struct LoadedConfig {
    pub config: Config,
    /// Project root: the directory holding the config file, else the
    /// nearest `.git` ancestor, else the start directory.
    pub root: String,
    pub project_file: Option<String>,
    pub global_file: Option<String>,
}

/// Defaults with no config files at all, rooted at `root`.
pub fn defaults(root: &str) -> (r: LoadedConfig)
    ensures
        is_default_config(r.config),
        r.root@ == root@,
        r.project_file is None,
        r.global_file is None,
{
    let raw = RawConfig::default();
    let ghost s = raw;
    let config = raw.finalize();
    proof {
        law_empty_finalizes_to_defaults(s, config);
    }
    LoadedConfig { config, root: to_owned(root), project_file: None, global_file: None }
}

/// Where the configuration comes from, as selected on the command line.
#[derive(Debug, Clone, PartialEq, Eq)]
pub enum ConfigSelection {
    /// Load exactly this file.
    Explicit(String),
    /// Ignore every configuration file.
    Defaults,
    /// Discover the project file and merge it over the global one.
    Discover,
}

/// Select how configuration is loaded: `explicit` loads exactly that file,
/// `no_config` ignores both project and global files, otherwise files are
/// discovered. Both together are refused.
pub fn discover_selected(explicit: Option<&str>, no_config: bool) -> (r: Result<ConfigSelection, String>)
    ensures
        match r {
            Ok(ConfigSelection::Explicit(p)) => explicit is Some && explicit->0@ == p@ && !no_config,
            Ok(ConfigSelection::Defaults) => explicit is None && no_config,
            Ok(ConfigSelection::Discover) => explicit is None && !no_config,
            Err(e) => explicit is Some && no_config && e@ == "--config and --no-config cannot be used together"@,
        },
{
    match explicit {
        Some(path) => {
            if no_config {
                Err(to_owned("--config and --no-config cannot be used together"))
            } else {
                Ok(ConfigSelection::Explicit(to_owned(path)))
            }
        },
        None => if no_config {
            Ok(ConfigSelection::Defaults)
        } else {
            Ok(ConfigSelection::Discover)
        },
    }
}


/// A resolved dictionary or corrections reference: where the file is and,
/// for a locked registry dictionary, the checksum it must have.
pub struct ResolvedPath {
    pub path: String,
    pub sha256: Option<String>,
}

impl LoadedConfig {
    /// Resolve a dictionary/corrections reference to a path: `registry:`
    /// references through the lock and the cache root, other references
    /// relative to the project root unless absolute.
    pub fn resolve_ref(
        &self,
        reference: &str,
        lock: &RegistryLock,
        cache_root: Option<&str>,
    ) -> (r: Result<ResolvedPath, String>)
        ensures
            match spec_strip_prefix(reference@, "registry:"@) {
                Some(name) => match r {
                    Ok(p) => {
                        let (n, req) = spec_split_reference(name);
                        let locked = locked_entry(lock.dictionaries@, n, req);
                        &&& n.len() > 0
                        &&& req != Some(Seq::<char>::empty())
                        &&& cache_root is Some
                        &&& opt_view(p.sha256) == match locked {
                            Some(d) => Some(d.sha256@),
                            None => None,
                        }
                        &&& cache_root is Some && plain_base(cache_root->0@) && plain_name(
                            release_key(n, release_version(lock.dictionaries@, n, req)),
                        ) ==> cache_file_at(
                            cache_root->0@,
                            release_key(n, release_version(lock.dictionaries@, n, req)),
                            p.path@,
                        )
                    },
                    Err(e) => {
                        let (n, req) = spec_split_reference(name);
                        n.len() == 0 || req == Some(Seq::<char>::empty()) || cache_root is None
                    },
                },
                None => r is Ok && r->Ok_0.sha256 is None && (rel_path(reference@) && plain_base(
                    self.root@,
                ) ==> joined(self.root@, reference@, r->Ok_0.path@)) && (rel_path(reference@)
                    && self.root@.len() == 0 ==> r->Ok_0.path@ == reference@),
            },
    {
        match strip_prefix(reference, "registry:") {
            Some(name) => {
                let resolved = resolve(lock, cache_root, name);
                match resolved {
                    Ok(res) => Ok(ResolvedPath { path: res.path, sha256: res.sha256 }),
                    Err(e) => Err(e),
                }
            },
            None => {
                let path = if is_absolute_path(reference) {
                    to_owned(reference)
                } else {
                    join_path(self.root.as_str(), reference)
                };
                Ok(ResolvedPath { path, sha256: None })
            },
        }
    }

    /// Absolute path of the project word file: the configured path, joined
    /// to the project root unless it is absolute.
    pub fn project_words_path(&self) -> (r: String)
        ensures
            rel_path(self.config.words.project@) && plain_base(self.root@) ==> joined(
                self.root@,
                self.config.words.project@,
                r@,
            ),
            rel_path(self.config.words.project@) && self.root@.len() == 0 ==> r@
                == self.config.words.project@,
    {
        let p = self.config.words.project.as_str();
        if is_absolute_path(p) {
            to_owned(p)
        } else {
            join_path(self.root.as_str(), p)
        }
    }
}

} // verus!
