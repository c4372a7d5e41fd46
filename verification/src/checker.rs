//! The orchestrating checker: applies configuration, runs the tokenizer,
//! correction tables, wordlist dictionaries and Japanese checks over a
//! text, and returns [`Issue`]s.
//!
//! Files named by the configuration (correction tables, wordlists, word
//! files, variant-rule files) are read by the caller and handed in with
//! the `add_*` methods.
use vstd::prelude::*;
use vstd::hash_map::StringHashMap;

use crate::config::{lowercase, unicode_lowercase, Config, EnglishLocale, Mode, SyntaxProfile};
use crate::corrections::{spec_check, Corrections, CorrectionsView, Verdict, VerdictView};
use crate::dictionary::{list_words, WordSets};
use crate::issue::{Issue, IssueKind, IssueView};
use crate::japanese::{
    issue_views, pairs_map, rules_compile, JapaneseChecker, JapaneseOptions, RuleEntry,
};
use crate::text::{
    chars_of, lines, parse_tab_pairs, push_str, slice_range, split_lines, str_eq,
    string_from_chars, tab_pairs, to_owned, trim, trim_bounds,
};
use crate::text::{byte_len, byte_offset, lemma_offset_mono};
use crate::text::{byte_offsets, find_char, find_char_from, lemma_find_char_from, str_byte_len, substr};
use crate::japanese::{
    consistency_issues, lemma_nl_count, line_issues, line_occurrences, nl_count, occ_views, spec_consistency_issues,
    spec_document_issues, KatakanaOcc, KatakanaStyle,
};
use vstd::utf8::encode_utf8;
use crate::spans::{
    all_occ, all_span, lemma_concat, lemma_concat_occ, lemma_consistency_spans,
    lemma_document_spans, lemma_findings_span, lemma_shapes_span, lemma_unshape, rules_span,
    spans, spans_at,
};
use crate::syntax::{blank_of_width, masked_text, masks};
use crate::text::spec_width;
use crate::tokenizer::{
    ascii_lowercase, is_upper, lemma_line_words_bounds, line_words, lower_seq, match_case,
    spec_match_case, upper, words_in_line, TokenizerOptions,
};

verus! {

/// English spellings that differ between en-US and en-GB: `us<TAB>gb`.
pub const EN_VARIANTS: &'static str = "# en-US\ten-GB
analyze\tanalyse
apologize\tapologise
behavior\tbehaviour
canceled\tcancelled
catalog\tcatalogue
center\tcentre
color\tcolour
customize\tcustomise
defense\tdefence
favor\tfavour
favorite\tfavourite
fiber\tfibre
flavor\tflavour
gray\tgrey
honor\thonour
initialize\tinitialise
labeled\tlabelled
labor\tlabour
modeling\tmodelling
neighbor\tneighbour
normalize\tnormalise
optimize\toptimise
organize\torganise
realize\trealise
recognize\trecognise
serialize\tserialise
theater\ttheatre
traveled\ttravelled
";

/// The (en-US, en-GB) spelling pairs.
pub open spec fn en_pairs() -> Seq<(Seq<char>, Seq<char>)> {
    tab_pairs(split_lines(EN_VARIANTS@))
}

/// Spellings of the other locale mapped to the configured locale's.
pub open spec fn spec_english_variants(locale: EnglishLocale) -> Map<Seq<char>, Seq<char>> {
    match locale {
        EnglishLocale::Any => Map::empty(),
        EnglishLocale::EnUs => pairs_map(en_pairs(), false),
        EnglishLocale::EnGb => pairs_map(en_pairs(), true),
    }
}

pub open spec fn string_map_view(m: Map<Seq<char>, String>) -> Map<Seq<char>, Seq<char>> {
    m.map_values(|v: String| v@)
}

/// The spelling pairs of the other locale: en-GB spellings for en-US, and
/// the reverse; nothing for `any`.
pub fn english_variants(locale: EnglishLocale) -> (r: StringHashMap<String>)
    ensures
        string_map_view(r@) == spec_english_variants(locale),
{
    let mut m: StringHashMap<String> = StringHashMap::new();
    if locale == EnglishLocale::Any {
        assert(string_map_view(m@) =~= Map::<Seq<char>, Seq<char>>::empty());
        return m;
    }
    let gb = locale == EnglishLocale::EnGb;
    let text = chars_of(EN_VARIANTS);
    let ps = parse_tab_pairs(&text);
    let mut i: usize = 0;
    assert(en_pairs().take(0) =~= Seq::<(Seq<char>, Seq<char>)>::empty());
    assert(string_map_view(m@) =~= Map::<Seq<char>, Seq<char>>::empty());
    while i < ps.len()
        invariant
            0 <= i <= ps@.len(),
            ps@.len() == en_pairs().len(),
            forall|k: int|
                0 <= k < ps@.len() ==> (#[trigger] ps@[k]).0@ == en_pairs()[k].0 && ps@[k].1@
                    == en_pairs()[k].1,
            string_map_view(m@) == pairs_map(en_pairs().take(i as int), gb),
        decreases ps@.len() - i,
    {
        let us_form = string_from_chars(&ps[i].0);
        let gb_form = string_from_chars(&ps[i].1);
        if gb {
            m.insert(us_form, gb_form);
        } else {
            m.insert(gb_form, us_form);
        }
        proof {
            let t = en_pairs().take(i + 1);
            assert(t.drop_last() =~= en_pairs().take(i as int));
            assert(string_map_view(m@) =~= pairs_map(t, gb));
        }
        i += 1;
    }
    assert(en_pairs().take(ps@.len() as int) =~= en_pairs());
    m
}

/// The warning for a configured dictionary whose file is missing.
pub fn missing_ref(reference: &str, path: &str) -> (r: String)
    ensures
        r@ == match crate::text::spec_strip_prefix(reference@, "registry:"@) {
            Some(name) => "dictionary `"@ + reference@ + "` is not installed (expected "@ + path@
                + "); run `ayame-spell dict add "@ + name + "`"@,
            None => "dictionary file not found: "@ + path@,
        },
{
    match crate::text::strip_prefix(reference, "registry:") {
        Some(name) => {
            let mut s = to_owned("dictionary `");
            push_str(&mut s, reference);
            push_str(&mut s, "` is not installed (expected ");
            push_str(&mut s, path);
            push_str(&mut s, "); run `ayame-spell dict add ");
            push_str(&mut s, name);
            push_str(&mut s, "`");
            s
        },
        None => {
            let mut s = to_owned("dictionary file not found: ");
            push_str(&mut s, path);
            s
        },
    }
}

/// Whether a glob compiles (`globset::GlobBuilder` with `literal_separator`
/// off); an error carries the crate's message.
pub uninterp spec fn glob_compile(pattern: Seq<char>) -> Result<(), Seq<char>>;

/// `globset::GlobBuilder::new(pattern).literal_separator(false).build()`.
/// Claims that `Ok` comes exactly when the glob compiles, and the error
/// text otherwise.
#[verifier::external_body]
fn glob_check(pattern: &str) -> (r: Result<(), String>)
    ensures
        match r {
            Ok(_) => glob_compile(pattern@) is Ok,
            Err(e) => glob_compile(pattern@) == Err::<(), Seq<char>>(e@),
        },
{
    match globset::GlobBuilder::new(pattern).literal_separator(false).build() {
        Ok(_) => Ok(()),
        Err(e) => Err(e.to_string()),
    }
}

/// Whether any of the globs `patterns` matches `path`, as a
/// `globset::GlobSet` built from those that compile matches it.
pub uninterp spec fn globs_hit(patterns: Seq<Seq<char>>, path: Seq<char>) -> bool;

/// Whether any of the globs matches the path, by a `globset::GlobSet`
/// built from those that compile. On Windows `globset` reads `\` in the
/// path as `/`, so the result is named only for paths without `\`; for
/// others nothing is claimed.
#[verifier::external_body]
fn globs_match(patterns: &Vec<String>, path: &str) -> (r: bool)
    ensures
        !path@.contains('\\') ==> r == globs_hit(patterns.deep_view(), path@),
{
    let mut builder = globset::GlobSetBuilder::new();
    for pattern in patterns {
        if let Ok(glob) = globset::GlobBuilder::new(pattern).literal_separator(false).build() {
            builder.add(glob);
        }
    }
    match builder.build() {
        Ok(set) => set.is_match(std::path::Path::new(path)),
        Err(_) => false,
    }
}

/// The last component of a path split at `/`: what follows its last `/`.
pub open spec fn file_name_of(p: Seq<char>) -> Seq<char>
    decreases p.len(),
{
    if p.len() == 0 {
        p
    } else if p.last() == '/' {
        Seq::empty()
    } else {
        file_name_of(p.drop_last()).push(p.last())
    }
}

/// The index of the last `c` in `s`, if any.
pub open spec fn last_index_of(s: Seq<char>, c: char) -> Option<int>
    decreases s.len(),
{
    if s.len() == 0 {
        None
    } else if s.last() == c {
        Some(s.len() - 1)
    } else {
        last_index_of(s.drop_last(), c)
    }
}

/// The extension of a file name: what follows its last `.`, unless that
/// dot starts the name or there is none.
pub open spec fn name_extension(name: Seq<char>) -> Option<Seq<char>> {
    match last_index_of(name, '.') {
        Some(d) => if d == 0 {
            None
        } else {
            Some(name.skip(d + 1))
        },
        None => None,
    }
}

/// A path that every platform splits the same way: no `\` and no `:`
/// (no Windows prefix or separator), not starting with `//`, not ending
/// with `/`, and a last component that is neither `.` nor `..`.
pub open spec fn plain_path(p: Seq<char>) -> bool {
    &&& p.len() > 0
    &&& !p.contains('\\')
    &&& !p.contains(':')
    &&& !(p.len() >= 2 && p[0] == '/' && p[1] == '/')
    &&& p.last() != '/'
    &&& file_name_of(p) != seq!['.']
    &&& file_name_of(p) != seq!['.', '.']
}

/// The extension of a path's file name (`std::path::Path::extension`),
/// when it is UTF-8. What separates path components depends on the
/// platform, so the result is stated for plain paths only: as std
/// documents it, the part of the file name after its last `.`, none when
/// the name has no `.` or only a leading one.
#[verifier::external_body]
pub(crate) fn path_extension(path: &str) -> (r: Option<String>)
    ensures
        plain_path(path@) ==> match r {
            Some(e) => name_extension(file_name_of(path@)) == Some(e@),
            None => name_extension(file_name_of(path@)) is None,
        },
{
    std::path::Path::new(path).extension().and_then(|e| e.to_str()).map(|e| e.to_string())
}

/// Per-glob settings; later entries win.
pub struct OverrideRule {
    pub paths: Vec<String>,
    pub mode: Option<Mode>,
    pub profile: Option<SyntaxProfile>,
    pub japanese: Option<bool>,
}

pub struct Checker {
    mode: Mode,
    profile: SyntaxProfile,
    ja_enabled: bool,
    corrections: Corrections,
    locale_variants: StringHashMap<String>,
    words: WordSets,
    /// Words never flagged by any check: configured ignores, project words
    /// and global words, lowercased.
    allow: StringHashMap<()>,
    ja: Option<JapaneseChecker>,
    overrides: Vec<OverrideRule>,
    tok: TokenizerOptions,
}

/// The settings in force for one file: mode, syntax profile, whether
/// Japanese checks run, and whether the file is prose.
pub struct Effective {
    pub mode: Mode,
    pub profile: SyntaxProfile,
    pub japanese: bool,
    pub prose: bool,
}

/// Extensions of prose files (fullwidth spaces allowed by default).
pub open spec fn prose_extensions() -> Seq<Seq<char>> {
    seq!["md"@, "markdown"@, "txt"@, "text"@, "rst"@, "adoc"@, "asciidoc"@, "tex"@, "org"@, "typ"@]
}

fn is_prose_extension(ext: &str) -> (r: bool)
    ensures
        r == prose_extensions().contains(lower_seq(ext@)),
{
    let e = ascii_lowercase(ext);
    let names = ["md", "markdown", "txt", "text", "rst", "adoc", "asciidoc", "tex", "org", "typ"];
    let mut i: usize = 0;
    while i < 10
        invariant
            0 <= i <= 10,
            e@ == lower_seq(ext@),
            names@ == seq!["md", "markdown", "txt", "text", "rst", "adoc", "asciidoc", "tex", "org", "typ"],
            forall|k: int| 0 <= k < i ==> (#[trigger] names@[k])@ != e@,
        decreases 10 - i,
    {
        if str_eq(names[i], e.as_str()) {
            assert(prose_extensions()[i as int] == names@[i as int]@);
            return true;
        }
        i += 1;
    }
    proof {
        if prose_extensions().contains(e@) {
            let k = choose|k: int| 0 <= k < 10 && prose_extensions()[k] == e@;
            assert(prose_extensions()[k] == names@[k]@);
        }
    }
    false
}


/// The plain content of a [`Checker`].
pub struct CheckerView {
    pub mode: Mode,
    pub profile: SyntaxProfile,
    pub ja_enabled: bool,
    pub corrections: CorrectionsView,
    pub locale_variants: Map<Seq<char>, Seq<char>>,
    pub words: Set<Seq<char>>,
    pub allow: Set<Seq<char>>,
    pub ja: Option<crate::japanese::JapaneseView>,
    /// (globs, mode, profile, Japanese switch) of each override, in order.
    pub overrides: Seq<(Seq<Seq<char>>, Option<Mode>, Option<SyntaxProfile>, Option<bool>)>,
    pub tok: TokenizerOptions,
}

pub open spec fn rule_view(o: OverrideRule) -> (Seq<Seq<char>>, Option<Mode>, Option<SyntaxProfile>, Option<bool>) {
    (o.paths.deep_view(), o.mode, o.profile, o.japanese)
}

impl View for Checker {
    type V = CheckerView;

    closed spec fn view(&self) -> CheckerView {
        CheckerView {
            mode: self.mode,
            profile: self.profile,
            ja_enabled: self.ja_enabled,
            corrections: self.corrections@,
            locale_variants: string_map_view(self.locale_variants@),
            words: self.words.words(),
            allow: self.allow@.dom(),
            ja: match self.ja {
                Some(j) => Some(j@),
                None => None,
            },
            overrides: self.overrides@.map_values(|o: OverrideRule| rule_view(o)),
            tok: self.tok,
        }
    }
}

/// The custom corrections of the inline configuration entries, in order.
pub open spec fn inline_corrections(
    m: Map<Seq<char>, Option<Seq<Seq<char>>>>,
    ws: Seq<(String, Vec<String>)>,
) -> Map<Seq<char>, Option<Seq<Seq<char>>>>
    decreases ws.len(),
{
    if ws.len() == 0 {
        m
    } else {
        let e = ws.last();
        inline_corrections(m, ws.drop_last()).insert(
            lower_seq(e.0@),
            crate::corrections::entry_for(e.0@, e.1@.map_values(|s: String| s@)),
        )
    }
}

/// Whether dictionary mode can apply to some file.
pub open spec fn dictionary_possible(cfg: Config) -> bool {
    cfg.check.mode == Mode::Dictionary || exists|i: int|
        0 <= i < cfg.overrides@.len() && (#[trigger] cfg.overrides@[i]).mode == Some(Mode::Dictionary)
}

/// The warnings for the globs of an override that do not compile, in
/// order.
pub open spec fn glob_warnings(paths: Seq<Seq<char>>) -> Seq<Seq<char>>
    decreases paths.len(),
{
    if paths.len() == 0 {
        Seq::empty()
    } else {
        glob_warnings(paths.drop_last()) + match glob_compile(paths.last()) {
            Ok(_) => Seq::<Seq<char>>::empty(),
            Err(e) => seq!["invalid override glob `"@ + paths.last() + "`: "@ + e],
        }
    }
}

/// The warnings for the invalid globs of the overrides, in order.
pub open spec fn override_warnings(os: Seq<crate::config::OverrideConfig>) -> Seq<Seq<char>>
    decreases os.len(),
{
    if os.len() == 0 {
        Seq::empty()
    } else {
        override_warnings(os.drop_last()) + glob_warnings(os.last().paths.deep_view())
    }
}

/// The overrides kept from the configuration: those whose globs all
/// compile, in order.
pub open spec fn kept_overrides(os: Seq<crate::config::OverrideConfig>) -> Seq<(Seq<Seq<char>>, Option<Mode>, Option<SyntaxProfile>, Option<bool>)>
    decreases os.len(),
{
    if os.len() == 0 {
        Seq::empty()
    } else {
        let o = os.last();
        let rest = kept_overrides(os.drop_last());
        if forall|k: int| 0 <= k < o.paths@.len() ==> (glob_compile(#[trigger] o.paths@[k]@) is Ok) {
            rest.push((o.paths.deep_view(), o.mode, o.profile, o.japanese))
        } else {
            rest
        }
    }
}

impl Checker {
    pub closed spec fn wf(&self) -> bool {
        &&& self.words.wf()
        &&& match self.ja {
            Some(j) => rules_compile(j@),
            None => true,
        }
    }

    /// Build a checker from an effective configuration. Invalid override
    /// globs are reported as warnings and their override is dropped.
    pub fn new(cfg: &Config) -> (r: (Checker, Vec<String>))
        ensures
            r.0.wf(),
            r.0@.mode == cfg.check.mode,
            r.0@.profile == cfg.check.profile,
            r.0@.ja_enabled == cfg.japanese.enabled,
            r.0@.corrections.builtin == cfg.corrections.builtin,
            r.0@.corrections.custom == inline_corrections(Map::empty(), cfg.corrections.words@),
            r.0@.locale_variants == spec_english_variants(cfg.check.locale),
            r.0@.words == if dictionary_possible(*cfg) {
                list_words(split_lines(crate::dictionary::CODE_TERMS@))
            } else {
                Set::<Seq<char>>::empty()
            },
            r.0@.allow == cfg.words.ignore.deep_view().to_set(),
            r.0@.ja is Some <==> cfg.japanese.enabled,
            r.0@.overrides == kept_overrides(cfg.overrides@),
            r.1.deep_view() == override_warnings(cfg.overrides@),
            r.0@.tok == (TokenizerOptions {
                min_word_len: cfg.check.min_word_len,
                max_token_len: cfg.check.max_token_len,
            }),
    {
        let mut corrections = Corrections::new(cfg.corrections.builtin);
        let mut i: usize = 0;
        while i < cfg.corrections.words.len()
            invariant
                0 <= i <= cfg.corrections.words@.len(),
                corrections@.builtin == cfg.corrections.builtin,
                corrections@.custom == inline_corrections(Map::empty(), cfg.corrections.words@.take(i as int)),
            decreases cfg.corrections.words@.len() - i,
        {
            let (typo, fixes) = &cfg.corrections.words[i];
            corrections.insert(typo.as_str(), fixes.as_slice());
            proof {
                let t = cfg.corrections.words@.take(i + 1);
                assert(t.drop_last() =~= cfg.corrections.words@.take(i as int));
            }
            i += 1;
        }
        assert(cfg.corrections.words@.take(cfg.corrections.words@.len() as int) =~= cfg.corrections.words@);

        let mut possible = cfg.check.mode == Mode::Dictionary;
        let mut k: usize = 0;
        while k < cfg.overrides.len()
            invariant
                0 <= k <= cfg.overrides@.len(),
                possible == (cfg.check.mode == Mode::Dictionary || exists|j: int|
                    0 <= j < k && (#[trigger] cfg.overrides@[j]).mode == Some(Mode::Dictionary)),
            decreases cfg.overrides@.len() - k,
        {
            if cfg.overrides[k].mode == Some(Mode::Dictionary) {
                possible = true;
            }
            k += 1;
        }
        let words = if possible {
            WordSets::with_code_terms()
        } else {
            WordSets::new()
        };

        let mut allow: StringHashMap<()> = StringHashMap::new();
        let mut j: usize = 0;
        while j < cfg.words.ignore.len()
            invariant
                0 <= j <= cfg.words.ignore@.len(),
                allow@.dom() == cfg.words.ignore.deep_view().take(j as int).to_set(),
            decreases cfg.words.ignore@.len() - j,
        {
            allow.insert(to_owned(cfg.words.ignore[j].as_str()), ());
            proof {
                broadcast use vstd::seq_lib::group_seq_properties;
                assert(cfg.words.ignore.deep_view().take(j + 1) =~= cfg.words.ignore.deep_view().take(j as int).push(cfg.words.ignore@[j as int]@));
                assert(allow@.dom() =~= cfg.words.ignore.deep_view().take(j + 1).to_set());
            }
            j += 1;
        }
        assert(cfg.words.ignore.deep_view().take(cfg.words.ignore@.len() as int) =~= cfg.words.ignore.deep_view());

        let ja = if cfg.japanese.enabled {
            let mut ja = JapaneseChecker::new(
                cfg.japanese.katakana_style.into(),
                JapaneseOptions {
                    flag_fullwidth_alnum: cfg.japanese.flag_fullwidth_alnum,
                    flag_halfwidth_kana: cfg.japanese.flag_halfwidth_kana,
                    flag_compatibility: cfg.japanese.flag_compatibility,
                    kanji_consistency: cfg.japanese.kanji_consistency,
                    number_consistency: cfg.japanese.number_consistency,
                    punctuation_consistency: cfg.japanese.punctuation_consistency,
                    fullwidth_space: cfg.japanese.fullwidth_space.into(),
                },
            );
            let mut v: usize = 0;
            while v < cfg.japanese.variants.len()
                invariant
                    0 <= v <= cfg.japanese.variants@.len(),
                    rules_compile(ja@),
                decreases cfg.japanese.variants@.len() - v,
            {
                let (variant, preferred) = &cfg.japanese.variants[v];
                ja.add_variant(variant.as_str(), preferred.as_str());
                v += 1;
            }
            Some(ja)
        } else {
            None
        };

        let mut warnings: Vec<String> = Vec::new();
        let mut overrides: Vec<OverrideRule> = Vec::new();
        let mut o: usize = 0;
        while o < cfg.overrides.len()
            invariant
                0 <= o <= cfg.overrides@.len(),
                overrides@.map_values(|r: OverrideRule| rule_view(r)) == kept_overrides(cfg.overrides@.take(o as int)),
                warnings.deep_view() == override_warnings(cfg.overrides@.take(o as int)),
            decreases cfg.overrides@.len() - o,
        {
            let rule = &cfg.overrides[o];
            let mut ok = true;
            let mut g: usize = 0;
            let ghost w0 = warnings.deep_view();
            assert(rule.paths.deep_view().take(0) =~= Seq::<Seq<char>>::empty());
            assert(w0 + glob_warnings(rule.paths.deep_view().take(0)) =~= w0);
            while g < rule.paths.len()
                invariant
                    0 <= g <= rule.paths@.len(),
                    ok == forall|t: int| 0 <= t < g ==> (glob_compile(#[trigger] rule.paths@[t]@) is Ok),
                    warnings.deep_view() == w0 + glob_warnings(rule.paths.deep_view().take(g as int)),
                decreases rule.paths@.len() - g,
            {
                let ghost pv = rule.paths.deep_view();
                assert(pv.take(g + 1).drop_last() =~= pv.take(g as int));
                assert(pv.take(g + 1).last() == rule.paths@[g as int]@);
                match glob_check(rule.paths[g].as_str()) {
                    Ok(_) => {
                        assert(w0 + glob_warnings(pv.take(g + 1)) =~= w0 + glob_warnings(pv.take(g as int)));
                    },
                    Err(e) => {
                        let mut w = to_owned("invalid override glob `");
                        push_str(&mut w, rule.paths[g].as_str());
                        push_str(&mut w, "`: ");
                        push_str(&mut w, e.as_str());
                        let ghost before = warnings.deep_view();
                        warnings.push(w);
                        assert(warnings.deep_view() =~= before.push(w@));
                        assert(w0 + glob_warnings(pv.take(g + 1)) =~= w0 + glob_warnings(pv.take(g as int)) + seq![w@]);
                        ok = false;
                    },
                }
                g += 1;
            }
            assert(rule.paths.deep_view().take(rule.paths@.len() as int) =~= rule.paths.deep_view());
            let ghost before = overrides@;
            if ok {
                let mut paths: Vec<String> = Vec::new();
                let mut t: usize = 0;
                while t < rule.paths.len()
                    invariant
                        0 <= t <= rule.paths@.len(),
                        paths.deep_view() == rule.paths.deep_view().take(t as int),
                    decreases rule.paths@.len() - t,
                {
                    let ghost before_p = paths.deep_view();
                    let x = to_owned(rule.paths[t].as_str());
                    paths.push(x);
                    assert(paths.deep_view() =~= before_p.push(x@));
                    assert(rule.paths.deep_view().take(t + 1) =~= rule.paths.deep_view().take(t as int).push(rule.paths@[t as int]@));
                    t += 1;
                }
                assert(rule.paths.deep_view().take(rule.paths@.len() as int) =~= rule.paths.deep_view());
                let kept = OverrideRule { paths, mode: rule.mode, profile: rule.profile, japanese: rule.japanese };
                overrides.push(kept);
                assert(overrides@.map_values(|r: OverrideRule| rule_view(r)) =~= before.map_values(|r: OverrideRule| rule_view(r)).push(rule_view(kept)));
            }
            proof {
                let tk = cfg.overrides@.take(o + 1);
                assert(tk.drop_last() =~= cfg.overrides@.take(o as int));
                assert(tk.last() == *rule);
                assert(override_warnings(tk) == override_warnings(cfg.overrides@.take(o as int)) + glob_warnings(rule.paths.deep_view()));
            }
            o += 1;
        }
        assert(cfg.overrides@.take(cfg.overrides@.len() as int) =~= cfg.overrides@);

        let checker = Checker {
            mode: cfg.check.mode,
            profile: cfg.check.profile,
            ja_enabled: cfg.japanese.enabled,
            corrections,
            locale_variants: english_variants(cfg.check.locale),
            words,
            allow,
            ja,
            overrides,
            tok: TokenizerOptions {
                min_word_len: cfg.check.min_word_len,
                max_token_len: cfg.check.max_token_len,
            },
        };
        (checker, warnings)
    }
}


/// The issue for the word `line[a..e]`.
pub open spec fn word_issue(
    line: Seq<char>,
    ln: u32,
    lo: int,
    a: int,
    e: int,
    kind: IssueKind,
    suggestions: Seq<Seq<char>>,
) -> IssueView {
    IssueView {
        line: ln,
        col: byte_offset(line, a) as usize,
        offset: (lo + byte_offset(line, a)) as usize,
        len: byte_len(line.subrange(a, e)) as usize,
        word: line.subrange(a, e),
        kind,
        suggestions,
    }
}

pub open spec fn all_upper_chars(w: Seq<char>) -> bool {
    forall|k: int| 0 <= k < w.len() ==> is_upper(#[trigger] w[k])
}

/// What the English checks say of the word `line[a..e]` (an unknown word's
/// suggestions left out): allowed words pass; the correction tables come
/// first, then the locale's spellings, then, in dictionary mode, words of
/// four bytes or more that are not all capitals and not in the wordlists.
pub open spec fn english_word(
    v: CheckerView,
    line: Seq<char>,
    ln: u32,
    lo: int,
    mode: Mode,
    a: int,
    e: int,
) -> Option<IssueView> {
    let w = line.subrange(a, e);
    let lower = lower_seq(w);
    if v.allow.contains(lower) {
        None
    } else {
        match spec_check(v.corrections, w) {
            Some(VerdictView::Allowed) => None,
            Some(VerdictView::Typo(fixes)) => Some(word_issue(line, ln, lo, a, e, IssueKind::Typo, fixes)),
            None => if v.locale_variants.contains_key(lower) {
                Some(
                    word_issue(
                        line,
                        ln,
                        lo,
                        a,
                        e,
                        IssueKind::EnVariant,
                        seq![spec_match_case(w, v.locale_variants[lower])],
                    ),
                )
            } else if mode == Mode::Dictionary && byte_len(w) >= 4 && !all_upper_chars(w)
                && !v.words.contains(lower) {
                Some(word_issue(line, ln, lo, a, e, IssueKind::UnknownWord, Seq::empty()))
            } else {
                None
            },
        }
    }
}

/// The English findings of the first `n` words of a line.
pub open spec fn english_upto(v: CheckerView, line: Seq<char>, ln: u32, lo: int, mode: Mode, n: int) -> Seq<IssueView>
    decreases n,
{
    if n <= 0 {
        Seq::empty()
    } else {
        let rest = english_upto(v, line, ln, lo, mode, n - 1);
        let r = line_words(line, v.tok)[n - 1];
        match english_word(v, line, ln, lo, mode, r.0, r.1) {
            Some(x) => rest.push(x),
            None => rest,
        }
    }
}

/// The English findings of a line.
pub open spec fn english_line(v: CheckerView, line: Seq<char>, ln: u32, lo: int, mode: Mode) -> Seq<IssueView> {
    english_upto(v, line, ln, lo, mode, line_words(line, v.tok).len() as int)
}

/// An issue with an unknown word's suggestions left out.
pub open spec fn shape(x: IssueView) -> IssueView {
    if x.kind == IssueKind::UnknownWord {
        IssueView { suggestions: Seq::empty(), ..x }
    } else {
        x
    }
}

pub open spec fn shapes(s: Seq<IssueView>) -> Seq<IssueView> {
    s.map_values(|x: IssueView| shape(x))
}

fn all_upper_exec(w: &str) -> (r: bool)
    ensures
        r == all_upper_chars(w@),
{
    let cs = chars_of(w);
    let mut i: usize = 0;
    while i < cs.len()
        invariant
            cs@ == w@,
            0 <= i <= cs@.len(),
            forall|k: int| 0 <= k < i ==> is_upper(#[trigger] cs@[k]),
        decreases cs@.len() - i,
    {
        if !upper(cs[i]) {
            return false;
        }
        i += 1;
    }
    true
}

impl Checker {
    /// Whether dictionary mode applies to some file, so that wordlists are
    /// worth loading.
    pub fn wants_dictionaries(&self) -> (r: bool)
        ensures
            r == (self@.mode == Mode::Dictionary || exists|i: int|
                0 <= i < self@.overrides.len() && (#[trigger] self@.overrides[i]).1 == Some(Mode::Dictionary)),
    {
        if self.mode == Mode::Dictionary {
            return true;
        }
        let mut i: usize = 0;
        while i < self.overrides.len()
            invariant
                0 <= i <= self.overrides@.len(),
                self@.mode != Mode::Dictionary,
                forall|k: int| 0 <= k < i ==> (#[trigger] self@.overrides[k]).1 != Some(Mode::Dictionary),
            decreases self.overrides@.len() - i,
        {
            if self.overrides[i].mode == Some(Mode::Dictionary) {
                assert(self@.overrides[i as int].1 == Some(Mode::Dictionary));
                return true;
            }
            i += 1;
        }
        false
    }

    /// Load a correction table (`typo<TAB>fix[,fix]` lines); the number of
    /// entries loaded.
    pub fn add_corrections_tsv(&mut self, text: &str) -> (n: usize)
        requires
            old(self).wf(),
        ensures
            final(self).wf(),
            final(self)@ == (CheckerView {
                corrections: crate::corrections::CorrectionsView {
                    custom: crate::corrections::with_entries(
                        old(self)@.corrections.custom,
                        crate::corrections::tsv_entries(split_lines(text@)),
                    ),
                    builtin: old(self)@.corrections.builtin,
                },
                ..old(self)@
            }),
            n == crate::corrections::tsv_entries(split_lines(text@)).len(),
    {
        self.corrections.load_tsv(text)
    }

    /// Add a wordlist for dictionary mode: one word per line, `#` comments.
    pub fn add_wordlist(&mut self, text: &str)
        requires
            old(self).wf(),
        ensures
            final(self).wf(),
            final(self)@ == (CheckerView {
                words: old(self)@.words.union(list_words(split_lines(text@))),
                ..old(self)@
            }),
    {
        self.words.add_wordlist_str(text);
    }

    /// Allow the words of a word file (project or global words): one per
    /// line, trimmed and lowercased, `#` comments skipped.
    pub fn add_allowed_text(&mut self, text: &str)
        requires
            old(self).wf(),
        ensures
            final(self).wf(),
            final(self)@ == (CheckerView {
                allow: old(self)@.allow.union(list_words(split_lines(text@))),
                ..old(self)@
            }),
    {
        let cs = chars_of(text);
        let ls = lines(cs.as_slice());
        let ghost all = split_lines(text@);
        let mut i: usize = 0;
        assert(all.take(0) =~= Seq::<Seq<char>>::empty());
        assert(self@.allow.union(list_words(all.take(0))) =~= self@.allow);
        while i < ls.len()
            invariant
                self.wf(),
                cs@ == text@,
                all == split_lines(text@),
                ls@.len() == all.len(),
                forall|k: int| 0 <= k < ls@.len() ==> #[trigger] ls@[k]@ == all[k],
                0 <= i <= ls@.len(),
                self@ == (CheckerView { allow: old(self)@.allow.union(list_words(all.take(i as int))), ..old(self)@ }),
            decreases ls@.len() - i,
        {
            let (a, b) = trim_bounds(ls[i].as_slice(), 0, ls[i].len());
            let ghost l = ls@[i as int]@;
            assert(l.subrange(0, l.len() as int) =~= l);
            proof {
                assert(all.take(i + 1).drop_last() =~= all.take(i as int));
                assert(all.take(i + 1).last() == l);
            }
            if a < b && ls[i][a] != '#' {
                let t = string_from_chars(slice_range(ls[i].as_slice(), a, b).as_slice());
                let w = lowercase(t.as_str());
                self.allow.insert(w, ());
            }
            proof {
                assert(self@.allow =~= old(self)@.allow.union(list_words(all.take(i + 1))));
            }
            i += 1;
        }
        assert(all.take(ls@.len() as int) =~= all);
    }

    /// Add words to the allow set (what an editor "add word" action just
    /// wrote to disk, without a full reload): each trimmed and lowercased.
    pub fn allow_words(&mut self, words: &Vec<String>)
        requires
            old(self).wf(),
        ensures
            final(self).wf(),
            final(self)@ == (CheckerView {
                allow: old(self)@.allow.union(
                    words.deep_view().map_values(|w: Seq<char>| unicode_lowercase(trim(w))).to_set(),
                ),
                ..old(self)@
            }),
    {
        let ghost f = |w: Seq<char>| unicode_lowercase(trim(w));
        let mut i: usize = 0;
        assert(words.deep_view().take(0).map_values(f).to_set() =~= Set::<Seq<char>>::empty());
        assert(self@.allow.union(words.deep_view().take(0).map_values(f).to_set()) =~= self@.allow);
        while i < words.len()
            invariant
                self.wf(),
                0 <= i <= words@.len(),
                f == (|w: Seq<char>| unicode_lowercase(trim(w))),
                self@ == (CheckerView {
                    allow: old(self)@.allow.union(words.deep_view().take(i as int).map_values(f).to_set()),
                    ..old(self)@
                }),
            decreases words@.len() - i,
        {
            let cs = chars_of(words[i].as_str());
            let (a, b) = trim_bounds(cs.as_slice(), 0, cs.len());
            assert(cs@.subrange(0, cs@.len() as int) =~= cs@);
            let t = string_from_chars(slice_range(cs.as_slice(), a, b).as_slice());
            let w = lowercase(t.as_str());
            self.allow.insert(w, ());
            proof {
                broadcast use vstd::seq_lib::group_seq_properties;
                assert(words.deep_view().take(i + 1).map_values(f) =~= words.deep_view().take(i as int).map_values(f).push(f(words@[i as int]@)));
                assert(self@.allow =~= old(self)@.allow.union(words.deep_view().take(i + 1).map_values(f).to_set()));
            }
            i += 1;
        }
        assert(words.deep_view().take(words@.len() as int) =~= words.deep_view());
    }

    /// Load a variant-rule file from its text into the Japanese checks
    /// (when they are on), as `JapaneseChecker::load_variant_text` does.
    pub fn load_variant_text(&mut self, text: &str) -> (r: Result<usize, String>)
        requires
            old(self).wf(),
        ensures
            final(self).wf(),
            old(self)@.ja is None ==> final(self)@ == old(self)@ && r == Ok::<usize, String>(0),
            old(self)@.ja matches Some(j) ==> match crate::documents::toml_value(text@) {
                Err(e) => r is Err && r->Err_0@ == e && final(self)@ == old(self)@,
                Ok(v) => exists|vs: Seq<(String, Option<String>)>, rs: Seq<crate::japanese::RuleEntry>|
                    #[trigger] crate::japanese::variants_read(v, vs) && #[trigger] crate::japanese::rules_read(v, rs)
                        && (vs.len() + rs.len() > usize::MAX ==> r is Err && final(self)@ == old(self)@)
                        && (vs.len() + rs.len() <= usize::MAX ==> {
                        &&& final(self)@ == (CheckerView {
                            ja: Some(
                                crate::japanese::JapaneseView {
                                    variants: crate::japanese::with_variant_entries(j.variants, vs),
                                    rules: j.rules + crate::japanese::load_rules(rs, 0).0,
                                    ..j
                                },
                            ),
                            ..old(self)@
                        })
                        &&& match crate::japanese::load_rules(rs, 0).1 {
                            Some(e) => r is Err && r->Err_0@ == e,
                            None => r == Ok::<usize, String>(
                                (crate::japanese::string_entries(vs) + crate::japanese::load_rules(rs, 0).0.len()) as usize,
                            ),
                        }
                    }),
            },
    {
        match &mut self.ja {
            Some(ja) => ja.load_variant_text(text),
            None => Ok(0),
        }
    }

    /// Load a variant-rule file's entries into the Japanese checks (when
    /// they are on): the literal variants, then the rules up to the first
    /// bad one, which is the error.
    pub fn load_variant_rules(&mut self, variants: &Vec<(String, Option<String>)>, rules: &Vec<RuleEntry>) -> (r: Result<usize, String>)
        requires
            old(self).wf(),
            crate::japanese::string_entries(variants@) + rules@.len() <= usize::MAX,
        ensures
            final(self).wf(),
            old(self)@.ja is None ==> final(self)@ == old(self)@ && r == Ok::<usize, String>(0),
            old(self)@.ja matches Some(j) ==> {
                &&& final(self)@ == (CheckerView {
                    ja: Some(
                        crate::japanese::JapaneseView {
                            variants: crate::japanese::with_variant_entries(j.variants, variants@),
                            rules: j.rules + crate::japanese::load_rules(rules@, 0).0,
                            ..j
                        },
                    ),
                    ..old(self)@
                })
                &&& match crate::japanese::load_rules(rules@, 0).1 {
                    Some(e) => r is Err && r->Err_0@ == e,
                    None => r == Ok::<usize, String>(
                        (crate::japanese::string_entries(variants@) + crate::japanese::load_rules(rules@, 0).0.len()) as usize,
                    ),
                }
            },
    {
        match &mut self.ja {
            Some(ja) => ja.load_variant_rules(variants, rules),
            None => Ok(0),
        }
    }

    /// The settings in force for a file, given which overrides match its
    /// path and its extension.
    pub fn effective(&self, matches: &Vec<bool>, extension: Option<&str>) -> (r: Effective)
        requires
            matches@.len() == self@.overrides.len(),
        ensures
            ({
                let (m, p, j) = effective_fold(self@, matches@, matches@.len() as int);
                &&& r.mode == m
                &&& r.profile == p
                &&& r.japanese == (j && self@.ja is Some)
                &&& r.prose == match extension {
                    Some(e) => prose_extensions().contains(lower_seq(e@)),
                    None => false,
                }
            }),
    {
        let mut mode = self.mode;
        let mut profile = self.profile;
        let mut ja_on = self.ja_enabled;
        let mut i: usize = 0;
        while i < self.overrides.len()
            invariant
                0 <= i <= self@.overrides.len(),
                matches@.len() == self@.overrides.len(),
                (mode, profile, ja_on) == effective_fold(self@, matches@, i as int),
            decreases self@.overrides.len() - i,
        {
            if matches[i] {
                let o = &self.overrides[i];
                match o.mode {
                    Some(m) => {
                        mode = m;
                    },
                    None => {},
                }
                match o.profile {
                    Some(p) => {
                        profile = p;
                    },
                    None => {},
                }
                match o.japanese {
                    Some(j) => {
                        ja_on = j;
                    },
                    None => {},
                }
            }
            i += 1;
        }
        let prose = match extension {
            Some(e) => is_prose_extension(e),
            None => false,
        };
        Effective { mode, profile, japanese: ja_on && self.ja.is_some(), prose }
    }
}

/// The mode, profile and Japanese switch after the first `n` overrides,
/// each applying where it matches.
pub open spec fn effective_fold(v: CheckerView, matches: Seq<bool>, n: int) -> (Mode, SyntaxProfile, bool)
    decreases n,
{
    if n <= 0 {
        (v.mode, v.profile, v.ja_enabled)
    } else {
        let (m, p, j) = effective_fold(v, matches, n - 1);
        let o = v.overrides[n - 1];
        if matches[n - 1] {
            (
                crate::config::unwrap_or(o.1, m),
                crate::config::unwrap_or(o.2, p),
                crate::config::unwrap_or(o.3, j),
            )
        } else {
            (m, p, j)
        }
    }
}


fn one_string(s: String) -> (r: Vec<String>)
    ensures
        r.deep_view() == seq![s@],
{
    let mut r: Vec<String> = Vec::new();
    r.push(s);
    assert(r.deep_view() =~= seq![s@]);
    r
}

/// Each fix written in the letter case of `word`.
fn recase_all(word: &str, fixes: Vec<String>) -> (r: Vec<String>)
    ensures
        r@.len() == fixes@.len(),
        forall|i: int| 0 <= i < r@.len() ==> #[trigger] r@[i]@ == spec_match_case(word@, fixes@[i]@),
{
    let mut out: Vec<String> = Vec::new();
    let mut i: usize = 0;
    while i < fixes.len()
        invariant
            0 <= i <= fixes@.len(),
            out@.len() == i,
            forall|k: int| 0 <= k < i ==> #[trigger] out@[k]@ == spec_match_case(word@, fixes@[k]@),
        decreases fixes@.len() - i,
    {
        out.push(match_case(word, fixes[i].as_str()));
        i += 1;
    }
    out
}

impl Checker {
    /// The English findings of one line.
    pub fn check_english(&self, line: &str, ln: u32, lo: usize, mode: Mode, issues: &mut Vec<Issue>)
        requires
            self.wf(),
            lo + byte_len(line@) <= usize::MAX,
        ensures
            shapes(issue_views(final(issues)@)) == shapes(issue_views(old(issues)@)) + english_line(
                self@,
                line@,
                ln,
                lo as int,
                mode,
            ),
    {
        let ws = words_in_line(line, &self.tok);
        let ghost lw = line_words(line@, self.tok);
        proof {
            lemma_line_words_bounds(line@, self.tok);
        }
        let mut k: usize = 0;
        assert(shapes(issue_views(issues@)) =~= shapes(issue_views(old(issues)@)) + english_upto(self@, line@, ln, lo as int, mode, 0));
        while k < ws.len()
            invariant
                self.wf(),
                lo + byte_len(line@) <= usize::MAX,
                lw == line_words(line@, self.tok),
                lw == line_words(line@, self@.tok),
                ws@.len() == lw.len(),
                forall|t: int| 0 <= t < lw.len() ==> 0 <= (#[trigger] lw[t]).0 <= lw[t].1 <= line@.len(),
                forall|t: int|
                    0 <= t < ws@.len() ==> {
                        &&& (#[trigger] ws@[t]).text@ == line@.subrange(lw[t].0, lw[t].1)
                        &&& ws@[t].start == byte_offset(line@, lw[t].0)
                    },
                0 <= k <= ws@.len(),
                shapes(issue_views(issues@)) == shapes(issue_views(old(issues)@)) + english_upto(
                    self@,
                    line@,
                    ln,
                    lo as int,
                    mode,
                    k as int,
                ),
            decreases ws@.len() - k,
        {
            let w = &ws[k];
            let ghost a = lw[k as int].0;
            let ghost e = lw[k as int].1;
            let ghost before = issues@;
            proof {
                lemma_offset_mono(line@, a, e);
                lemma_offset_mono(line@, e, line@.len() as int);
                assert(line@.take(line@.len() as int) =~= line@);
            }
            let lower = ascii_lowercase(w.text);
            let len = crate::text::str_byte_len(w.text);
            let x: Option<Issue> = if self.allow.contains_key(lower.as_str()) {
                None
            } else {
                match self.corrections.check(w.text) {
                    Some(Verdict::Allowed) => None,
                    Some(Verdict::Typo(fixes)) => Some(
                        Issue {
                            line: ln,
                            col: w.start,
                            offset: lo + w.start,
                            len,
                            word: to_owned(w.text),
                            kind: IssueKind::Typo,
                            suggestions: fixes,
                        },
                    ),
                    None => match self.locale_variants.get(lower.as_str()) {
                        Some(p) => Some(
                            Issue {
                                line: ln,
                                col: w.start,
                                offset: lo + w.start,
                                len,
                                word: to_owned(w.text),
                                kind: IssueKind::EnVariant,
                                suggestions: one_string(match_case(w.text, p.as_str())),
                            },
                        ),
                        None => if mode == Mode::Dictionary && len >= 4 && !all_upper_exec(w.text)
                            && !self.words.contains(lower.as_str()) {
                            let found = self.words.suggest(lower.as_str(), 4);
                            Some(
                                Issue {
                                    line: ln,
                                    col: w.start,
                                    offset: lo + w.start,
                                    len,
                                    word: to_owned(w.text),
                                    kind: IssueKind::UnknownWord,
                                    suggestions: recase_all(w.text, found),
                                },
                            )
                        } else {
                            None
                        },
                    },
                }
            };
            proof {
                let tk = lw.take(k + 1);
                assert(english_upto(self@, line@, ln, lo as int, mode, k + 1) == match english_word(self@, line@, ln, lo as int, mode, a, e) {
                    Some(y) => english_upto(self@, line@, ln, lo as int, mode, k as int).push(y),
                    None => english_upto(self@, line@, ln, lo as int, mode, k as int),
                });
            }
            match x {
                Some(issue) => {
                    issues.push(issue);
                    assert(shapes(issue_views(issues@)) =~= shapes(issue_views(before)).push(shape(issue@)));
                },
                None => {},
            }
            k += 1;
        }
    }
}


// ---------------------------------------------------------------------------
// Whole-text checks
// ---------------------------------------------------------------------------

/// A katakana occurrence as plain values: (form, line, column, offset).
pub type OccView = (Seq<char>, u32, usize, usize);

/// Index of the first occurrence of `n` in `h` at or after `i`.
pub open spec fn first_from(h: Seq<u8>, n: Seq<u8>, i: int) -> Option<int>
    decreases h.len() + 1 - i,
{
    if i < 0 || i + n.len() > h.len() {
        None
    } else if h.subrange(i, i + n.len()) == n {
        Some(i)
    } else {
        first_from(h, n, i + 1)
    }
}

/// Index of the first occurrence of `n` in `h`.
pub open spec fn first_occurrence(h: Seq<u8>, n: Seq<u8>) -> Option<int> {
    first_from(h, n, 0)
}

/// `memchr::memmem::find`: the index of the first occurrence of `needle`
/// in `haystack`, as the crate documents it.
#[verifier::external_body]
fn memmem_find(haystack: &[u8], needle: &[u8]) -> (r: Option<usize>)
    ensures
        match r {
            Some(i) => first_occurrence(haystack@, needle@) == Some(i as int),
            None => first_occurrence(haystack@, needle@) is None,
        },
{
    memchr::memmem::find(haystack, needle)
}

/// `pat` stands in `h` at byte `p`.
pub open spec fn bytes_at(h: Seq<u8>, p: int, pat: Seq<u8>) -> bool {
    0 <= p && p + pat.len() <= h.len() && h.subrange(p, p + pat.len()) == pat
}

fn bytes_start_with(h: &[u8], p: usize, pat: &[u8]) -> (r: bool)
    ensures
        r == bytes_at(h@, p as int, pat@),
{
    let hl = h.len();
    if p > hl || pat.len() > hl - p {
        return false;
    }
    let mut k: usize = 0;
    while k < pat.len()
        invariant
            hl == h@.len(),
            p + pat@.len() <= h@.len(),
            0 <= k <= pat@.len(),
            forall|t: int| 0 <= t < k ==> h@[p + t] == #[trigger] pat@[t],
        decreases pat@.len() - k,
    {
        if h[p + k] != pat[k] {
            assert(h@.subrange(p as int, p + pat@.len())[k as int] != pat@[k as int]);
            return false;
        }
        k += 1;
    }
    assert(h@.subrange(p as int, p + pat@.len()) =~= pat@);
    true
}

/// An inline directive of a line.
#[derive(Clone, Copy, PartialEq, Eq, Structural)]
pub enum Directive {
    NoDirective,
    IgnoreLine,
    IgnoreNextLine,
}

/// The directive of a line, read from its UTF-8 bytes: the first
/// `ayame-spell:` in the line decides.
pub open spec fn spec_directive(h: Seq<u8>) -> Directive {
    match first_occurrence(h, encode_utf8("ayame-spell:"@)) {
        Some(p) => if bytes_at(h, p, encode_utf8("ayame-spell:ignore-next-line"@)) {
            Directive::IgnoreNextLine
        } else if bytes_at(h, p, encode_utf8("ayame-spell:ignore-line"@)) {
            Directive::IgnoreLine
        } else {
            Directive::NoDirective
        },
        None => Directive::NoDirective,
    }
}

/// The directive of a line.
pub fn directive_of(line: &str) -> (d: Directive)
    ensures
        d == spec_directive(encode_utf8(line@)),
{
    let h = line.as_bytes();
    match memmem_find(h, "ayame-spell:".as_bytes()) {
        Some(p) => if bytes_start_with(h, p, "ayame-spell:ignore-next-line".as_bytes()) {
            Directive::IgnoreNextLine
        } else if bytes_start_with(h, p, "ayame-spell:ignore-line".as_bytes()) {
            Directive::IgnoreLine
        } else {
            Directive::NoDirective
        },
        None => Directive::NoDirective,
    }
}

/// The end of the line piece starting at `a`: just past its `\n`, or the
/// end of the text.
pub open spec fn next_line_end(s: Seq<char>, a: int) -> int {
    let e = a + find_char_from(s.subrange(a, s.len() as int), '\n', 0);
    if e < s.len() {
        e + 1
    } else {
        s.len() as int
    }
}

/// `b` with the line breaks and carriage returns at the end of `s[a..b]`
/// taken off.
pub open spec fn content_end(s: Seq<char>, a: int, b: int) -> int
    decreases b - a,
{
    if a < b && (s[b - 1] == '\n' || s[b - 1] == '\r') {
        content_end(s, a, b - 1)
    } else {
        b
    }
}

proof fn lemma_content_end(s: Seq<char>, a: int, b: int)
    requires
        a <= b,
    ensures
        a <= content_end(s, a, b) <= b,
    decreases b - a,
{
    if a < b && (s[b - 1] == '\n' || s[b - 1] == '\r') {
        lemma_content_end(s, a, b - 1);
    }
}

/// The findings of one checked line (an unknown word's suggestions left
/// out): English first, then Japanese.
pub open spec fn line_findings(
    v: CheckerView,
    mode: Mode,
    ja_on: bool,
    prose: bool,
    line: Seq<char>,
    ln: u32,
    lo: int,
) -> Seq<IssueView> {
    (if mode != Mode::Off {
        english_line(v, line, ln, lo, mode)
    } else {
        Seq::empty()
    }) + (if ja_on {
        shapes(line_issues(v.ja->0, line, ln, lo, prose))
    } else {
        Seq::empty()
    })
}

/// The katakana occurrences one checked line contributes.
pub open spec fn line_occs(v: CheckerView, ja_on: bool, want: bool, line: Seq<char>, ln: u32, lo: int) -> Seq<OccView> {
    if ja_on && want {
        line_occurrences(v.ja->0, line, ln, lo)
    } else {
        Seq::empty()
    }
}

/// The line-by-line pass over a checked text from character `a` on, where
/// line `ln` starts: each `\n`-terminated piece is one line, its trailing
/// line breaks and carriage returns taken off; directives skip a line or
/// the next one.
pub open spec fn scan_from(
    v: CheckerView,
    mode: Mode,
    ja_on: bool,
    prose: bool,
    want: bool,
    s: Seq<char>,
    a: int,
    ln: int,
    skip: bool,
    found: Seq<IssueView>,
    occs: Seq<OccView>,
) -> (Seq<IssueView>, Seq<OccView>)
    decreases s.len() - a,
{
    if a < 0 || a >= s.len() {
        (found, occs)
    } else {
        let b = next_line_end(s, a);
        if b <= a {
            (found, occs)
        } else {
            let line = s.subrange(a, content_end(s, a, b));
            let lo = byte_offset(s, a) as int;
            if skip {
                scan_from(v, mode, ja_on, prose, want, s, b, ln + 1, false, found, occs)
            } else {
                match spec_directive(encode_utf8(line)) {
                    Directive::IgnoreNextLine => scan_from(v, mode, ja_on, prose, want, s, b, ln + 1, true, found, occs),
                    Directive::IgnoreLine => scan_from(v, mode, ja_on, prose, want, s, b, ln + 1, false, found, occs),
                    Directive::NoDirective => scan_from(
                        v,
                        mode,
                        ja_on,
                        prose,
                        want,
                        s,
                        b,
                        ln + 1,
                        false,
                        found + line_findings(v, mode, ja_on, prose, line, ln as u32, lo),
                        occs + line_occs(v, ja_on, want, line, ln as u32, lo),
                    ),
                }
            }
        }
    }
}

/// The issues whose word, lowercased, is not allowed.
pub open spec fn kept_issues(allow: Set<Seq<char>>, s: Seq<IssueView>) -> Seq<IssueView>
    decreases s.len(),
{
    if s.len() == 0 {
        s
    } else {
        let rest = kept_issues(allow, s.drop_last());
        if allow.contains(unicode_lowercase(s.last().word)) {
            rest
        } else {
            rest.push(s.last())
        }
    }
}

/// `x` inserted into `s` after every issue at the same or an earlier offset
/// at its end.
pub open spec fn insert_by_offset(s: Seq<IssueView>, x: IssueView) -> Seq<IssueView>
    decreases s.len(),
{
    if s.len() == 0 {
        seq![x]
    } else if s.last().offset <= x.offset {
        s.push(x)
    } else {
        insert_by_offset(s.drop_last(), x).push(s.last())
    }
}

/// The issues stably sorted by offset.
pub open spec fn sort_by_offset(s: Seq<IssueView>) -> Seq<IssueView>
    decreases s.len(),
{
    if s.len() == 0 {
        s
    } else {
        insert_by_offset(sort_by_offset(s.drop_last()), s.last())
    }
}

/// Whether the katakana consistency pass runs.
pub open spec fn wants_consistency(v: CheckerView, ja_on: bool) -> bool {
    ja_on && (v.ja->0).style == KatakanaStyle::Consistency
}

/// The findings of a checked (masked) text, an unknown word's suggestions
/// left out: line findings, then katakana consistency, then the
/// document-level Japanese checks; allowed words dropped; sorted by offset.
pub open spec fn checked_issues(v: CheckerView, s: Seq<char>, mode: Mode, ja_on: bool, prose: bool) -> Seq<IssueView> {
    let want = wants_consistency(v, ja_on);
    let scanned = scan_from(v, mode, ja_on, prose, want, s, 0, 1, false, Seq::empty(), Seq::empty());
    let all = scanned.0 + (if want {
        shapes(spec_consistency_issues(scanned.1))
    } else {
        Seq::empty()
    }) + (if ja_on {
        shapes(spec_document_issues(v.ja->0, s))
    } else {
        Seq::empty()
    });
    sort_by_offset(kept_issues(v.allow, all))
}


/// No line break among `s[a..j]`: the line count does not change.
proof fn lemma_nl_flat(s: Seq<char>, a: int, j: int)
    requires
        0 <= a <= j <= s.len(),
        forall|k: int| a <= k < j ==> s[k] != '\n',
    ensures
        nl_count(s, j) == nl_count(s, a),
    decreases j - a,
{
    if j > a {
        lemma_nl_flat(s, a, j - 1);
    }
}

/// Masking keeps every line break where it was.
pub proof fn lemma_mask_lines(s: Seq<char>, r: Seq<char>, k: int)
    requires
        masks(s, r),
        0 <= k <= s.len(),
    ensures
        nl_count(r, k) == nl_count(s, k),
    decreases k,
{
    if k > 0 {
        lemma_mask_lines(s, r, k - 1);
        assert(r[k - 1] == s[k - 1] || (s[k - 1] != '\n' && r[k - 1] == blank_of_width(spec_width(s[k - 1]))));
    }
}

proof fn lemma_kept_shapes(allow: Set<Seq<char>>, s: Seq<IssueView>)
    ensures
        kept_issues(allow, shapes(s)) == shapes(kept_issues(allow, s)),
    decreases s.len(),
{
    if s.len() > 0 {
        assert(shapes(s).drop_last() =~= shapes(s.drop_last()));
        lemma_kept_shapes(allow, s.drop_last());
        let rest = kept_issues(allow, s.drop_last());
        assert(shapes(rest.push(s.last())) =~= shapes(rest).push(shape(s.last())));
    } else {
        assert(shapes(s) =~= s);
    }
}

proof fn lemma_insert_shapes(s: Seq<IssueView>, x: IssueView)
    ensures
        insert_by_offset(shapes(s), shape(x)) == shapes(insert_by_offset(s, x)),
    decreases s.len(),
{
    if s.len() == 0 {
        assert(shapes(seq![x]) =~= seq![shape(x)]);
    } else {
        assert(shapes(s).drop_last() =~= shapes(s.drop_last()));
        assert(shapes(s).last() == shape(s.last()));
        if s.last().offset <= x.offset {
            assert(shapes(s.push(x)) =~= shapes(s).push(shape(x)));
        } else {
            lemma_insert_shapes(s.drop_last(), x);
            let t = insert_by_offset(s.drop_last(), x);
            assert(shapes(t.push(s.last())) =~= shapes(t).push(shape(s.last())));
        }
    }
}

proof fn lemma_sort_shapes(s: Seq<IssueView>)
    ensures
        sort_by_offset(shapes(s)) == shapes(sort_by_offset(s)),
    decreases s.len(),
{
    if s.len() == 0 {
        assert(shapes(s) =~= s);
    } else {
        assert(shapes(s).drop_last() =~= shapes(s.drop_last()));
        lemma_sort_shapes(s.drop_last());
        lemma_insert_shapes(sort_by_offset(s.drop_last()), s.last());
    }
}

/// The issues whose lowercased word is not in the allow set.
fn keep_allowed(allow: &StringHashMap<()>, issues: Vec<Issue>) -> (r: Vec<Issue>)
    ensures
        issue_views(r@) == kept_issues(allow@.dom(), issue_views(issues@)),
{
    let mut issues = issues;
    let ghost all = issue_views(issues@);
    let mut rev: Vec<Issue> = Vec::new();
    while issues.len() > 0
        invariant
            issue_views(issues@) + issue_views(rev@).reverse() == all,
        decreases issues@.len(),
    {
        let ghost before = issues@;
        let x = issues.pop().unwrap();
        proof {
            assert(issues@ == before.drop_last());
            assert(issue_views(rev@.push(x)).reverse() =~= seq![x@] + issue_views(rev@).reverse());
            assert(issue_views(before) =~= issue_views(issues@).push(x@));
            assert(issue_views(issues@) + issue_views(rev@.push(x)).reverse() =~= issue_views(before) + issue_views(rev@).reverse());
        }
        rev.push(x);
    }
    assert(issue_views(issues@) =~= Seq::<IssueView>::empty());
    assert(issue_views(rev@).reverse() =~= all);
    let mut out: Vec<Issue> = Vec::new();
    let ghost n = rev@.len();
    while rev.len() > 0
        invariant
            n == all.len(),
            rev@.len() <= n,
            issue_views(rev@).reverse() == all.skip(n - rev@.len()),
            issue_views(out@) == kept_issues(allow@.dom(), all.take(n - rev@.len())),
        decreases rev@.len(),
    {
        let ghost before = rev@;
        let x = rev.pop().unwrap();
        let ghost i = n - before.len();
        proof {
            assert(issue_views(before).reverse() =~= seq![x@] + issue_views(rev@).reverse());
            assert(all.skip(i)[0] == x@);
            assert(all[i] == x@);
            let rr = issue_views(rev@).reverse();
            assert((seq![x@] + rr).skip(1) =~= rr);
            assert(all.skip(i).skip(1) =~= all.skip(i + 1));
            assert(issue_views(rev@).reverse() =~= all.skip(i + 1));
            assert(all.take(i + 1).drop_last() =~= all.take(i));
            assert(all.take(i + 1).last() == x@);
        }
        let lower = lowercase(x.word.as_str());
        if !allow.contains_key(lower.as_str()) {
            out.push(x);
            proof {
                assert(issue_views(out@) =~= issue_views(out@.drop_last()).push(x@));
            }
        }
    }
    assert(all.take(n as int) =~= all);
    out
}

/// The issues stably sorted by offset.
fn sort_issues(issues: Vec<Issue>) -> (r: Vec<Issue>)
    ensures
        issue_views(r@) == sort_by_offset(issue_views(issues@)),
{
    let mut issues = issues;
    let ghost all = issue_views(issues@);
    let mut rev: Vec<Issue> = Vec::new();
    while issues.len() > 0
        invariant
            issue_views(issues@) + issue_views(rev@).reverse() == all,
        decreases issues@.len(),
    {
        let ghost before = issues@;
        let x = issues.pop().unwrap();
        proof {
            assert(issue_views(rev@.push(x)).reverse() =~= seq![x@] + issue_views(rev@).reverse());
            assert(issue_views(before) =~= issue_views(issues@).push(x@));
            assert(issue_views(issues@) + issue_views(rev@.push(x)).reverse() =~= issue_views(before) + issue_views(rev@).reverse());
        }
        rev.push(x);
    }
    assert(issue_views(issues@) =~= Seq::<IssueView>::empty());
    assert(issue_views(rev@).reverse() =~= all);
    let mut out: Vec<Issue> = Vec::new();
    let ghost n = rev@.len();
    while rev.len() > 0
        invariant
            n == all.len(),
            rev@.len() <= n,
            issue_views(rev@).reverse() == all.skip(n - rev@.len()),
            issue_views(out@) == sort_by_offset(all.take(n - rev@.len())),
        decreases rev@.len(),
    {
        let ghost before = rev@;
        let x = rev.pop().unwrap();
        let ghost i = n - before.len();
        proof {
            assert(issue_views(before).reverse() =~= seq![x@] + issue_views(rev@).reverse());
            assert(all.skip(i)[0] == x@);
            assert(all[i] == x@);
            let rr = issue_views(rev@).reverse();
            assert((seq![x@] + rr).skip(1) =~= rr);
            assert(all.skip(i).skip(1) =~= all.skip(i + 1));
            assert(issue_views(rev@).reverse() =~= all.skip(i + 1));
            assert(all.take(i + 1).drop_last() =~= all.take(i));
            assert(all.take(i + 1).last() == x@);
        }
        let ghost sorted = issue_views(out@);
        let mut p = out.len();
        assert(sorted.take(p as int) =~= sorted);
        assert(sorted.skip(p as int) =~= Seq::<IssueView>::empty());
        assert(insert_by_offset(sorted, x@) + Seq::<IssueView>::empty() =~= insert_by_offset(sorted, x@));
        while p > 0 && out[p - 1].offset > x.offset
            invariant
                0 <= p <= out@.len(),
                sorted == issue_views(out@),
                insert_by_offset(sorted, x@) == insert_by_offset(sorted.take(p as int), x@) + sorted.skip(p as int),
            decreases p,
        {
            proof {
                let t = sorted.take(p as int);
                assert(t.drop_last() =~= sorted.take(p - 1));
                assert(t.last() == sorted[p - 1]);
                assert(sorted.skip(p - 1) =~= seq![sorted[p - 1]] + sorted.skip(p as int));
                assert(insert_by_offset(t, x@) == insert_by_offset(sorted.take(p - 1), x@).push(sorted[p - 1]));
                assert(insert_by_offset(sorted.take(p - 1), x@).push(sorted[p - 1]) + sorted.skip(p as int)
                    =~= insert_by_offset(sorted.take(p - 1), x@) + sorted.skip(p - 1));
            }
            p -= 1;
        }
        proof {
            let t = sorted.take(p as int);
            if p == 0 {
                assert(t =~= Seq::<IssueView>::empty());
            } else {
                assert(t.last() == sorted[p - 1]);
                assert(t.drop_last().push(t.last()) =~= t);
            }
        }
        out.insert(p, x);
        proof {
            let t = sorted.take(p as int);
            assert(insert_by_offset(t, x@) =~= t.push(x@));
            assert(issue_views(out@) =~= t.push(x@) + sorted.skip(p as int));
        }
    }
    assert(all.take(n as int) =~= all);
    out
}


impl Checker {
    /// The findings of a checked (masked) text under the given settings.
    #[verifier::spinoff_prover]
    #[verifier::rlimit(60)]
    fn check_masked(&self, m: &str, mode: Mode, ja_on: bool, prose: bool) -> (r: Vec<Issue>)
        requires
            self.wf(),
            ja_on ==> self@.ja is Some,
            nl_count(m@, m@.len() as int) < u32::MAX,
        ensures
            shapes(issue_views(r@)) == checked_issues(self@, m@, mode, ja_on, prose),
            all_span(m@, 0, issue_views(r@)),
    {
        let n_bytes = str_byte_len(m);
        let cs = chars_of(m);
        let offs = byte_offsets(cs.as_slice());
        let want = ja_on && match &self.ja {
            Some(j) => j.wants_consistency(),
            None => false,
        };
        let ghost total = scan_from(self@, mode, ja_on, prose, want, m@, 0, 1, false, Seq::empty(), Seq::empty());
        let mut issues: Vec<Issue> = Vec::new();
        let mut occs: Vec<KatakanaOcc> = Vec::new();
        let mut a: usize = 0;
        let mut ln: u32 = 1;
        let mut skip = false;
        assert(shapes(issue_views(issues@)) =~= Seq::<IssueView>::empty());
        assert(occ_views(occs@) =~= Seq::<OccView>::empty());
        assert(issue_views(issues@) =~= Seq::<IssueView>::empty());
        while a < cs.len()
            invariant
                self.wf(),
                ja_on ==> self@.ja is Some,
                want == wants_consistency(self@, ja_on),
                cs@ == m@,
                n_bytes == byte_len(m@),
                offs@.len() == cs@.len() + 1,
                forall|i: int| 0 <= i <= cs@.len() ==> #[trigger] offs@[i] == byte_offset(cs@, i),
                nl_count(m@, m@.len() as int) < u32::MAX,
                0 <= a <= cs@.len(),
                a < cs@.len() ==> ln == nl_count(m@, a as int) + 1,
                all_span(m@, 0, issue_views(issues@)),
                all_occ(m@, 0, occ_views(occs@)),
                total == scan_from(
                    self@,
                    mode,
                    ja_on,
                    prose,
                    want,
                    m@,
                    a as int,
                    ln as int,
                    skip,
                    shapes(issue_views(issues@)),
                    occ_views(occs@),
                ),
            decreases cs@.len() - a,
        {
            let e = find_char(cs.as_slice(), '\n', a, cs.len());
            let ghost rest = cs@.subrange(a as int, cs@.len() as int);
            proof {
                lemma_find_char_from(rest, '\n', 0);
                assert forall|k: int| a <= k < e implies cs@[k] != '\n' by {
                    assert(rest[k - a] == cs@[k]);
                }
                lemma_nl_flat(cs@, a as int, e as int);
            }
            let b = if e < cs.len() {
                e + 1
            } else {
                cs.len()
            };
            proof {
                if e < cs@.len() {
                    assert(rest[e - a] == cs@[e as int]);
                    lemma_nl_count(cs@, b as int, cs@.len() as int);
                }
            }
            let mut t = b;
            while t > a && (cs[t - 1] == '\n' || cs[t - 1] == '\r')
                invariant
                    a <= t <= b <= cs@.len(),
                    content_end(cs@, a as int, b as int) == content_end(cs@, a as int, t as int),
                decreases t,
            {
                t -= 1;
            }
            proof {
                lemma_offset_mono(cs@, a as int, t as int);
                lemma_offset_mono(cs@, t as int, cs@.len() as int);
                assert(cs@.take(cs@.len() as int) =~= cs@);
            }
            let line = substr(m, offs[a], offs[t], Ghost(a as int), Ghost(t as int));
            let lo = offs[a];
            let ghost found = shapes(issue_views(issues@));
            let ghost os = occ_views(occs@);
            let ghost d = spec_directive(encode_utf8(line@));
            let ghost old_ln = ln as int;
            let ghost old_skip = skip;
            proof {
                assert(next_line_end(m@, a as int) == b as int);
                assert(content_end(m@, a as int, b as int) == t as int);
                assert(line@ == m@.subrange(a as int, content_end(m@, a as int, b as int)));
                assert(lo as int == byte_offset(m@, a as int) as int);
                assert(old_ln as u32 == ln);
            }
            if skip {
                skip = false;
            } else {
                match directive_of(line) {
                    Directive::IgnoreNextLine => {
                        skip = true;
                    },
                    Directive::IgnoreLine => {},
                    Directive::NoDirective => {
                        let ghost mid_before = issues@;
                        if mode != Mode::Off {
                            self.check_english(line, ln, lo, mode, &mut issues);
                        }
                        let ghost mid = issues@;
                        let ghost mid_os = occs@;
                        if ja_on {
                            match &self.ja {
                                Some(j) => {
                                    if want {
                                        j.check_line(line, ln, lo, prose, &mut issues, Some(&mut occs));
                                    } else {
                                        j.check_line(line, ln, lo, prose, &mut issues, None);
                                    }
                                    proof {
                                        let l = line_issues(j@, line@, ln, lo as int, prose);
                                        assert(shapes(issue_views(mid) + l) =~= shapes(issue_views(mid)) + shapes(l));
                                    }
                                },
                                None => {},
                            }
                        }
                        proof {
                            assert(ja_on ==> rules_span((self@.ja->0).rules, line@));
                            assert(byte_len(m@) <= usize::MAX);
                            lemma_findings_span(self@, mode, ja_on, prose, want, m@, a as int, t as int, ln);
                            lemma_shapes_span(m@, 0, issue_views(mid_before));
                            assert(shapes(issue_views(issues@)) =~= found + line_findings(
                                self@,
                                mode,
                                ja_on,
                                prose,
                                line@,
                                ln,
                                lo as int,
                            ));
                            assert(occ_views(occs@) =~= os + line_occs(self@, ja_on, want, line@, ln, lo as int));
                            lemma_concat(m@, 0, found, line_findings(self@, mode, ja_on, prose, line@, ln, lo as int));
                            lemma_unshape(m@, 0, issue_views(issues@));
                            lemma_concat_occ(m@, 0, os, line_occs(self@, ja_on, want, line@, ln, lo as int));
                        }
                    },
                }
            }
            proof {
                let nxt = scan_from(self@, mode, ja_on, prose, want, m@, b as int, old_ln + 1, skip, shapes(issue_views(issues@)), occ_views(occs@));
                if old_skip {
                    assert(total == nxt);
                } else if d == Directive::IgnoreNextLine {
                    assert(total == nxt);
                } else if d == Directive::IgnoreLine {
                    assert(total == nxt);
                } else {
                    assert(total == nxt);
                }
                if b >= cs@.len() {
                    assert(nxt == scan_from(self@, mode, ja_on, prose, want, m@, b as int, old_ln, skip, shapes(issue_views(issues@)), occ_views(occs@)));
                }
            }
            if b < cs.len() {
                ln = ln + 1;
            }
            a = b;
        }
        let ghost scanned = issues@;
        if want {
            let mut more = consistency_issues(&occs);
            issues.append(&mut more);
        }
        let ghost after_consistency = issues@;
        if ja_on {
            match &self.ja {
                Some(j) => {
                    let mut more = j.document_issues(m);
                    issues.append(&mut more);
                },
                None => {},
            }
        }
        proof {
            let c = if want {
                spec_consistency_issues(occ_views(occs@))
            } else {
                Seq::empty()
            };
            let dd = if ja_on {
                spec_document_issues(self@.ja->0, m@)
            } else {
                Seq::empty()
            };
            assert(issue_views(after_consistency) =~= issue_views(scanned) + c);
            assert(issue_views(issues@) =~= issue_views(scanned) + c + dd);
            assert(shapes(issue_views(scanned) + c + dd) =~= shapes(issue_views(scanned)) + shapes(c) + shapes(dd));
            assert(shapes(c) =~= (if want {
                shapes(spec_consistency_issues(occ_views(occs@)))
            } else {
                Seq::empty()
            }));
            assert(shapes(dd) =~= (if ja_on {
                shapes(spec_document_issues(self@.ja->0, m@))
            } else {
                Seq::empty()
            }));
        }
        proof {
            let c = if want {
                spec_consistency_issues(occ_views(occs@))
            } else {
                Seq::empty()
            };
            let dd = if ja_on {
                spec_document_issues(self@.ja->0, m@)
            } else {
                Seq::empty()
            };
            assert(byte_len(m@) <= usize::MAX);
            lemma_consistency_spans(m@, occ_views(occs@), occ_views(occs@).len() as int);
            lemma_document_spans(self@.ja->0, m@);
            assert(all_span(m@, 0, Seq::<IssueView>::empty()));
            assert(all_span(m@, 0, c));
            assert(all_span(m@, 0, dd));
            lemma_concat(m@, 0, issue_views(scanned), c);
            lemma_concat(m@, 0, issue_views(scanned) + c, dd);
        }
        let ghost all = issue_views(issues@);
        let kept = keep_allowed(&self.allow, issues);
        let sorted = sort_issues(kept);
        proof {
            lemma_kept_shapes(self@.allow, all);
            lemma_sort_shapes(kept_issues(self@.allow, all));
            let p = |x: IssueView| spans_at(m@, 0, x);
            assert(all_issues(all, p)) by {
                assert forall|k: int| 0 <= k < all.len() implies #[trigger] p(all[k]) by {
                    assert(spans_at(m@, 0, all[k]));
                }
            }
            lemma_kept_keeps(self@.allow, all, p);
            lemma_sort_keeps(kept_issues(self@.allow, all), p);
            let r = issue_views(sorted@);
            assert forall|k: int| 0 <= k < r.len() implies spans_at(m@, 0, #[trigger] r[k]) by {
                assert(p(r[k]));
            }
        }
        sorted
    }
}


pub open spec fn opt_seq(o: Option<&str>) -> Option<Seq<char>> {
    match o {
        Some(e) => Some(e@),
        None => None,
    }
}

/// What checking `text` gives, an unknown word's suggestions left out, for
/// a file whose path matches the overrides marked in `matches` and has the
/// extension `ext`: nothing when every check is off or the text holds
/// `ayame-spell:ignore-file`; otherwise the findings of the text with the
/// syntax profile's parts masked (nothing masked under the `all` profile,
/// nor without an extension unless the profile is `source`). Every finding
/// covers characters of the checked text: its offset and end are their
/// byte offsets and its word is their text.
pub open spec fn check_result(
    v: CheckerView,
    text: Seq<char>,
    matches: Seq<bool>,
    ext: Option<Seq<char>>,
    r: Seq<IssueView>,
) -> bool {
    let (mode, profile, j) = effective_fold(v, matches, matches.len() as int);
    let ja_on = j && v.ja is Some;
    let prose = match ext {
        Some(e) => prose_extensions().contains(lower_seq(e)),
        None => false,
    };
    if mode == Mode::Off && !ja_on {
        r == Seq::<IssueView>::empty()
    } else if first_occurrence(encode_utf8(text), encode_utf8("ayame-spell:ignore-file"@)) is Some {
        r == Seq::<IssueView>::empty()
    } else {
        let m = masked_text(text, ext, profile);
        r == checked_issues(v, m, mode, ja_on, prose) && all_span(m, 0, r)
    }
}

/// The characters a mask puts in place of masked text.
pub open spec fn is_blank(c: char) -> bool {
    c == ' ' || c == '\u{00a0}' || c == '\u{2003}' || c == '\u{10000}'
}

/// `x` names characters `text[i..j]` of the input: its offset and end are
/// their byte offsets, its word has as many characters, and a word with no
/// blank in it is exactly the text there.
pub open spec fn names_text(text: Seq<char>, x: IssueView) -> bool {
    exists|i: int, j: int|
        #![trigger text.subrange(i, j)]
        0 <= i <= j <= text.len() && x.offset == byte_offset(text, i) && x.offset + x.len
            == byte_offset(text, j) && x.word.len() == j - i && ((forall|t: int|
            0 <= t < x.word.len() ==> !is_blank(#[trigger] x.word[t])) ==> x.word == text.subrange(i, j))
}

/// A mask keeps the byte offset of every character.
pub proof fn lemma_mask_offset(s: Seq<char>, r: Seq<char>, i: int)
    requires
        masks(s, r),
        0 <= i <= s.len(),
    ensures
        byte_offset(r, i) == byte_offset(s, i),
{
    assert(masks(s.take(i), r.take(i))) by {
        assert forall|k: int| 0 <= k < s.take(i).len() implies #[trigger] r.take(i)[k] == s.take(i)[k] || (
        s.take(i)[k] != '\n' && s.take(i)[k] != '\r' && r.take(i)[k] == blank_of_width(
            spec_width(s.take(i)[k]),
        )) by {
            assert(r.take(i)[k] == r[k] && s.take(i)[k] == s[k]);
        }
    }
    crate::syntax::law_mask_keeps_length(s.take(i), r.take(i));
}

/// A finding that covers characters of the masked text names characters
/// of the input text.
pub proof fn lemma_masked_span_names_text(s: Seq<char>, r: Seq<char>, x: IssueView)
    requires
        masks(s, r),
        spans(r, x),
    ensures
        names_text(s, x),
{
    let (i, j) = choose|i: int, j: int|
        #![trigger r.subrange(i, j)]
        0 <= i <= j <= r.len() && x.offset == byte_offset(r, i) && x.offset + x.len == byte_offset(r, j)
            && x.word == r.subrange(i, j);
    lemma_mask_offset(s, r, i);
    lemma_mask_offset(s, r, j);
    if forall|t: int| 0 <= t < x.word.len() ==> !is_blank(#[trigger] x.word[t]) {
        assert forall|t: int| 0 <= t < j - i implies x.word[t] == #[trigger] s.subrange(i, j)[t] by {
            assert(x.word[t] == r[i + t]);
            assert(!is_blank(x.word[t]));
            assert(r[i + t] == s[i + t] || r[i + t] == blank_of_width(spec_width(s[i + t])));
        }
        assert(x.word =~= s.subrange(i, j));
    }
    assert(s.subrange(i, j) == s.subrange(i, j));
}

impl Checker {
    /// Check a text, given which overrides match its path and its
    /// extension.
    pub fn check_with(&self, text: &str, matches: &Vec<bool>, extension: Option<&str>) -> (r: Vec<Issue>)
        requires
            self.wf(),
            matches@.len() == self@.overrides.len(),
            nl_count(text@, text@.len() as int) < u32::MAX,
        ensures
            check_result(self@, text@, matches@, opt_seq(extension), shapes(issue_views(r@))),
            forall|k: int|
                0 <= k < r@.len() ==> names_text(text@, #[trigger] shapes(issue_views(r@))[k]),
    {
        let eff = self.effective(matches, extension);
        if eff.mode == Mode::Off && !eff.japanese {
            let r: Vec<Issue> = Vec::new();
            assert(shapes(issue_views(r@)) =~= Seq::<IssueView>::empty());
            return r;
        }
        if memmem_find(text.as_bytes(), "ayame-spell:ignore-file".as_bytes()).is_some() {
            let r: Vec<Issue> = Vec::new();
            assert(shapes(issue_views(r@)) =~= Seq::<IssueView>::empty());
            return r;
        }
        let masked = crate::syntax::mask(text, extension, eff.profile);
        proof {
            lemma_mask_lines(text@, masked@, text@.len() as int);
        }
        let r = self.check_masked(masked.as_str(), eff.mode, eff.japanese, eff.prose);
        proof {
            lemma_shapes_span(masked@, 0, issue_views(r@));
            let (mode, profile, j) = effective_fold(self@, matches@, matches@.len() as int);
            assert(masks(text@, masked@));
            assert(extension is None ==> opt_seq(extension) is None);
            assert forall|k: int| 0 <= k < r@.len() implies names_text(text@, #[trigger] shapes(issue_views(r@))[k]) by {
                assert(spans_at(masked@, 0, shapes(issue_views(r@))[k]));
                lemma_masked_span_names_text(text@, masked@, shapes(issue_views(r@))[k]);
            }
        }
        r
    }

    /// Check a text. `path` (relative to the project root) selects the
    /// overrides that apply and the prose/code distinction.
    pub fn check(&self, text: &str, path: Option<&str>) -> (r: Vec<Issue>)
        requires
            self.wf(),
            nl_count(text@, text@.len() as int) < u32::MAX,
        ensures
            path is None ==> check_result(
                self@,
                text@,
                Seq::new(self@.overrides.len(), |i: int| false),
                None,
                shapes(issue_views(r@)),
            ),
            exists|ms: Seq<bool>, e: Option<Seq<char>>|
                ms.len() == self@.overrides.len() && #[trigger] check_result(self@, text@, ms, e, shapes(issue_views(r@))),
            forall|k: int|
                0 <= k < r@.len() ==> names_text(text@, #[trigger] shapes(issue_views(r@))[k]),
            path is Some && plain_path(path->0@) ==> check_result(
                self@,
                text@,
                Seq::new(self@.overrides.len(), |i: int| globs_hit(self@.overrides[i].0, path->0@)),
                name_extension(file_name_of(path->0@)),
                shapes(issue_views(r@)),
            ),
    {
        let mut matches: Vec<bool> = Vec::new();
        let mut i: usize = 0;
        while i < self.overrides.len()
            invariant
                0 <= i <= self@.overrides.len(),
                matches@.len() == i,
                path is None ==> matches@ == Seq::new(i as nat, |k: int| false),
                path is Some && plain_path(path->0@) ==> forall|k: int|
                    0 <= k < i ==> #[trigger] matches@[k] == globs_hit(self@.overrides[k].0, path->0@),
            decreases self@.overrides.len() - i,
        {
            let hit = match path {
                Some(p) => globs_match(&self.overrides[i].paths, p),
                None => false,
            };
            matches.push(hit);
            proof {
                if path is None {
                    assert(matches@ =~= Seq::new((i + 1) as nat, |k: int| false));
                }
                assert(self@.overrides[i as int].0 == self.overrides@[i as int].paths.deep_view());
            }
            i += 1;
        }
        let ext = match path {
            Some(p) => path_extension(p),
            None => None,
        };
        let r = match &ext {
            Some(e) => self.check_with(text, &matches, Some(e.as_str())),
            None => self.check_with(text, &matches, None),
        };
        proof {
            let e = match ext {
                Some(x) => Some(x@),
                None => None,
            };
            assert(check_result(self@, text@, matches@, e, shapes(issue_views(r@))));
            if path is Some && plain_path(path->0@) {
                assert(matches@ =~= Seq::new(
                    self@.overrides.len(),
                    |i: int| globs_hit(self@.overrides[i].0, path->0@),
                ));
            }
        }
        r
    }
}


/// Every issue satisfies `p`.
pub open spec fn all_issues(s: Seq<IssueView>, p: spec_fn(IssueView) -> bool) -> bool {
    forall|k: int| 0 <= k < s.len() ==> #[trigger] p(s[k])
}

/// Offsets never decrease.
pub open spec fn sorted_by_offset(s: Seq<IssueView>) -> bool {
    forall|i: int, j: int| 0 <= i < j < s.len() ==> s[i].offset <= s[j].offset
}

proof fn lemma_insert_keeps(s: Seq<IssueView>, x: IssueView, p: spec_fn(IssueView) -> bool)
    requires
        all_issues(s, p),
        p(x),
    ensures
        all_issues(insert_by_offset(s, x), p),
        insert_by_offset(s, x).len() == s.len() + 1,
    decreases s.len(),
{
    if s.len() > 0 && s.last().offset > x.offset {
        let d = s.drop_last();
        assert(all_issues(d, p)) by {
            assert forall|k: int| 0 <= k < d.len() implies #[trigger] p(d[k]) by {
                assert(d[k] == s[k]);
            }
        }
        assert(p(s[s.len() - 1]));
        lemma_insert_keeps(d, x, p);
    } else if s.len() > 0 {
        assert(p(s.push(x)[s.len() as int]));
    } else {
        assert(seq![x][0] == x);
    }
}

proof fn lemma_sort_keeps(s: Seq<IssueView>, p: spec_fn(IssueView) -> bool)
    requires
        all_issues(s, p),
    ensures
        all_issues(sort_by_offset(s), p),
        sort_by_offset(s).len() == s.len(),
    decreases s.len(),
{
    if s.len() > 0 {
        let d = s.drop_last();
        assert(all_issues(d, p)) by {
            assert forall|k: int| 0 <= k < d.len() implies #[trigger] p(d[k]) by {
                assert(d[k] == s[k]);
            }
        }
        assert(p(s[s.len() - 1]));
        lemma_sort_keeps(d, p);
        lemma_insert_keeps(sort_by_offset(d), s.last(), p);
    }
}

proof fn lemma_insert_sorted(s: Seq<IssueView>, x: IssueView)
    requires
        sorted_by_offset(s),
    ensures
        sorted_by_offset(insert_by_offset(s, x)),
    decreases s.len(),
{
    if s.len() > 0 {
        let last = s.last();
        if last.offset <= x.offset {
            let r = s.push(x);
            assert forall|i: int, j: int| 0 <= i < j < r.len() implies r[i].offset <= r[j].offset by {
                if j == s.len() {
                    assert(s[i].offset <= last.offset);
                }
            }
        } else {
            let d = s.drop_last();
            assert(sorted_by_offset(d));
            lemma_insert_sorted(d, x);
            let bound = |y: IssueView| y.offset <= last.offset;
            assert(all_issues(d, bound)) by {
                assert forall|k: int| 0 <= k < d.len() implies #[trigger] bound(d[k]) by {
                    assert(d[k] == s[k]);
                }
            }
            lemma_insert_keeps(d, x, bound);
            let t = insert_by_offset(d, x);
            let r = t.push(last);
            assert forall|i: int, j: int| 0 <= i < j < r.len() implies r[i].offset <= r[j].offset by {
                if j == t.len() {
                    assert(bound(t[i]));
                }
            }
        }
    }
}

proof fn lemma_sort_sorted(s: Seq<IssueView>)
    ensures
        sorted_by_offset(sort_by_offset(s)),
    decreases s.len(),
{
    if s.len() > 0 {
        lemma_sort_sorted(s.drop_last());
        lemma_insert_sorted(sort_by_offset(s.drop_last()), s.last());
    }
}

proof fn lemma_kept_keeps(allow: Set<Seq<char>>, s: Seq<IssueView>, p: spec_fn(IssueView) -> bool)
    requires
        all_issues(s, p),
    ensures
        all_issues(kept_issues(allow, s), p),
    decreases s.len(),
{
    if s.len() > 0 {
        let d = s.drop_last();
        assert(all_issues(d, p)) by {
            assert forall|k: int| 0 <= k < d.len() implies #[trigger] p(d[k]) by {
                assert(d[k] == s[k]);
            }
        }
        assert(p(s[s.len() - 1]));
        lemma_kept_keeps(allow, d, p);
        let r = kept_issues(allow, d);
        let t = r.push(s.last());
        assert forall|k: int| 0 <= k < t.len() implies #[trigger] p(t[k]) by {
            if k < r.len() {
                assert(t[k] == r[k]);
            }
        }
    }
}

proof fn lemma_kept_allowed(allow: Set<Seq<char>>, s: Seq<IssueView>)
    ensures
        all_issues(kept_issues(allow, s), |y: IssueView| !allow.contains(unicode_lowercase(y.word))),
    decreases s.len(),
{
    if s.len() > 0 {
        lemma_kept_allowed(allow, s.drop_last());
        let r = kept_issues(allow, s.drop_last());
        if !allow.contains(unicode_lowercase(s.last().word)) {
            let t = r.push(s.last());
            assert forall|k: int| 0 <= k < t.len() implies !allow.contains(unicode_lowercase(#[trigger] t[k].word)) by {
                let p = |y: IssueView| !allow.contains(unicode_lowercase(y.word));
                if k < r.len() {
                    assert(t[k] == r[k]);
                    assert(p(r[k]));
                }
            }
        }
    }
}

/// The findings of a check come in offset order, and none is for a word
/// of the allow set (compared lowercased).
pub proof fn law_findings_sorted_and_allowed(v: CheckerView, s: Seq<char>, mode: Mode, ja_on: bool, prose: bool)
    ensures
        sorted_by_offset(checked_issues(v, s, mode, ja_on, prose)),
        forall|k: int|
            0 <= k < checked_issues(v, s, mode, ja_on, prose).len() ==> !v.allow.contains(
                unicode_lowercase(#[trigger] checked_issues(v, s, mode, ja_on, prose)[k].word),
            ),
{
    let want = wants_consistency(v, ja_on);
    let scanned = scan_from(v, mode, ja_on, prose, want, s, 0, 1, false, Seq::empty(), Seq::empty());
    let all = scanned.0 + (if want {
        shapes(spec_consistency_issues(scanned.1))
    } else {
        Seq::empty()
    }) + (if ja_on {
        shapes(spec_document_issues(v.ja->0, s))
    } else {
        Seq::empty()
    });
    let kept = kept_issues(v.allow, all);
    lemma_sort_sorted(kept);
    let p = |y: IssueView| !v.allow.contains(unicode_lowercase(y.word));
    lemma_kept_allowed(v.allow, all);
    lemma_sort_keeps(kept, p);
    let r = checked_issues(v, s, mode, ja_on, prose);
    assert(r == sort_by_offset(kept));
    assert forall|k: int| 0 <= k < r.len() implies !v.allow.contains(unicode_lowercase(#[trigger] r[k].word)) by {
        assert(p(r[k]));
    }
}

} // verus!
