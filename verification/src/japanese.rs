//! Japanese notation checks: katakana variants (表記ゆれ), fullwidth
//! alphanumerics, halfwidth katakana, fullwidth spaces, compatibility
//! characters, and document-level consistency of kanji spellings, numbers
//! and punctuation.
//!
//! Katakana handling is quiet by default: [`KatakanaStyle::Consistency`]
//! flags nothing on a single line and only reports when one document mixes
//! two spellings of the same word (サーバ vs サーバー), suggesting the
//! majority form. The explicit `long` and `short` styles enforce a direction
//! with a curated pair table.
use vstd::prelude::*;
use vstd::hash_map::StringHashMap;

use unicode_normalization::UnicodeNormalization;

use crate::issue::{Issue, IssueKind, IssueView};
use crate::documents::{get_value, parse_toml, string_value, text_of, toml_value, value_at};
use crate::validate::ConfigValue;
use crate::text::{
    byte_len, byte_offset, str_byte_len, byte_offsets, chars_of, lemma_offset_mono, parse_tab_pairs, push_char, split_lines, str_eq,
    string_from_chars, string_from_range, tab_pairs, to_owned,
};

use crate::spans::{all_occ, all_span, char_span, lemma_document_spans, lemma_line_spans, rules_span};

verus! {

#[derive(Debug, Clone, Copy, PartialEq, Eq, Structural)]
pub enum KatakanaStyle {
    /// Flag only intra-document inconsistencies (default).
    Consistency,
    /// Enforce trailing long vowels: サーバ → サーバー.
    Long,
    /// Enforce omitted trailing long vowels: サーバー → サーバ.
    Short,
    Off,
}

impl Default for KatakanaStyle {
    fn default() -> (r: Self)
        ensures
            r == KatakanaStyle::Consistency,
    {
        KatakanaStyle::Consistency
    }
}

#[derive(Debug, Clone, Copy, PartialEq, Eq, Structural)]
pub enum SpacePolicy {
    /// Flag U+3000 except in prose files (default).
    Code,
    Always,
    Never,
}

impl Default for SpacePolicy {
    fn default() -> (r: Self)
        ensures
            r == SpacePolicy::Code,
    {
        SpacePolicy::Code
    }
}

#[derive(Debug, Clone, Copy)]
pub struct JapaneseOptions {
    pub flag_fullwidth_alnum: bool,
    pub flag_halfwidth_kana: bool,
    pub flag_compatibility: bool,
    pub kanji_consistency: bool,
    pub number_consistency: bool,
    pub punctuation_consistency: bool,
    pub fullwidth_space: SpacePolicy,
}

impl Default for JapaneseOptions {
    fn default() -> (r: Self)
        ensures
            r.flag_fullwidth_alnum && r.flag_halfwidth_kana && r.flag_compatibility,
            r.kanji_consistency && r.number_consistency && r.punctuation_consistency,
            r.fullwidth_space == SpacePolicy::Code,
    {
        JapaneseOptions {
            flag_fullwidth_alnum: true,
            flag_halfwidth_kana: true,
            flag_compatibility: true,
            kanji_consistency: true,
            number_consistency: true,
            punctuation_consistency: true,
            fullwidth_space: SpacePolicy::Code,
        }
    }
}

/// Curated pairs of trailing-long-vowel variants: `short<TAB>long`.
pub const KATAKANA_PAIRS: &'static str = "# short\tlong
アダプタ\tアダプター
インタプリタ\tインタプリター
エディタ\tエディター
コンテナ\tコンテナー
コントローラ\tコントローラー
コンパイラ\tコンパイラー
コンピュータ\tコンピューター
サーバ\tサーバー
スキャナ\tスキャナー
セレクタ\tセレクター
ドライバ\tドライバー
バッファ\tバッファー
パラメータ\tパラメーター
フィルタ\tフィルター
フォルダ\tフォルダー
プリンタ\tプリンター
ブラウザ\tブラウザー
プロバイダ\tプロバイダー
ヘッダ\tヘッダー
マネージャ\tマネージャー
メモリ\tメモリー
ユーザ\tユーザー
ルータ\tルーター
レイヤ\tレイヤー
";

/// The katakana pair table, as (short, long) pairs.
pub open spec fn katakana_pairs() -> Seq<(Seq<char>, Seq<char>)> {
    tab_pairs(split_lines(KATAKANA_PAIRS@))
}

/// The variant map built from pairs: every `from` form maps to its `to`
/// form; with `long`, short forms map to long ones, else the reverse.
pub open spec fn pairs_map(ps: Seq<(Seq<char>, Seq<char>)>, long: bool) -> Map<Seq<char>, Seq<char>>
    decreases ps.len(),
{
    if ps.len() == 0 {
        Map::empty()
    } else {
        let p = ps.last();
        if long {
            pairs_map(ps.drop_last(), long).insert(p.0, p.1)
        } else {
            pairs_map(ps.drop_last(), long).insert(p.1, p.0)
        }
    }
}

/// The variant map of a style.
pub open spec fn style_variants(style: KatakanaStyle) -> Map<Seq<char>, Seq<char>> {
    match style {
        KatakanaStyle::Long => pairs_map(katakana_pairs(), true),
        KatakanaStyle::Short => pairs_map(katakana_pairs(), false),
        _ => Map::empty(),
    }
}

/// The kanji spelling pairs checked for document consistency:
/// (variant, preferred).
pub open spec fn kanji_pairs() -> Seq<(Seq<char>, Seq<char>)> {
    seq![
        ("お問合せ"@, "お問い合わせ"@),
        ("取扱い"@, "取り扱い"@),
        ("子供"@, "子ども"@),
        ("引続き"@, "引き続き"@),
        ("行なう"@, "行う"@),
        ("表わす"@, "表す"@),
        ("読替える"@, "読み替える"@),
        ("問い合せ"@, "問い合わせ"@),
    ]
}

fn kanji_pair_table() -> (r: Vec<(&'static str, &'static str)>)
    ensures
        r@.len() == kanji_pairs().len(),
        forall|k: int|
            0 <= k < r@.len() ==> (#[trigger] r@[k]).0@ == kanji_pairs()[k].0 && r@[k].1@
                == kanji_pairs()[k].1,
{
    let r = vec![
        ("お問合せ", "お問い合わせ"),
        ("取扱い", "取り扱い"),
        ("子供", "子ども"),
        ("引続き", "引き続き"),
        ("行なう", "行う"),
        ("表わす", "表す"),
        ("読替える", "読み替える"),
        ("問い合せ", "問い合わせ"),
    ];
    r
}

/// A prh-style rule: a regular expression and its replacement template.
pub struct RegexRule {
    pub pattern: String,
    pub replacement: String,
}

/// One katakana word occurrence, collected for the document-level
/// consistency check.
#[derive(Debug)]
pub struct KatakanaOcc {
    pub form: String,
    pub line: u32,
    pub col: usize,
    pub offset: usize,
}

pub struct JapaneseChecker {
    /// variant → preferred form.
    variants: StringHashMap<String>,
    regex_rules: Vec<RegexRule>,
    pub style: KatakanaStyle,
    pub flag_fullwidth_alnum: bool,
    pub flag_halfwidth_kana: bool,
    pub flag_compatibility: bool,
    pub kanji_consistency: bool,
    pub number_consistency: bool,
    pub punctuation_consistency: bool,
    pub fullwidth_space: SpacePolicy,
}

// ---------------------------------------------------------------------------
// Character classes and conversion tables
// ---------------------------------------------------------------------------

pub open spec fn is_katakana(c: char) -> bool {
    let u = c as u32;
    (0x30A1 <= u <= 0x30FA) || (0x30FC <= u <= 0x30FE)
}

pub open spec fn is_halfwidth_kana(c: char) -> bool {
    0xFF61 <= c as u32 <= 0xFF9F
}

pub open spec fn is_compatibility_character(c: char) -> bool {
    let u = c as u32;
    (0x2100 <= u <= 0x214F) || (0x3300 <= u <= 0x33FF)
}

fn katakana(c: char) -> (r: bool)
    ensures
        r == is_katakana(c),
{
    let u = c as u32;
    (0x30A1 <= u && u <= 0x30FA) || (0x30FC <= u && u <= 0x30FE)
}

fn halfwidth_kana(c: char) -> (r: bool)
    ensures
        r == is_halfwidth_kana(c),
{
    let u = c as u32;
    0xFF61 <= u && u <= 0xFF9F
}

fn compatibility_character(c: char) -> (r: bool)
    ensures
        r == is_compatibility_character(c),
{
    let u = c as u32;
    (0x2100 <= u && u <= 0x214F) || (0x3300 <= u && u <= 0x33FF)
}

/// The ASCII letter or digit of a fullwidth one.
pub open spec fn spec_fullwidth_alnum(c: char) -> Option<char> {
    let u = c as u32;
    if (0xFF10 <= u <= 0xFF19) || (0xFF21 <= u <= 0xFF3A) || (0xFF41 <= u <= 0xFF5A) {
        Some(((u - 0xFEE0) as u8) as char)
    } else {
        None
    }
}

fn fullwidth_alnum(c: char) -> (r: Option<char>)
    ensures
        r == spec_fullwidth_alnum(c),
{
    let u = c as u32;
    if (0xFF10 <= u && u <= 0xFF19) || (0xFF21 <= u && u <= 0xFF3A) || (0xFF41 <= u && u
        <= 0xFF5A) {
        Some(((u - 0xFEE0) as u8) as char)
    } else {
        None
    }
}

/// Fullwidth forms of the halfwidth block U+FF61..U+FF9F, in code order.
pub const HALFWIDTH_FORMS: &'static str = "。「」、・ヲァィゥェォャュョッーアイウエオカキクケコサシスセソタチツテトナニヌネノハヒフヘホマミムメモヤユヨラリルレロワン゛゜";

pub proof fn lemma_halfwidth_forms_len()
    ensures
        HALFWIDTH_FORMS@.len() == 63,
{
    reveal_strlit("。「」、・ヲァィゥェォャュョッーアイウエオカキクケコサシスセソタチツテトナニヌネノハヒフヘホマミムメモヤユヨラリルレロワン゛゜");
}

/// The fullwidth form of a halfwidth character; other characters are kept.
pub open spec fn spec_base_kana(c: char) -> char {
    if is_halfwidth_kana(c) {
        HALFWIDTH_FORMS@[(c as u32 - 0xFF61) as int]
    } else {
        c
    }
}

fn base_kana(table: &Vec<char>, c: char) -> (r: char)
    requires
        table@ == HALFWIDTH_FORMS@,
    ensures
        r == spec_base_kana(c),
{
    proof {
        lemma_halfwidth_forms_len();
    }
    if halfwidth_kana(c) {
        table[(c as u32 - 0xFF61) as usize]
    } else {
        c
    }
}

/// The voiced (dakuten) fullwidth form of a halfwidth kana.
pub open spec fn spec_voiced(c: char) -> Option<char> {
    match c {
        'ｳ' => Some('ヴ'),
        'ｶ' => Some('ガ'),
        'ｷ' => Some('ギ'),
        'ｸ' => Some('グ'),
        'ｹ' => Some('ゲ'),
        'ｺ' => Some('ゴ'),
        'ｻ' => Some('ザ'),
        'ｼ' => Some('ジ'),
        'ｽ' => Some('ズ'),
        'ｾ' => Some('ゼ'),
        'ｿ' => Some('ゾ'),
        'ﾀ' => Some('ダ'),
        'ﾁ' => Some('ヂ'),
        'ﾂ' => Some('ヅ'),
        'ﾃ' => Some('デ'),
        'ﾄ' => Some('ド'),
        'ﾊ' => Some('バ'),
        'ﾋ' => Some('ビ'),
        'ﾌ' => Some('ブ'),
        'ﾍ' => Some('ベ'),
        'ﾎ' => Some('ボ'),
        _ => None,
    }
}

fn voiced(c: char) -> (r: Option<char>)
    ensures
        r == spec_voiced(c),
{
    match c {
        'ｳ' => Some('ヴ'),
        'ｶ' => Some('ガ'),
        'ｷ' => Some('ギ'),
        'ｸ' => Some('グ'),
        'ｹ' => Some('ゲ'),
        'ｺ' => Some('ゴ'),
        'ｻ' => Some('ザ'),
        'ｼ' => Some('ジ'),
        'ｽ' => Some('ズ'),
        'ｾ' => Some('ゼ'),
        'ｿ' => Some('ゾ'),
        'ﾀ' => Some('ダ'),
        'ﾁ' => Some('ヂ'),
        'ﾂ' => Some('ヅ'),
        'ﾃ' => Some('デ'),
        'ﾄ' => Some('ド'),
        'ﾊ' => Some('バ'),
        'ﾋ' => Some('ビ'),
        'ﾌ' => Some('ブ'),
        'ﾍ' => Some('ベ'),
        'ﾎ' => Some('ボ'),
        _ => None,
    }
}

/// The semi-voiced (handakuten) fullwidth form of a halfwidth kana.
pub open spec fn spec_semi_voiced(c: char) -> Option<char> {
    match c {
        'ﾊ' => Some('パ'),
        'ﾋ' => Some('ピ'),
        'ﾌ' => Some('プ'),
        'ﾍ' => Some('ペ'),
        'ﾎ' => Some('ポ'),
        _ => None,
    }
}

fn semi_voiced(c: char) -> (r: Option<char>)
    ensures
        r == spec_semi_voiced(c),
{
    match c {
        'ﾊ' => Some('パ'),
        'ﾋ' => Some('ピ'),
        'ﾌ' => Some('プ'),
        'ﾍ' => Some('ペ'),
        'ﾎ' => Some('ポ'),
        _ => None,
    }
}

/// Halfwidth kana converted to fullwidth, a kana followed by ﾞ or ﾟ merged
/// into its voiced or semi-voiced form.
pub open spec fn spec_halfwidth_to_fullwidth(s: Seq<char>) -> Seq<char>
    decreases s.len(),
{
    if s.len() == 0 {
        Seq::empty()
    } else if s.len() >= 2 && s[1] == '\u{FF9E}' && spec_voiced(s[0]) is Some {
        seq![spec_voiced(s[0])->0] + spec_halfwidth_to_fullwidth(s.skip(2))
    } else if s.len() >= 2 && s[1] == '\u{FF9F}' && spec_semi_voiced(s[0]) is Some {
        seq![spec_semi_voiced(s[0])->0] + spec_halfwidth_to_fullwidth(s.skip(2))
    } else {
        seq![spec_base_kana(s[0])] + spec_halfwidth_to_fullwidth(s.skip(1))
    }
}

/// No form that conversion produces is itself a halfwidth form.
proof fn lemma_converted_forms_fullwidth(c: char)
    ensures
        !is_halfwidth_kana(spec_base_kana(c)),
        spec_voiced(c) matches Some(v) ==> !is_halfwidth_kana(v),
        spec_semi_voiced(c) matches Some(v) ==> !is_halfwidth_kana(v),
{
    if is_halfwidth_kana(c) {
        lemma_halfwidth_forms_len();
        reveal_strlit("。「」、・ヲァィゥェォャュョッーアイウエオカキクケコサシスセソタチツテトナニヌネノハヒフヘホマミムメモヤユヨラリルレロワン゛゜");
        let k = (c as u32 - 0xFF61) as int;
        assert(0 <= k < 63);
        assert(!is_halfwidth_kana(HALFWIDTH_FORMS@[k]));
    }
}

/// Converting leaves no halfwidth form, never lengthens the text, and
/// keeps a text without halfwidth forms as it is; so converting twice is
/// converting once.
pub proof fn law_halfwidth_conversion(s: Seq<char>)
    ensures
        forall|i: int|
            0 <= i < spec_halfwidth_to_fullwidth(s).len() ==> !is_halfwidth_kana(
                #[trigger] spec_halfwidth_to_fullwidth(s)[i],
            ),
        spec_halfwidth_to_fullwidth(s).len() <= s.len(),
        (forall|i: int| 0 <= i < s.len() ==> !is_halfwidth_kana(#[trigger] s[i]))
            ==> spec_halfwidth_to_fullwidth(s) == s,
        spec_halfwidth_to_fullwidth(spec_halfwidth_to_fullwidth(s)) == spec_halfwidth_to_fullwidth(s),
    decreases s.len(),
{
    lemma_halfwidth_facts(s);
    lemma_halfwidth_facts(spec_halfwidth_to_fullwidth(s));
}

proof fn lemma_halfwidth_facts(s: Seq<char>)
    ensures
        forall|i: int|
            0 <= i < spec_halfwidth_to_fullwidth(s).len() ==> !is_halfwidth_kana(
                #[trigger] spec_halfwidth_to_fullwidth(s)[i],
            ),
        spec_halfwidth_to_fullwidth(s).len() <= s.len(),
        (forall|i: int| 0 <= i < s.len() ==> !is_halfwidth_kana(#[trigger] s[i]))
            ==> spec_halfwidth_to_fullwidth(s) == s,
    decreases s.len(),
{
    if s.len() > 0 {
        lemma_converted_forms_fullwidth(s[0]);
        let r = spec_halfwidth_to_fullwidth(s);
        if s.len() >= 2 && s[1] == '\u{FF9E}' && spec_voiced(s[0]) is Some {
            lemma_halfwidth_facts(s.skip(2));
            let t = spec_halfwidth_to_fullwidth(s.skip(2));
            assert forall|i: int| 0 <= i < r.len() implies !is_halfwidth_kana(#[trigger] r[i]) by {
                if i > 0 {
                    assert(r[i] == t[i - 1]);
                }
            }
            if forall|i: int| 0 <= i < s.len() ==> !is_halfwidth_kana(#[trigger] s[i]) {
                assert(is_halfwidth_kana(s[1]));
            }
        } else if s.len() >= 2 && s[1] == '\u{FF9F}' && spec_semi_voiced(s[0]) is Some {
            lemma_halfwidth_facts(s.skip(2));
            let t = spec_halfwidth_to_fullwidth(s.skip(2));
            assert forall|i: int| 0 <= i < r.len() implies !is_halfwidth_kana(#[trigger] r[i]) by {
                if i > 0 {
                    assert(r[i] == t[i - 1]);
                }
            }
            if forall|i: int| 0 <= i < s.len() ==> !is_halfwidth_kana(#[trigger] s[i]) {
                assert(is_halfwidth_kana(s[1]));
            }
        } else {
            lemma_halfwidth_facts(s.skip(1));
            let t = spec_halfwidth_to_fullwidth(s.skip(1));
            assert forall|i: int| 0 <= i < r.len() implies !is_halfwidth_kana(#[trigger] r[i]) by {
                if i > 0 {
                    assert(r[i] == t[i - 1]);
                }
            }
            if forall|i: int| 0 <= i < s.len() ==> !is_halfwidth_kana(#[trigger] s[i]) {
                assert forall|i: int| 0 <= i < s.skip(1).len() implies !is_halfwidth_kana(
                    #[trigger] s.skip(1)[i],
                ) by {
                    assert(s.skip(1)[i] == s[i + 1]);
                }
                assert(!is_halfwidth_kana(s[0]));
                assert(r =~= s);
            }
        }
    }
}

/// Whether `a` is a subsequence of `b`: its characters occur in `b` in the
/// same order.
pub open spec fn is_subsequence(a: Seq<char>, b: Seq<char>) -> bool
    decreases b.len(),
{
    if a.len() == 0 {
        true
    } else if b.len() == 0 {
        false
    } else if a[0] == b[0] {
        is_subsequence(a.skip(1), b.skip(1))
    } else {
        is_subsequence(a, b.skip(1))
    }
}

/// The characters of `s` that are no halfwidth forms, in order.
pub open spec fn non_halfwidth(s: Seq<char>) -> Seq<char>
    decreases s.len(),
{
    if s.len() == 0 {
        s
    } else if is_halfwidth_kana(s[0]) {
        non_halfwidth(s.skip(1))
    } else {
        seq![s[0]] + non_halfwidth(s.skip(1))
    }
}

proof fn lemma_subsequence_prepend(a: Seq<char>, b: Seq<char>, c: char)
    requires
        is_subsequence(a, b),
    ensures
        is_subsequence(a, seq![c] + b),
    decreases a.len() + b.len(), 1nat,
{
    let b2 = seq![c] + b;
    assert(b2.skip(1) =~= b);
    if a.len() > 0 && a[0] == c {
        lemma_subsequence_drop(a, b);
    }
}

proof fn lemma_subsequence_drop(a: Seq<char>, b: Seq<char>)
    requires
        a.len() > 0,
        is_subsequence(a, b),
    ensures
        is_subsequence(a.skip(1), b),
    decreases a.len() + b.len(), 0nat,
{
    if a[0] == b[0] {
        lemma_subsequence_prepend(a.skip(1), b.skip(1), b[0]);
        assert(seq![b[0]] + b.skip(1) =~= b);
    } else {
        lemma_subsequence_drop(a, b.skip(1));
        lemma_subsequence_prepend(a.skip(1), b.skip(1), b[0]);
        assert(seq![b[0]] + b.skip(1) =~= b);
    }
}

/// Converting keeps every character that is no halfwidth form, unchanged
/// and in the same order.
pub proof fn law_halfwidth_keeps_others(s: Seq<char>)
    ensures
        is_subsequence(non_halfwidth(s), spec_halfwidth_to_fullwidth(s)),
    decreases s.len(),
{
    if s.len() > 0 {
        let r = spec_halfwidth_to_fullwidth(s);
        if s.len() >= 2 && s[1] == '\u{FF9E}' && spec_voiced(s[0]) is Some {
            law_halfwidth_keeps_others(s.skip(2));
            assert(is_halfwidth_kana(s[0]));
            assert(s.skip(1).skip(1) =~= s.skip(2));
            assert(s.skip(1)[0] == s[1]);
            assert(is_halfwidth_kana(s[1]));
            assert(non_halfwidth(s) == non_halfwidth(s.skip(1)));
            assert(non_halfwidth(s.skip(1)) == non_halfwidth(s.skip(1).skip(1)));
            assert(non_halfwidth(s) == non_halfwidth(s.skip(2)));
            lemma_subsequence_prepend(non_halfwidth(s.skip(2)), spec_halfwidth_to_fullwidth(s.skip(2)), r[0]);
            assert(seq![r[0]] + spec_halfwidth_to_fullwidth(s.skip(2)) =~= r);
        } else if s.len() >= 2 && s[1] == '\u{FF9F}' && spec_semi_voiced(s[0]) is Some {
            law_halfwidth_keeps_others(s.skip(2));
            assert(is_halfwidth_kana(s[0]));
            assert(s.skip(1).skip(1) =~= s.skip(2));
            assert(s.skip(1)[0] == s[1]);
            assert(is_halfwidth_kana(s[1]));
            assert(non_halfwidth(s) == non_halfwidth(s.skip(1)));
            assert(non_halfwidth(s.skip(1)) == non_halfwidth(s.skip(1).skip(1)));
            assert(non_halfwidth(s) == non_halfwidth(s.skip(2)));
            lemma_subsequence_prepend(non_halfwidth(s.skip(2)), spec_halfwidth_to_fullwidth(s.skip(2)), r[0]);
            assert(seq![r[0]] + spec_halfwidth_to_fullwidth(s.skip(2)) =~= r);
        } else {
            law_halfwidth_keeps_others(s.skip(1));
            if is_halfwidth_kana(s[0]) {
                lemma_subsequence_prepend(non_halfwidth(s.skip(1)), spec_halfwidth_to_fullwidth(s.skip(1)), r[0]);
                assert(seq![r[0]] + spec_halfwidth_to_fullwidth(s.skip(1)) =~= r);
            } else {
                let a = non_halfwidth(s);
                assert(a[0] == s[0] && r[0] == s[0]);
                assert(a.skip(1) =~= non_halfwidth(s.skip(1)));
                assert(r.skip(1) =~= spec_halfwidth_to_fullwidth(s.skip(1)));
            }
        }
    }
}

/// Convert a halfwidth-katakana run to fullwidth, merging ﾞ/ﾟ marks
/// (ｶﾞ → ガ).
pub fn halfwidth_to_fullwidth(run: &str) -> (r: String)
    ensures
        r@ == spec_halfwidth_to_fullwidth(run@),
{
    let cs = chars_of(run);
    let table = chars_of(HALFWIDTH_FORMS);
    let mut out = String::new();
    let mut i: usize = 0;
    assert(cs@.skip(0) =~= cs@);
    assert(out@ + spec_halfwidth_to_fullwidth(cs@.skip(0)) =~= spec_halfwidth_to_fullwidth(cs@));
    while i < cs.len()
        invariant
            cs@ == run@,
            table@ == HALFWIDTH_FORMS@,
            0 <= i <= cs@.len(),
            out@ + spec_halfwidth_to_fullwidth(cs@.skip(i as int)) == spec_halfwidth_to_fullwidth(
                cs@,
            ),
        decreases cs@.len() - i,
    {
        let ghost rest = cs@.skip(i as int);
        let c = cs[i];
        if i + 1 < cs.len() {
            let next = cs[i + 1];
            assert(rest[1] == next);
            assert(rest.skip(2) =~= cs@.skip(i + 2));
            if next == '\u{FF9E}' {
                if let Some(v) = voiced(c) {
                    push_char(&mut out, v);
                    assert(out@ + spec_halfwidth_to_fullwidth(cs@.skip(i + 2)) =~= spec_halfwidth_to_fullwidth(cs@));
                    i += 2;
                    continue;
                }
            } else if next == '\u{FF9F}' {
                if let Some(v) = semi_voiced(c) {
                    push_char(&mut out, v);
                    assert(out@ + spec_halfwidth_to_fullwidth(cs@.skip(i + 2)) =~= spec_halfwidth_to_fullwidth(cs@));
                    i += 2;
                    continue;
                }
            }
        }
        push_char(&mut out, base_kana(&table, c));
        assert(rest.skip(1) =~= cs@.skip(i + 1));
        assert(out@ + spec_halfwidth_to_fullwidth(cs@.skip(i + 1)) =~= spec_halfwidth_to_fullwidth(cs@));
        i += 1;
    }
    assert(cs@.skip(i as int) =~= Seq::<char>::empty());
    assert(out@ =~= out@ + spec_halfwidth_to_fullwidth(cs@.skip(i as int)));
    out
}


/// The (short, long) pairs of the katakana table.
fn pairs() -> (r: Vec<(Vec<char>, Vec<char>)>)
    ensures
        r@.len() == katakana_pairs().len(),
        forall|k: int|
            0 <= k < r@.len() ==> (#[trigger] r@[k]).0@ == katakana_pairs()[k].0 && r@[k].1@
                == katakana_pairs()[k].1,
{
    let text = chars_of(KATAKANA_PAIRS);
    parse_tab_pairs(&text)
}

/// The plain content of a [`JapaneseChecker`].
pub struct JapaneseView {
    /// variant → preferred form.
    pub variants: Map<Seq<char>, Seq<char>>,
    /// (pattern, replacement template) of each regex rule, in load order.
    pub rules: Seq<(Seq<char>, Seq<char>)>,
    pub style: KatakanaStyle,
    pub options: JapaneseOptions,
}

impl View for JapaneseChecker {
    type V = JapaneseView;

    closed spec fn view(&self) -> JapaneseView {
        JapaneseView {
            variants: self.variants@.map_values(|v: String| v@),
            rules: self.regex_rules@.map_values(|r: RegexRule| (r.pattern@, r.replacement@)),
            style: self.style,
            options: JapaneseOptions {
                flag_fullwidth_alnum: self.flag_fullwidth_alnum,
                flag_halfwidth_kana: self.flag_halfwidth_kana,
                flag_compatibility: self.flag_compatibility,
                kanji_consistency: self.kanji_consistency,
                number_consistency: self.number_consistency,
                punctuation_consistency: self.punctuation_consistency,
                fullwidth_space: self.fullwidth_space,
            },
        }
    }
}

impl JapaneseChecker {
    pub fn new(style: KatakanaStyle, options: JapaneseOptions) -> (r: Self)
        ensures
            r@.variants == style_variants(style),
            r@.rules == Seq::<(Seq<char>, Seq<char>)>::empty(),
            r@.style == style,
            r@.options == options,
    {
        let mut variants: StringHashMap<String> = StringHashMap::new();
        if style == KatakanaStyle::Long || style == KatakanaStyle::Short {
            let long = style == KatakanaStyle::Long;
            let ps = pairs();
            let mut i: usize = 0;
            while i < ps.len()
                invariant
                    0 <= i <= ps@.len(),
                    ps@.len() == katakana_pairs().len(),
                    forall|k: int|
                        0 <= k < ps@.len() ==> (#[trigger] ps@[k]).0@ == katakana_pairs()[k].0
                            && ps@[k].1@ == katakana_pairs()[k].1,
                    variants@.map_values(|v: String| v@) == pairs_map(
                        katakana_pairs().take(i as int),
                        long,
                    ),
                decreases ps@.len() - i,
            {
                let short_form = string_from_chars(&ps[i].0);
                let long_form = string_from_chars(&ps[i].1);
                let ghost before = variants@;
                if long {
                    variants.insert(short_form, long_form);
                } else {
                    variants.insert(long_form, short_form);
                }
                proof {
                    let t = katakana_pairs().take(i + 1);
                    assert(t.drop_last() =~= katakana_pairs().take(i as int));
                    assert(variants@.map_values(|v: String| v@) =~= pairs_map(t, long));
                }
                i += 1;
            }
            assert(katakana_pairs().take(ps@.len() as int) =~= katakana_pairs());
        } else {
            assert(variants@.map_values(|v: String| v@) =~= Map::<Seq<char>, Seq<char>>::empty());
        }
        let r = JapaneseChecker {
            variants,
            regex_rules: Vec::new(),
            style,
            flag_fullwidth_alnum: options.flag_fullwidth_alnum,
            flag_halfwidth_kana: options.flag_halfwidth_kana,
            flag_compatibility: options.flag_compatibility,
            kanji_consistency: options.kanji_consistency,
            number_consistency: options.number_consistency,
            punctuation_consistency: options.punctuation_consistency,
            fullwidth_space: options.fullwidth_space,
        };
        assert(r@.rules =~= Seq::<(Seq<char>, Seq<char>)>::empty());
        r
    }

    /// Custom variant rule; applies in every style.
    pub fn add_variant(&mut self, variant: &str, preferred: &str)
        ensures
            final(self)@ == (JapaneseView {
                variants: old(self)@.variants.insert(variant@, preferred@),
                ..old(self)@
            }),
    {
        let k = to_owned(variant);
        let v = to_owned(preferred);
        self.variants.insert(k, v);
        assert(self@.variants =~= old(self)@.variants.insert(variant@, preferred@));
    }

    pub fn wants_consistency(&self) -> (r: bool)
        ensures
            r == (self@.style == KatakanaStyle::Consistency),
    {
        self.style == KatakanaStyle::Consistency
    }

    pub fn variant_of(&self, form: &str) -> (r: Option<&String>)
        ensures
            match r {
                Some(p) => self@.variants.contains_key(form@) && p@ == self@.variants[form@],
                None => !self@.variants.contains_key(form@),
            },
    {
        self.variants.get(form)
    }
}


// ---------------------------------------------------------------------------
// Outside calls: regular expressions and Unicode normalization
// ---------------------------------------------------------------------------

/// What `regex::Regex::new` gives for a pattern: `Ok` when it compiles, else
/// the text of its error.
pub uninterp spec fn regex_compile(pattern: Seq<char>) -> Result<(), Seq<char>>;

/// The successive non-overlapping matches of a pattern in a haystack, as
/// (start byte, end byte, matched text), in the order `Regex::find_iter`
/// yields them.
pub uninterp spec fn regex_matches(pattern: Seq<char>, haystack: Seq<char>) -> Seq<(int, int, Seq<char>)>;

/// What `Regex::replace` gives: the haystack with its first match replaced
/// by the expanded template.
pub uninterp spec fn regex_replace(pattern: Seq<char>, haystack: Seq<char>, template: Seq<char>) -> Seq<char>;

/// The NFKC normalization of a text (`UnicodeNormalization::nfkc`).
pub uninterp spec fn nfkc(s: Seq<char>) -> Seq<char>;

/// Compiles a pattern with `regex::Regex::new`. Claims only that `Ok` comes
/// exactly when the pattern compiles, and that an error carries the
/// crate's message for that pattern.
#[verifier::external_body]
pub(crate) fn regex_check(pattern: &str) -> (r: Result<(), String>)
    ensures
        match r {
            Ok(_) => regex_compile(pattern@) is Ok,
            Err(e) => regex_compile(pattern@) == Err::<(), Seq<char>>(e@),
        },
{
    match regex::Regex::new(pattern) {
        Ok(_) => Ok(()),
        Err(e) => Err(e.to_string()),
    }
}

/// The matches of `Regex::find_iter`, each as (start, end, text). Claims the
/// named result and what the crate documents of every match: the start is
/// not after the end, both fall on character boundaries of the haystack,
/// and the matched text is the haystack between them.
#[verifier::external_body]
fn regex_find_all(pattern: &str, haystack: &str) -> (r: Vec<(usize, usize, String)>)
    requires
        regex_compile(pattern@) is Ok,
    ensures
        r@.len() == regex_matches(pattern@, haystack@).len(),
        forall|k: int|
            #![trigger r@[k]]
            0 <= k < r@.len() ==> {
                let m = regex_matches(pattern@, haystack@)[k];
                &&& r@[k].0 == m.0
                &&& r@[k].1 == m.1
                &&& r@[k].2@ == m.2
                &&& m.0 <= m.1 <= byte_len(haystack@)
                &&& char_span(haystack@, m.0, m.1, m.2)
            },
{
    match regex::Regex::new(pattern) {
        Ok(re) => re.find_iter(haystack).map(|m| (m.start(), m.end(), m.as_str().to_string())).collect(),
        Err(_) => Vec::new(),
    }
}

/// `Regex::replace` of the first match of `pattern` in `haystack`.
#[verifier::external_body]
fn regex_replace_first(pattern: &str, haystack: &str, template: &str) -> (r: String)
    requires
        regex_compile(pattern@) is Ok,
    ensures
        r@ == regex_replace(pattern@, haystack@, template@),
{
    match regex::Regex::new(pattern) {
        Ok(re) => re.replace(haystack, template).into_owned(),
        Err(_) => haystack.to_string(),
    }
}

/// NFKC normalization by `unicode_normalization`; the result is named.
#[verifier::external_body]
fn nfkc_of(s: &str) -> (r: String)
    ensures
        r@ == nfkc(s@),
{
    s.nfkc().collect()
}

// ---------------------------------------------------------------------------
// Line checks
// ---------------------------------------------------------------------------

/// The character classes that form runs.
#[derive(Clone, Copy, PartialEq, Eq, Structural)]
pub enum RunClass {
    Katakana,
    FullwidthAlnum,
    HalfwidthKana,
}

pub open spec fn in_class(k: RunClass, c: char) -> bool {
    match k {
        RunClass::Katakana => is_katakana(c),
        RunClass::FullwidthAlnum => spec_fullwidth_alnum(c) is Some,
        RunClass::HalfwidthKana => is_halfwidth_kana(c),
    }
}

/// End of the run of class `k` starting at `i`.
pub open spec fn run_end(s: Seq<char>, i: int, k: RunClass) -> int
    decreases s.len() - i,
{
    if 0 <= i < s.len() && in_class(k, s[i]) {
        run_end(s, i + 1, k)
    } else {
        i
    }
}

pub proof fn lemma_run_end(s: Seq<char>, i: int, k: RunClass)
    requires
        0 <= i <= s.len(),
    ensures
        i <= run_end(s, i, k) <= s.len(),
        forall|j: int| i <= j < run_end(s, i, k) ==> in_class(k, #[trigger] s[j]),
        i < s.len() && in_class(k, s[i]) ==> i < run_end(s, i, k),
    decreases s.len() - i,
{
    if i < s.len() && in_class(k, s[i]) {
        lemma_run_end(s, i + 1, k);
    }
}

fn class_has(k: RunClass, c: char) -> (r: bool)
    ensures
        r == in_class(k, c),
{
    match k {
        RunClass::Katakana => katakana(c),
        RunClass::FullwidthAlnum => fullwidth_alnum(c).is_some(),
        RunClass::HalfwidthKana => halfwidth_kana(c),
    }
}

fn find_run_end(s: &Vec<char>, i: usize, k: RunClass) -> (r: usize)
    requires
        i <= s@.len(),
    ensures
        r == run_end(s@, i as int, k),
        i <= r <= s@.len(),
{
    let mut j = i;
    while j < s.len() && class_has(k, s[j])
        invariant
            i <= j <= s@.len(),
            run_end(s@, i as int, k) == run_end(s@, j as int, k),
        decreases s@.len() - j,
    {
        j += 1;
    }
    j
}

/// The ASCII form of a run of fullwidth alphanumerics.
pub open spec fn ascii_of_fullwidth(s: Seq<char>) -> Seq<char> {
    s.map_values(|c: char| spec_fullwidth_alnum(c)->0)
}

/// The issue for the characters `s[i..e]` of line `ln` at byte `lo`.
pub open spec fn issue_of(
    s: Seq<char>,
    ln: u32,
    lo: int,
    i: int,
    e: int,
    kind: IssueKind,
    suggestion: Seq<char>,
) -> IssueView {
    IssueView {
        line: ln,
        col: byte_offset(s, i) as usize,
        offset: (lo + byte_offset(s, i)) as usize,
        len: (byte_offset(s, e) - byte_offset(s, i)) as usize,
        word: s.subrange(i, e),
        kind,
        suggestions: seq![suggestion],
    }
}

/// The plain content of a katakana occurrence.
pub open spec fn occ_view(o: KatakanaOcc) -> (Seq<char>, u32, usize, usize) {
    (o.form@, o.line, o.col, o.offset)
}

pub open spec fn occ_views(v: Seq<KatakanaOcc>) -> Seq<(Seq<char>, u32, usize, usize)> {
    v.map_values(|o: KatakanaOcc| occ_view(o))
}

pub open spec fn issue_views(v: Seq<Issue>) -> Seq<IssueView> {
    v.map_values(|x: Issue| x@)
}

/// Whether a fullwidth space is flagged under a policy.
pub open spec fn space_flagged(policy: SpacePolicy, is_prose: bool) -> bool {
    match policy {
        SpacePolicy::Always => true,
        SpacePolicy::Never => false,
        SpacePolicy::Code => !is_prose,
    }
}

/// The character-level findings of a line from index `i` on, with the
/// katakana occurrences collected for the document pass (when `collect`).
pub open spec fn ja_scan(
    v: JapaneseView,
    s: Seq<char>,
    ln: u32,
    lo: int,
    is_prose: bool,
    collect: bool,
    i: int,
) -> (Seq<IssueView>, Seq<(Seq<char>, u32, usize, usize)>)
    decreases s.len() - i,
{
    if i < 0 || i >= s.len() {
        (Seq::empty(), Seq::empty())
    } else {
        let c = s[i];
        if is_katakana(c) {
            let e = run_end(s, i, RunClass::Katakana);
            let form = s.subrange(i, e);
            let rest = if i < e <= s.len() {
                ja_scan(v, s, ln, lo, is_prose, collect, e)
            } else {
                (Seq::empty(), Seq::empty())
            };
            if v.variants.contains_key(form) {
                (
                    seq![issue_of(s, ln, lo, i, e, IssueKind::JaVariant, v.variants[form])] + rest.0,
                    rest.1,
                )
            } else if collect && e - i >= 3 {
                (
                    rest.0,
                    seq![(form, ln, byte_offset(s, i) as usize, (lo + byte_offset(s, i)) as usize)]
                        + rest.1,
                )
            } else {
                rest
            }
        } else if v.options.flag_fullwidth_alnum && spec_fullwidth_alnum(c) is Some {
            let e = run_end(s, i, RunClass::FullwidthAlnum);
            let rest = if i < e <= s.len() {
                ja_scan(v, s, ln, lo, is_prose, collect, e)
            } else {
                (Seq::empty(), Seq::empty())
            };
            (
                seq![issue_of(s, ln, lo, i, e, IssueKind::FullwidthAlnum, ascii_of_fullwidth(s.subrange(i, e)))]
                    + rest.0,
                rest.1,
            )
        } else if v.options.flag_halfwidth_kana && is_halfwidth_kana(c) {
            let e = run_end(s, i, RunClass::HalfwidthKana);
            let rest = if i < e <= s.len() {
                ja_scan(v, s, ln, lo, is_prose, collect, e)
            } else {
                (Seq::empty(), Seq::empty())
            };
            (
                seq![issue_of(s, ln, lo, i, e, IssueKind::HalfwidthKana, spec_halfwidth_to_fullwidth(s.subrange(i, e)))]
                    + rest.0,
                rest.1,
            )
        } else {
            let rest = ja_scan(v, s, ln, lo, is_prose, collect, i + 1);
            if c == '\u{3000}' {
                if space_flagged(v.options.fullwidth_space, is_prose) {
                    (seq![issue_of(s, ln, lo, i, i + 1, IssueKind::FullwidthSpace, " "@)] + rest.0, rest.1)
                } else {
                    rest
                }
            } else if v.options.flag_compatibility && is_compatibility_character(c) && nfkc(
                seq![c],
            ) != seq![c] {
                (seq![issue_of(s, ln, lo, i, i + 1, IssueKind::JaCompatibility, nfkc(seq![c]))] + rest.0, rest.1)
            } else {
                rest
            }
        }
    }
}

/// The issues of the matches `ms` of one regex rule.
pub open spec fn match_issues(
    rule: (Seq<char>, Seq<char>),
    ms: Seq<(int, int, Seq<char>)>,
    ln: u32,
    lo: int,
) -> Seq<IssueView>
    decreases ms.len(),
{
    if ms.len() == 0 {
        Seq::empty()
    } else {
        let rest = match_issues(rule, ms.drop_last(), ln, lo);
        let m = ms.last();
        let rep = regex_replace(rule.0, m.2, rule.1);
        if m.0 == m.1 || rep == m.2 {
            rest
        } else {
            rest.push(
                IssueView {
                    line: ln,
                    col: m.0 as usize,
                    offset: (lo + m.0) as usize,
                    len: (m.1 - m.0) as usize,
                    word: m.2,
                    kind: IssueKind::JaVariant,
                    suggestions: seq![rep],
                },
            )
        }
    }
}

/// The issues of the regex rules on one line, rule by rule.
pub open spec fn regex_issues(rules: Seq<(Seq<char>, Seq<char>)>, s: Seq<char>, ln: u32, lo: int) -> Seq<IssueView>
    decreases rules.len(),
{
    if rules.len() == 0 {
        Seq::empty()
    } else {
        let r = rules.last();
        regex_issues(rules.drop_last(), s, ln, lo) + match_issues(r, regex_matches(r.0, s), ln, lo)
    }
}

/// All findings of one line, regex rules first.
pub open spec fn line_issues(v: JapaneseView, s: Seq<char>, ln: u32, lo: int, is_prose: bool) -> Seq<IssueView> {
    regex_issues(v.rules, s, ln, lo) + ja_scan(v, s, ln, lo, is_prose, false, 0).0
}

/// The katakana occurrences of one line not covered by a variant rule.
pub open spec fn line_occurrences(v: JapaneseView, s: Seq<char>, ln: u32, lo: int) -> Seq<(Seq<char>, u32, usize, usize)> {
    ja_scan(v, s, ln, lo, false, true, 0).1
}

fn single(s: String) -> (r: Vec<String>)
    ensures
        r.deep_view() == seq![s@],
{
    let mut r: Vec<String> = Vec::new();
    r.push(s);
    assert(r.deep_view() =~= seq![s@]);
    r
}


/// Every regex rule of the checker compiles.
pub open spec fn rules_compile(v: JapaneseView) -> bool {
    forall|k: int| 0 <= k < v.rules.len() ==> (regex_compile(#[trigger] v.rules[k].0) is Ok)
}

/// The issues of a line scan do not depend on whether occurrences are
/// collected, and the occurrences do not depend on the prose flag.
pub proof fn lemma_scan_parts(
    v: JapaneseView,
    s: Seq<char>,
    ln: u32,
    lo: int,
    p: bool,
    c: bool,
    i: int,
)
    ensures
        ja_scan(v, s, ln, lo, p, c, i).0 == ja_scan(v, s, ln, lo, p, false, i).0,
        ja_scan(v, s, ln, lo, p, true, i).1 == ja_scan(v, s, ln, lo, false, true, i).1,
    decreases s.len() - i,
{
    if 0 <= i < s.len() {
        let ch = s[i];
        if is_katakana(ch) {
            let e = run_end(s, i, RunClass::Katakana);
            if i < e <= s.len() {
                lemma_scan_parts(v, s, ln, lo, p, c, e);
            }
        } else if v.options.flag_fullwidth_alnum && spec_fullwidth_alnum(ch) is Some {
            let e = run_end(s, i, RunClass::FullwidthAlnum);
            if i < e <= s.len() {
                lemma_scan_parts(v, s, ln, lo, p, c, e);
            }
        } else if v.options.flag_halfwidth_kana && is_halfwidth_kana(ch) {
            let e = run_end(s, i, RunClass::HalfwidthKana);
            if i < e <= s.len() {
                lemma_scan_parts(v, s, ln, lo, p, c, e);
            }
        } else {
            lemma_scan_parts(v, s, ln, lo, p, c, i + 1);
        }
    }
}

impl JapaneseChecker {
    /// Check one line. Katakana occurrences are pushed to `occs` (when
    /// provided) for the later document-level consistency pass.
    pub fn check_line(
        &self,
        line: &str,
        line_no: u32,
        line_offset: usize,
        is_prose: bool,
        issues: &mut Vec<Issue>,
        occs: Option<&mut Vec<KatakanaOcc>>,
    )
        requires
            rules_compile(self@),
            line_offset + byte_len(line@) <= usize::MAX,
        ensures
            issue_views(final(issues)@) == issue_views(old(issues)@) + line_issues(
                self@,
                line@,
                line_no,
                line_offset as int,
                is_prose,
            ),
            match occs {
                Some(o) => occ_views(final(o)@) == occ_views(o@) + line_occurrences(
                    self@,
                    line@,
                    line_no,
                    line_offset as int,
                ),
                None => true,
            },
            rules_span(self@.rules, line@),
            all_span(line@, line_offset as int, line_issues(self@, line@, line_no, line_offset as int, is_prose)),
            all_occ(line@, line_offset as int, line_occurrences(self@, line@, line_no, line_offset as int)),
    {
        self.regex_line(line, line_no, line_offset, issues);
        proof {
            lemma_line_spans(self@, line@, line_no, line_offset as int, is_prose);
        }
        let ghost mid = issues@;
        match occs {
            Some(o) => {
                self.scan_line(line, line_no, line_offset, is_prose, true, issues, o);
                proof {
                    lemma_scan_parts(self@, line@, line_no, line_offset as int, is_prose, true, 0);
                }
            },
            None => {
                let mut none: Vec<KatakanaOcc> = Vec::new();
                self.scan_line(line, line_no, line_offset, is_prose, false, issues, &mut none);
            },
        }
    }

    fn regex_line(&self, line: &str, ln: u32, lo: usize, issues: &mut Vec<Issue>)
        requires
            rules_compile(self@),
            lo + byte_len(line@) <= usize::MAX,
        ensures
            issue_views(final(issues)@) == issue_views(old(issues)@) + regex_issues(
                self@.rules,
                line@,
                ln,
                lo as int,
            ),
            rules_span(self@.rules, line@),
    {
        let mut r: usize = 0;
        assert(self@.rules.take(0) =~= Seq::<(Seq<char>, Seq<char>)>::empty());
        assert(issue_views(issues@) =~= issue_views(old(issues)@) + regex_issues(self@.rules.take(0), line@, ln, lo as int));
        while r < self.regex_rules.len()
            invariant
                0 <= r <= self@.rules.len(),
                self@.rules.len() == self.regex_rules@.len(),
                rules_compile(self@),
                lo + byte_len(line@) <= usize::MAX,
                forall|t: int, k: int|
                    0 <= t < r && 0 <= k < regex_matches(self@.rules[t].0, line@).len() ==> {
                        let m = #[trigger] regex_matches(self@.rules[t].0, line@)[k];
                        char_span(line@, m.0, m.1, m.2)
                    },
                issue_views(issues@) == issue_views(old(issues)@) + regex_issues(
                    self@.rules.take(r as int),
                    line@,
                    ln,
                    lo as int,
                ),
            decreases self.regex_rules@.len() - r,
        {
            let rule = &self.regex_rules[r];
            let ghost rm = self@.rules[r as int];
            assert(rm == (rule.pattern@, rule.replacement@));
            assert(regex_compile(rm.0) is Ok);
            let ms = regex_find_all(rule.pattern.as_str(), line);
            let ghost named = regex_matches(rm.0, line@);
            let ghost base = issues@;
            let mut k: usize = 0;
            assert(named.take(0) =~= Seq::<(int, int, Seq<char>)>::empty());
            assert(issue_views(issues@) =~= issue_views(base) + match_issues(rm, named.take(0), ln, lo as int));
            while k < ms.len()
                invariant
                    0 <= k <= ms@.len(),
                    ms@.len() == named.len(),
                    named == regex_matches(rm.0, line@),
                    rm == (rule.pattern@, rule.replacement@),
                    regex_compile(rm.0) is Ok,
                    lo + byte_len(line@) <= usize::MAX,
                    forall|j: int|
                        #![trigger ms@[j]]
                        0 <= j < ms@.len() ==> {
                            &&& ms@[j].0 == named[j].0
                            &&& ms@[j].1 == named[j].1
                            &&& ms@[j].2@ == named[j].2
                            &&& named[j].0 <= named[j].1 <= byte_len(line@)
                            &&& char_span(line@, named[j].0, named[j].1, named[j].2)
                        },
                    issue_views(issues@) == issue_views(base) + match_issues(rm, named.take(k as int), ln, lo as int),
                decreases ms@.len() - k,
            {
                let st = ms[k].0;
                let en = ms[k].1;
                let text = &ms[k].2;
                let ghost before = issues@;
                proof {
                    assert(named.take(k + 1).drop_last() =~= named.take(k as int));
                    assert(named.take(k + 1).last() == named[k as int]);
                }
                if st != en {
                    let rep = regex_replace_first(rule.pattern.as_str(), text.as_str(), rule.replacement.as_str());
                    if !str_eq(rep.as_str(), text.as_str()) {
                        let word = to_owned(text.as_str());
                        let issue = Issue {
                            line: ln,
                            col: st,
                            offset: lo + st,
                            len: en - st,
                            word,
                            kind: IssueKind::JaVariant,
                            suggestions: single(rep),
                        };
                        issues.push(issue);
                        assert(issue_views(issues@) =~= issue_views(before).push(issue@));
                    }
                }
                k += 1;
            }
            proof {
                assert forall|k: int| 0 <= k < named.len() implies {
                    let m = #[trigger] named[k];
                    char_span(line@, m.0, m.1, m.2)
                } by {
                    assert(ms@[k].0 == named[k].0);
                }
                assert(named.take(ms@.len() as int) =~= named);
                let t = self@.rules.take(r + 1);
                assert(t.drop_last() =~= self@.rules.take(r as int));
                assert(t.last() == rm);
                assert(issue_views(issues@) =~= issue_views(old(issues)@) + regex_issues(t, line@, ln, lo as int));
            }
            r += 1;
        }
        assert(self@.rules.take(self@.rules.len() as int) =~= self@.rules);
    }
}


/// The issue for `s[i..e]`, given the byte offsets of `s`.
fn make_issue(
    cs: &Vec<char>,
    offs: &Vec<usize>,
    ln: u32,
    lo: usize,
    i: usize,
    e: usize,
    kind: IssueKind,
    suggestion: String,
) -> (r: Issue)
    requires
        i <= e <= cs@.len(),
        offs@.len() == cs@.len() + 1,
        forall|k: int| 0 <= k <= cs@.len() ==> #[trigger] offs@[k] == byte_offset(cs@, k),
        lo + byte_len(cs@) <= usize::MAX,
    ensures
        r@ == issue_of(cs@, ln, lo as int, i as int, e as int, kind, suggestion@),
{
    proof {
        lemma_offset_mono(cs@, i as int, e as int);
    }
    let word = string_from_range(cs.as_slice(), i, e);
    let r = Issue {
        line: ln,
        col: offs[i],
        offset: lo + offs[i],
        len: offs[e] - offs[i],
        word,
        kind,
        suggestions: single(suggestion),
    };
    r
}


/// The facts every step of the line scan needs about its inputs.
pub open spec fn scan_inputs(cs: Seq<char>, offs: Seq<usize>, lo: int) -> bool {
    &&& offs.len() == cs.len() + 1
    &&& forall|k: int| 0 <= k <= cs.len() ==> #[trigger] offs[k] == byte_offset(cs, k)
    &&& lo + byte_len(cs) <= usize::MAX
}

impl JapaneseChecker {
    fn scan_line(
        &self,
        line: &str,
        ln: u32,
        lo: usize,
        is_prose: bool,
        collect: bool,
        issues: &mut Vec<Issue>,
        occs: &mut Vec<KatakanaOcc>,
    )
        requires
            lo + byte_len(line@) <= usize::MAX,
        ensures
            issue_views(final(issues)@) == issue_views(old(issues)@) + ja_scan(
                self@,
                line@,
                ln,
                lo as int,
                is_prose,
                collect,
                0,
            ).0,
            occ_views(final(occs)@) == occ_views(old(occs)@) + ja_scan(
                self@,
                line@,
                ln,
                lo as int,
                is_prose,
                collect,
                0,
            ).1,
    {
        let cs = chars_of(line);
        let offs = byte_offsets(cs.as_slice());
        let ghost v = self@;
        let ghost s = line@;
        let mut i: usize = 0;
        while i < cs.len()
            invariant
                cs@ == s,
                s == line@,
                v == self@,
                0 <= i <= cs@.len(),
                scan_inputs(cs@, offs@, lo as int),
                issue_views(issues@) + ja_scan(v, s, ln, lo as int, is_prose, collect, i as int).0
                    == issue_views(old(issues)@) + ja_scan(v, s, ln, lo as int, is_prose, collect, 0).0,
                occ_views(occs@) + ja_scan(v, s, ln, lo as int, is_prose, collect, i as int).1
                    == occ_views(old(occs)@) + ja_scan(v, s, ln, lo as int, is_prose, collect, 0).1,
            decreases cs@.len() - i,
        {
            let ghost bi = issue_views(issues@);
            let ghost bo = occ_views(occs@);
            let e = self.scan_step(&cs, &offs, ln, lo, is_prose, collect, i, issues, occs);
            proof {
                let cur = ja_scan(v, s, ln, lo as int, is_prose, collect, i as int);
                let rest = ja_scan(v, s, ln, lo as int, is_prose, collect, e as int);
                assert(issue_views(issues@) + rest.0 == bi + cur.0);
                assert(bi + cur.0 == issue_views(old(issues)@) + ja_scan(v, s, ln, lo as int, is_prose, collect, 0).0);
                assert(issue_views(issues@) + rest.0 =~= issue_views(old(issues)@) + ja_scan(v, s, ln, lo as int, is_prose, collect, 0).0);
                assert(occ_views(occs@) + rest.1 =~= occ_views(old(occs)@) + ja_scan(v, s, ln, lo as int, is_prose, collect, 0).1);
            }
            i = e;
        }
        assert(issue_views(issues@) =~= issue_views(issues@) + ja_scan(v, s, ln, lo as int, is_prose, collect, i as int).0);
        assert(occ_views(occs@) =~= occ_views(occs@) + ja_scan(v, s, ln, lo as int, is_prose, collect, i as int).1);
    }

    /// One step of the line scan at character `i`: returns where the next
    /// step starts.
    fn scan_step(
        &self,
        cs: &Vec<char>,
        offs: &Vec<usize>,
        ln: u32,
        lo: usize,
        is_prose: bool,
        collect: bool,
        i: usize,
        issues: &mut Vec<Issue>,
        occs: &mut Vec<KatakanaOcc>,
    ) -> (e: usize)
        requires
            i < cs@.len(),
            scan_inputs(cs@, offs@, lo as int),
        ensures
            i < e <= cs@.len(),
            ({
                let cur = ja_scan(self@, cs@, ln, lo as int, is_prose, collect, i as int);
                let rest = ja_scan(self@, cs@, ln, lo as int, is_prose, collect, e as int);
                &&& issue_views(final(issues)@) + rest.0 == issue_views(old(issues)@) + cur.0
                &&& occ_views(final(occs)@) + rest.1 == occ_views(old(occs)@) + cur.1
            }),
    {
        let c = cs[i];
        if katakana(c) {
            self.step_katakana(cs, offs, ln, lo, is_prose, collect, i, issues, occs)
        } else if self.flag_fullwidth_alnum && fullwidth_alnum(c).is_some() {
            self.step_fullwidth(cs, offs, ln, lo, is_prose, collect, i, issues, occs)
        } else if self.flag_halfwidth_kana && halfwidth_kana(c) {
            self.step_halfwidth(cs, offs, ln, lo, is_prose, collect, i, issues, occs)
        } else {
            self.step_single(cs, offs, ln, lo, is_prose, collect, i, issues, occs)
        }
    }

    fn step_katakana(
        &self,
        cs: &Vec<char>,
        offs: &Vec<usize>,
        ln: u32,
        lo: usize,
        is_prose: bool,
        collect: bool,
        i: usize,
        issues: &mut Vec<Issue>,
        occs: &mut Vec<KatakanaOcc>,
    ) -> (e: usize)
        requires
            i < cs@.len(),
            is_katakana(cs@[i as int]),
            scan_inputs(cs@, offs@, lo as int),
        ensures
            i < e <= cs@.len(),
            ({
                let cur = ja_scan(self@, cs@, ln, lo as int, is_prose, collect, i as int);
                let rest = ja_scan(self@, cs@, ln, lo as int, is_prose, collect, e as int);
                &&& issue_views(final(issues)@) + rest.0 == issue_views(old(issues)@) + cur.0
                &&& occ_views(final(occs)@) + rest.1 == occ_views(old(occs)@) + cur.1
            }),
    {
        let ghost s = cs@;
        let ghost v = self@;
        let ghost bi = issues@;
        let ghost bo = occs@;
        let e = find_run_end(cs, i, RunClass::Katakana);
        proof {
            lemma_run_end(s, i as int, RunClass::Katakana);
            lemma_offset_mono(s, i as int, e as int);
        }
        let ghost cur = ja_scan(v, s, ln, lo as int, is_prose, collect, i as int);
        let ghost rest = ja_scan(v, s, ln, lo as int, is_prose, collect, e as int);
        let form = string_from_range(cs.as_slice(), i, e);
        match self.variants.get(form.as_str()) {
            Some(p) => {
                let issue = make_issue(cs, offs, ln, lo, i, e, IssueKind::JaVariant, p.clone());
                issues.push(issue);
                assert(issue_views(issues@) =~= issue_views(bi).push(issue@));
                assert(issue_views(issues@) + rest.0 =~= issue_views(bi) + cur.0);
            },
            None => {
                if collect && e - i >= 3 {
                    let o = KatakanaOcc { form, line: ln, col: offs[i], offset: lo + offs[i] };
                    occs.push(o);
                    assert(occ_views(occs@) =~= occ_views(bo).push(occ_view(o)));
                    assert(occ_views(occs@) + rest.1 =~= occ_views(bo) + cur.1);
                }
                assert(issue_views(issues@) + rest.0 =~= issue_views(bi) + cur.0);
            },
        }
        assert(occ_views(occs@) + rest.1 =~= occ_views(bo) + cur.1);
        e
    }

    fn step_fullwidth(
        &self,
        cs: &Vec<char>,
        offs: &Vec<usize>,
        ln: u32,
        lo: usize,
        is_prose: bool,
        collect: bool,
        i: usize,
        issues: &mut Vec<Issue>,
        occs: &mut Vec<KatakanaOcc>,
    ) -> (e: usize)
        requires
            i < cs@.len(),
            !is_katakana(cs@[i as int]),
            self@.options.flag_fullwidth_alnum,
            spec_fullwidth_alnum(cs@[i as int]) is Some,
            scan_inputs(cs@, offs@, lo as int),
        ensures
            i < e <= cs@.len(),
            ({
                let cur = ja_scan(self@, cs@, ln, lo as int, is_prose, collect, i as int);
                let rest = ja_scan(self@, cs@, ln, lo as int, is_prose, collect, e as int);
                &&& issue_views(final(issues)@) + rest.0 == issue_views(old(issues)@) + cur.0
                &&& occ_views(final(occs)@) + rest.1 == occ_views(old(occs)@) + cur.1
            }),
    {
        let ghost s = cs@;
        let ghost v = self@;
        let ghost bi = issues@;
        let e = find_run_end(cs, i, RunClass::FullwidthAlnum);
        proof {
            lemma_run_end(s, i as int, RunClass::FullwidthAlnum);
        }
        let ghost cur = ja_scan(v, s, ln, lo as int, is_prose, collect, i as int);
        let ghost rest = ja_scan(v, s, ln, lo as int, is_prose, collect, e as int);
        let mut converted = String::new();
        let mut j = i;
        while j < e
            invariant
                i <= j <= e <= cs@.len(),
                forall|k: int| i <= k < e ==> in_class(RunClass::FullwidthAlnum, #[trigger] cs@[k]),
                converted@ == ascii_of_fullwidth(cs@.subrange(i as int, j as int)),
            decreases e - j,
        {
            let a = fullwidth_alnum(cs[j]).unwrap();
            push_char(&mut converted, a);
            assert(converted@ =~= ascii_of_fullwidth(cs@.subrange(i as int, j + 1)));
            j += 1;
        }
        let issue = make_issue(cs, offs, ln, lo, i, e, IssueKind::FullwidthAlnum, converted);
        issues.push(issue);
        assert(issue_views(issues@) =~= issue_views(bi).push(issue@));
        assert(issue_views(issues@) + rest.0 =~= issue_views(bi) + cur.0);
        e
    }

    fn step_halfwidth(
        &self,
        cs: &Vec<char>,
        offs: &Vec<usize>,
        ln: u32,
        lo: usize,
        is_prose: bool,
        collect: bool,
        i: usize,
        issues: &mut Vec<Issue>,
        occs: &mut Vec<KatakanaOcc>,
    ) -> (e: usize)
        requires
            i < cs@.len(),
            !is_katakana(cs@[i as int]),
            !(self@.options.flag_fullwidth_alnum && spec_fullwidth_alnum(cs@[i as int]) is Some),
            self@.options.flag_halfwidth_kana,
            is_halfwidth_kana(cs@[i as int]),
            scan_inputs(cs@, offs@, lo as int),
        ensures
            i < e <= cs@.len(),
            ({
                let cur = ja_scan(self@, cs@, ln, lo as int, is_prose, collect, i as int);
                let rest = ja_scan(self@, cs@, ln, lo as int, is_prose, collect, e as int);
                &&& issue_views(final(issues)@) + rest.0 == issue_views(old(issues)@) + cur.0
                &&& occ_views(final(occs)@) + rest.1 == occ_views(old(occs)@) + cur.1
            }),
    {
        let ghost s = cs@;
        let ghost v = self@;
        let ghost bi = issues@;
        let e = find_run_end(cs, i, RunClass::HalfwidthKana);
        proof {
            lemma_run_end(s, i as int, RunClass::HalfwidthKana);
        }
        let ghost cur = ja_scan(v, s, ln, lo as int, is_prose, collect, i as int);
        let ghost rest = ja_scan(v, s, ln, lo as int, is_prose, collect, e as int);
        let run = string_from_range(cs.as_slice(), i, e);
        let converted = halfwidth_to_fullwidth(run.as_str());
        let issue = make_issue(cs, offs, ln, lo, i, e, IssueKind::HalfwidthKana, converted);
        issues.push(issue);
        assert(issue_views(issues@) =~= issue_views(bi).push(issue@));
        assert(issue_views(issues@) + rest.0 =~= issue_views(bi) + cur.0);
        e
    }

    fn step_single(
        &self,
        cs: &Vec<char>,
        offs: &Vec<usize>,
        ln: u32,
        lo: usize,
        is_prose: bool,
        collect: bool,
        i: usize,
        issues: &mut Vec<Issue>,
        occs: &mut Vec<KatakanaOcc>,
    ) -> (e: usize)
        requires
            i < cs@.len(),
            !is_katakana(cs@[i as int]),
            !(self@.options.flag_fullwidth_alnum && spec_fullwidth_alnum(cs@[i as int]) is Some),
            !(self@.options.flag_halfwidth_kana && is_halfwidth_kana(cs@[i as int])),
            scan_inputs(cs@, offs@, lo as int),
        ensures
            e == i + 1,
            ({
                let cur = ja_scan(self@, cs@, ln, lo as int, is_prose, collect, i as int);
                let rest = ja_scan(self@, cs@, ln, lo as int, is_prose, collect, e as int);
                &&& issue_views(final(issues)@) + rest.0 == issue_views(old(issues)@) + cur.0
                &&& occ_views(final(occs)@) + rest.1 == occ_views(old(occs)@) + cur.1
            }),
    {
        let ghost s = cs@;
        let ghost v = self@;
        let ghost bi = issues@;
        let ghost cur = ja_scan(v, s, ln, lo as int, is_prose, collect, i as int);
        let ghost rest = ja_scan(v, s, ln, lo as int, is_prose, collect, i + 1);
        let n = cs.len();
        let c = cs[i];
        if c == '\u{3000}' {
            let flag = match self.fullwidth_space {
                SpacePolicy::Always => true,
                SpacePolicy::Never => false,
                SpacePolicy::Code => !is_prose,
            };
            if flag {
                let mut sp = String::new();
                push_char(&mut sp, ' ');
                proof {
                    reveal_strlit(" ");
                    assert(sp@ =~= " "@);
                }
                let issue = make_issue(cs, offs, ln, lo, i, i + 1, IssueKind::FullwidthSpace, sp);
                issues.push(issue);
                assert(issue_views(issues@) =~= issue_views(bi).push(issue@));
            }
            assert(issue_views(issues@) + rest.0 =~= issue_views(bi) + cur.0);
        } else if self.flag_compatibility && compatibility_character(c) {
            let one = string_from_range(cs.as_slice(), i, i + 1);
            assert(one@ =~= seq![c]);
            let n = nfkc_of(one.as_str());
            if !str_eq(n.as_str(), one.as_str()) {
                let issue = make_issue(cs, offs, ln, lo, i, i + 1, IssueKind::JaCompatibility, n);
                issues.push(issue);
                assert(issue_views(issues@) =~= issue_views(bi).push(issue@));
            }
            assert(issue_views(issues@) + rest.0 =~= issue_views(bi) + cur.0);
        } else {
            assert(issue_views(issues@) + rest.0 =~= issue_views(bi) + cur.0);
        }
        i + 1
    }
}


// ---------------------------------------------------------------------------
// Document-level katakana consistency
// ---------------------------------------------------------------------------

/// A form without its trailing long-vowel marks (ー).
pub open spec fn trim_long(f: Seq<char>) -> Seq<char>
    decreases f.len(),
{
    if f.len() > 0 && f.last() == 'ー' {
        trim_long(f.drop_last())
    } else {
        f
    }
}

pub open spec fn ends_long(f: Seq<char>) -> bool {
    f.len() > 0 && f.last() == 'ー'
}

pub type OccView = (Seq<char>, u32, usize, usize);

/// How many of the first `n` occurrences have form `f`.
pub open spec fn form_count(o: Seq<OccView>, f: Seq<char>, n: int) -> nat
    decreases n,
{
    if n <= 0 {
        0
    } else if o[n - 1].0 == f {
        form_count(o, f, n - 1) + 1
    } else {
        form_count(o, f, n - 1)
    }
}

/// Occurrence `i`'s form is preferred over occurrence `j`'s: more uses,
/// then a trailing long vowel, then the longer spelling.
pub open spec fn better(o: Seq<OccView>, i: int, j: int) -> bool {
    let ci = form_count(o, o[i].0, o.len() as int);
    let cj = form_count(o, o[j].0, o.len() as int);
    let ei = ends_long(o[i].0);
    let ej = ends_long(o[j].0);
    ci > cj || (ci == cj && ei && !ej) || (ci == cj && ei == ej && byte_len(o[i].0) > byte_len(
        o[j].0,
    ))
}

/// The first of the first `n` occurrences with key `k` that no other is
/// preferred over, or -1.
pub open spec fn best_of(o: Seq<OccView>, k: Seq<char>, n: int) -> int
    decreases n,
{
    if n <= 0 {
        -1
    } else {
        let b = best_of(o, k, n - 1);
        if trim_long(o[n - 1].0) == k && (b < 0 || better(o, n - 1, b)) {
            n - 1
        } else {
            b
        }
    }
}

/// Whether another occurrence spells occurrence `i`'s word differently.
pub open spec fn mixed(o: Seq<OccView>, i: int) -> bool {
    exists|j: int|
        0 <= j < o.len() && trim_long(#[trigger] o[j].0) == trim_long(o[i].0) && o[j].0 != o[i].0
}

/// The preferred spelling of occurrence `i`'s word in the document.
pub open spec fn winner(o: Seq<OccView>, i: int) -> Seq<char> {
    o[best_of(o, trim_long(o[i].0), o.len() as int)].0
}

/// Whether occurrence `i` is a minority spelling to flag.
pub open spec fn minority(o: Seq<OccView>, i: int) -> bool {
    trim_long(o[i].0).len() >= 2 && mixed(o, i) && o[i].0 != winner(o, i)
}

/// The consistency findings among the first `n` occurrences, in order.
pub open spec fn consistency_upto(o: Seq<OccView>, n: int) -> Seq<IssueView>
    decreases n,
{
    if n <= 0 {
        Seq::empty()
    } else {
        let rest = consistency_upto(o, n - 1);
        let x = o[n - 1];
        if minority(o, n - 1) {
            rest.push(
                IssueView {
                    line: x.1,
                    col: x.2,
                    offset: x.3,
                    len: byte_len(x.0) as usize,
                    word: x.0,
                    kind: IssueKind::JaVariant,
                    suggestions: seq![winner(o, n - 1)],
                },
            )
        } else {
            rest
        }
    }
}

/// The document-level katakana findings of a list of occurrences.
pub open spec fn spec_consistency_issues(o: Seq<OccView>) -> Seq<IssueView> {
    consistency_upto(o, o.len() as int)
}

/// The two spellings `a` (ending in ー) and `b` (without it) of one word are
/// its only spellings among the occurrences `o`, and occur equally often.
pub open spec fn tied_spellings(o: Seq<OccView>, a: Seq<char>, b: Seq<char>) -> bool {
    &&& a.len() > 0 && a.last() == 'ー'
    &&& (b.len() == 0 || b.last() != 'ー')
    &&& trim_long(a) == trim_long(b)
    &&& form_count(o, a, o.len() as int) == form_count(o, b, o.len() as int)
    &&& forall|i: int| 0 <= i < o.len() && trim_long(#[trigger] o[i].0) == trim_long(a) ==> o[i].0 == a || o[i].0 == b
}

proof fn lemma_form_count_occurs(o: Seq<OccView>, f: Seq<char>, n: int)
    requires
        0 <= n <= o.len(),
    ensures
        form_count(o, f, n) >= 1 <==> exists|t: int| 0 <= t < n && o[t].0 == f,
    decreases n,
{
    if n > 0 {
        lemma_form_count_occurs(o, f, n - 1);
        if exists|t: int| 0 <= t < n && o[t].0 == f {
            let t = choose|t: int| 0 <= t < n && o[t].0 == f;
            if t < n - 1 {
                assert(exists|t2: int| 0 <= t2 < n - 1 && o[t2].0 == f);
            }
        }
        if exists|t: int| 0 <= t < n - 1 && o[t].0 == f {
            let t = choose|t: int| 0 <= t < n - 1 && o[t].0 == f;
            assert(0 <= t < n && o[t].0 == f);
        }
    }
}

proof fn lemma_tied_best(o: Seq<OccView>, a: Seq<char>, b: Seq<char>, m: int)
    requires
        tied_spellings(o, a, b),
        0 <= m <= o.len(),
    ensures
        best_of(o, trim_long(a), m) >= 0 ==> best_of(o, trim_long(a), m) < m && trim_long(
            o[best_of(o, trim_long(a), m)].0,
        ) == trim_long(a),
        (exists|t: int| 0 <= t < m && o[t].0 == a) ==> best_of(o, trim_long(a), m) >= 0 && o[best_of(
            o,
            trim_long(a),
            m,
        )].0 == a,
        (exists|t: int| 0 <= t < m && o[t].0 == b) ==> best_of(o, trim_long(a), m) >= 0,
    decreases m,
{
    let k = trim_long(a);
    if m > 0 {
        lemma_tied_best(o, a, b, m - 1);
        let p = best_of(o, k, m - 1);
        let e = o[m - 1].0;
        if exists|t: int| 0 <= t < m && o[t].0 == a {
            let t = choose|t: int| 0 <= t < m && o[t].0 == a;
            if t < m - 1 {
                assert(exists|t2: int| 0 <= t2 < m - 1 && o[t2].0 == a);
            }
        }
        if exists|t: int| 0 <= t < m && o[t].0 == b {
            let t = choose|t: int| 0 <= t < m && o[t].0 == b;
            if t < m - 1 {
                assert(exists|t2: int| 0 <= t2 < m - 1 && o[t2].0 == b);
            } else {
                assert(trim_long(e) == k);
            }
        }
        if trim_long(e) == k && p >= 0 {
            assert(o[p].0 == a || o[p].0 == b);
            assert(e == a || e == b);
        }
        if exists|t: int| 0 <= t < m - 1 && o[t].0 == a {
            let t = choose|t: int| 0 <= t < m - 1 && o[t].0 == a;
            assert(0 <= t < m && o[t].0 == a);
        }
    }
}

proof fn lemma_consistency_ties_upto(o: Seq<OccView>, a: Seq<char>, b: Seq<char>, n: int)
    requires
        tied_spellings(o, a, b),
        0 <= n <= o.len(),
    ensures
        forall|k: int| 0 <= k < consistency_upto(o, n).len() ==> (#[trigger] consistency_upto(o, n)[k]).word != a,
        forall|k: int|
            0 <= k < consistency_upto(o, n).len() && (#[trigger] consistency_upto(o, n)[k]).word == b
                ==> consistency_upto(o, n)[k].suggestions == seq![a],
        trim_long(b).len() >= 2 ==> forall|i: int|
            0 <= i < n && #[trigger] o[i].0 == b ==> exists|k: int|
                0 <= k < consistency_upto(o, n).len() && consistency_upto(o, n)[k].word == b
                    && consistency_upto(o, n)[k].offset == o[i].3 && consistency_upto(o, n)[k].line == o[i].1,
    decreases n,
{
    if n > 0 {
        lemma_consistency_ties_upto(o, a, b, n - 1);
        let rest = consistency_upto(o, n - 1);
        let r = consistency_upto(o, n);
        let x = o[n - 1];
        let len = o.len() as int;
        lemma_tied_best(o, a, b, len);
        lemma_form_count_occurs(o, a, len);
        lemma_form_count_occurs(o, b, len);
        if x.0 == a || x.0 == b {
            assert(trim_long(x.0) == trim_long(a));
            assert(form_count(o, x.0, len) >= 1) by {
                assert(0 <= n - 1 < len && o[n - 1].0 == x.0);
                lemma_form_count_occurs(o, x.0, len);
            }
            assert(exists|t: int| 0 <= t < len && o[t].0 == a);
            assert(winner(o, n - 1) == a);
            if x.0 == b {
                let t = choose|t: int| 0 <= t < len && o[t].0 == a;
                assert(trim_long(o[t].0) == trim_long(o[n - 1].0) && o[t].0 != o[n - 1].0);
                assert(mixed(o, n - 1));
            }
        }
        assert forall|k: int| 0 <= k < rest.len() implies r[k] == rest[k] by {}
        if trim_long(b).len() >= 2 {
            assert forall|i: int| 0 <= i < n && #[trigger] o[i].0 == b implies exists|k: int|
                0 <= k < r.len() && r[k].word == b && r[k].offset == o[i].3 && r[k].line == o[i].1 by {
                if i < n - 1 {
                    let k = choose|k: int|
                        0 <= k < rest.len() && rest[k].word == b && rest[k].offset == o[i].3 && rest[k].line
                            == o[i].1;
                    assert(r[k] == rest[k]);
                } else {
                    assert(minority(o, n - 1));
                    assert(r[rest.len() as int].word == b);
                }
            }
        }
    }
}

/// A tie between the two spellings of a katakana word goes to the one
/// ending in the long-vowel mark ー: it is never flagged, and every use of
/// the other spelling (of a word of two or more letters) is flagged with it
/// as the suggestion.
pub proof fn law_consistency_ties_prefer_long(o: Seq<OccView>, a: Seq<char>, b: Seq<char>)
    requires
        tied_spellings(o, a, b),
    ensures
        forall|k: int|
            0 <= k < spec_consistency_issues(o).len() ==> (#[trigger] spec_consistency_issues(o)[k]).word != a,
        forall|k: int|
            0 <= k < spec_consistency_issues(o).len() && (#[trigger] spec_consistency_issues(o)[k]).word == b
                ==> spec_consistency_issues(o)[k].suggestions == seq![a],
        trim_long(b).len() >= 2 ==> forall|i: int|
            0 <= i < o.len() && #[trigger] o[i].0 == b ==> exists|k: int|
                0 <= k < spec_consistency_issues(o).len() && spec_consistency_issues(o)[k].word == b
                    && spec_consistency_issues(o)[k].offset == o[i].3 && spec_consistency_issues(o)[k].line
                    == o[i].1,
{
    lemma_consistency_ties_upto(o, a, b, o.len() as int);
}

proof fn lemma_better_order(o: Seq<OccView>, a: int, b: int, c: int)
    ensures
        !better(o, a, a),
        better(o, a, b) && better(o, b, c) ==> better(o, a, c),
{
}

proof fn lemma_best_of_props(o: Seq<OccView>, k: Seq<char>, m: int)
    requires
        0 <= m <= o.len(),
    ensures
        -1 <= best_of(o, k, m) < m,
        best_of(o, k, m) >= 0 ==> trim_long(o[best_of(o, k, m)].0) == k,
        forall|t: int|
            0 <= t < m && trim_long(#[trigger] o[t].0) == k ==> best_of(o, k, m) >= 0 && !better(
                o,
                t,
                best_of(o, k, m),
            ),
    decreases m,
{
    if m > 0 {
        lemma_best_of_props(o, k, m - 1);
        let b = best_of(o, k, m - 1);
        let r = best_of(o, k, m);
        assert forall|t: int| 0 <= t < m && trim_long(#[trigger] o[t].0) == k implies r >= 0 && !better(
            o,
            t,
            r,
        ) by {
            lemma_better_order(o, t, m - 1, b);
            lemma_better_order(o, m - 1, m - 1, b);
        }
    }
}

proof fn lemma_consistency_upto_findings(o: Seq<OccView>, n: int)
    requires
        0 <= n <= o.len(),
    ensures
        forall|k: int|
            0 <= k < consistency_upto(o, n).len() ==> exists|i: int|
                0 <= i < n && minority(o, i) && (#[trigger] consistency_upto(o, n)[k]).word == o[i].0
                    && consistency_upto(o, n)[k].suggestions == seq![winner(o, i)]
                    && consistency_upto(o, n)[k].kind == IssueKind::JaVariant,
        forall|i: int|
            0 <= i < n && minority(o, i) ==> exists|k: int|
                0 <= k < consistency_upto(o, n).len() && (#[trigger] consistency_upto(o, n)[k]).word == o[i].0
                    && consistency_upto(o, n)[k].offset == o[i].3 && consistency_upto(o, n)[k].line == o[i].1,
    decreases n,
{
    if n > 0 {
        lemma_consistency_upto_findings(o, n - 1);
        let rest = consistency_upto(o, n - 1);
        let r = consistency_upto(o, n);
        assert forall|k: int| 0 <= k < rest.len() implies r[k] == rest[k] by {}
        assert forall|k: int| 0 <= k < r.len() implies exists|i: int|
            0 <= i < n && minority(o, i) && (#[trigger] r[k]).word == o[i].0 && r[k].suggestions == seq![
                winner(o, i),
            ] && r[k].kind == IssueKind::JaVariant by {
            if k < rest.len() {
                let i = choose|i: int|
                    0 <= i < n - 1 && minority(o, i) && rest[k].word == o[i].0 && rest[k].suggestions
                        == seq![winner(o, i)] && rest[k].kind == IssueKind::JaVariant;
                assert(r[k] == rest[k]);
            } else {
                assert(minority(o, n - 1));
            }
        }
        assert forall|i: int| 0 <= i < n && minority(o, i) implies exists|k: int|
            0 <= k < r.len() && (#[trigger] r[k]).word == o[i].0 && r[k].offset == o[i].3 && r[k].line
                == o[i].1 by {
            if i < n - 1 {
                let k = choose|k: int|
                    0 <= k < rest.len() && rest[k].word == o[i].0 && rest[k].offset == o[i].3 && rest[k].line
                        == o[i].1;
                assert(r[k] == rest[k]);
            } else {
                assert(r[rest.len() as int].word == o[i].0);
            }
        }
    }
}

/// Each katakana consistency finding suggests one other spelling of the
/// same word that the document uses at least as often, preferring on a tie
/// a trailing long-vowel mark ー and then the longer spelling; and every use
/// of a word of two or more letters is flagged where another spelling of it
/// is used more often.
pub proof fn law_consistency_suggests_preferred(o: Seq<OccView>)
    ensures
        forall|k: int|
            0 <= k < spec_consistency_issues(o).len() ==> {
                let x = #[trigger] spec_consistency_issues(o)[k];
                let s = x.suggestions[0];
                let cw = form_count(o, x.word, o.len() as int);
                let cs = form_count(o, s, o.len() as int);
                &&& x.kind == IssueKind::JaVariant
                &&& x.suggestions.len() == 1
                &&& trim_long(s) == trim_long(x.word)
                &&& s != x.word
                &&& cw >= 1
                &&& cs >= cw
                &&& cs == cw && x.word.len() > 0 && x.word.last() == 'ー' ==> s.len() > 0 && s.last() == 'ー'
                &&& cs == cw && ends_long(s) == ends_long(x.word) ==> byte_len(s) >= byte_len(x.word)
            },
        forall|i: int, j: int|
            0 <= i < o.len() && 0 <= j < o.len() && trim_long(o[i].0).len() >= 2 && trim_long(#[trigger] o[j].0)
                == trim_long(#[trigger] o[i].0) && form_count(o, o[j].0, o.len() as int) > form_count(
                o,
                o[i].0,
                o.len() as int,
            ) ==> exists|k: int|
                0 <= k < spec_consistency_issues(o).len() && spec_consistency_issues(o)[k].word == o[i].0
                    && spec_consistency_issues(o)[k].offset == o[i].3 && spec_consistency_issues(o)[k].line
                    == o[i].1,
{
    let len = o.len() as int;
    let f = spec_consistency_issues(o);
    lemma_consistency_upto_findings(o, len);
    assert forall|k: int| 0 <= k < f.len() implies {
        let x = #[trigger] f[k];
        let s = x.suggestions[0];
        let cw = form_count(o, x.word, len);
        let cs = form_count(o, s, len);
        &&& x.kind == IssueKind::JaVariant
        &&& x.suggestions.len() == 1
        &&& trim_long(s) == trim_long(x.word)
        &&& s != x.word
        &&& cw >= 1
        &&& cs >= cw
        &&& cs == cw && x.word.len() > 0 && x.word.last() == 'ー' ==> s.len() > 0 && s.last() == 'ー'
        &&& cs == cw && ends_long(s) == ends_long(x.word) ==> byte_len(s) >= byte_len(x.word)
    } by {
        let i = choose|i: int|
            0 <= i < len && minority(o, i) && f[k].word == o[i].0 && f[k].suggestions == seq![winner(o, i)]
                && f[k].kind == IssueKind::JaVariant;
        let key = trim_long(o[i].0);
        lemma_best_of_props(o, key, len);
        let b = best_of(o, key, len);
        assert(!better(o, i, b));
        lemma_form_count_occurs(o, o[i].0, len);
    }
    assert forall|i: int, j: int|
        0 <= i < len && 0 <= j < len && trim_long(o[i].0).len() >= 2 && trim_long(#[trigger] o[j].0)
            == trim_long(#[trigger] o[i].0) && form_count(o, o[j].0, len) > form_count(o, o[i].0, len)
        implies exists|k: int|
        0 <= k < f.len() && f[k].word == o[i].0 && f[k].offset == o[i].3 && f[k].line == o[i].1 by {
        let key = trim_long(o[i].0);
        lemma_best_of_props(o, key, len);
        let b = best_of(o, key, len);
        assert(!better(o, j, b));
        assert(o[j].0 != o[i].0);
        assert(mixed(o, i));
        assert(minority(o, i));
    }
}

fn trim_long_of(f: &String) -> (r: Vec<char>)
    ensures
        r@ == trim_long(f@),
{
    let cs = chars_of(f.as_str());
    let mut e = cs.len();
    assert(cs@.take(cs@.len() as int) =~= cs@);
    while e > 0 && cs[e - 1] == 'ー'
        invariant
            e <= cs@.len(),
            trim_long(f@) == trim_long(cs@.take(e as int)),
            cs@ == f@,
        decreases e,
    {
        assert(cs@.take(e as int).drop_last() =~= cs@.take(e - 1));
        e -= 1;
    }
    assert(cs@.take(cs@.len() as int) =~= cs@);
    let r = crate::text::slice_range(cs.as_slice(), 0, e);
    assert(r@ =~= cs@.take(e as int));
    r
}

fn chars_eq(a: &Vec<char>, b: &Vec<char>) -> (r: bool)
    ensures
        r == (a@ == b@),
{
    if a.len() != b.len() {
        return false;
    }
    let mut i: usize = 0;
    while i < a.len()
        invariant
            a@.len() == b@.len(),
            0 <= i <= a@.len(),
            forall|k: int| 0 <= k < i ==> a@[k] == b@[k],
        decreases a@.len() - i,
    {
        if a[i] != b[i] {
            return false;
        }
        i += 1;
    }
    assert(a@ =~= b@);
    true
}

/// Document-level katakana consistency: when one document spells the same
/// word both with and without a trailing long vowel, flag the minority form
/// and suggest the majority (ties prefer the modern long form, then the
/// longer spelling). Findings come in occurrence order.
pub fn consistency_issues(occs: &Vec<KatakanaOcc>) -> (r: Vec<Issue>)
    ensures
        issue_views(r@) == spec_consistency_issues(occ_views(occs@)),
{
    let ghost o = occ_views(occs@);
    let n = occs.len();
    let mut keys: Vec<Vec<char>> = Vec::new();
    let mut counts: Vec<usize> = Vec::new();
    let mut i: usize = 0;
    while i < n
        invariant
            n == occs@.len(),
            o == occ_views(occs@),
            0 <= i <= n,
            keys@.len() == i,
            counts@.len() == i,
            forall|k: int| 0 <= k < i ==> (#[trigger] keys@[k])@ == trim_long(o[k].0),
            forall|k: int| 0 <= k < i ==> #[trigger] counts@[k] == form_count(o, o[k].0, n as int),
        decreases n - i,
    {
        keys.push(trim_long_of(&occs[i].form));
        let mut c: usize = 0;
        let mut j: usize = 0;
        while j < n
            invariant
                n == occs@.len(),
                o == occ_views(occs@),
                0 <= i < n,
                0 <= j <= n,
                c == form_count(o, o[i as int].0, j as int),
                c <= j,
            decreases n - j,
        {
            if occs[j].form == occs[i].form {
                c += 1;
            }
            j += 1;
        }
        counts.push(c);
        i += 1;
    }
    let mut out: Vec<Issue> = Vec::new();
    let mut i: usize = 0;
    while i < n
        invariant
            n == occs@.len(),
            o == occ_views(occs@),
            0 <= i <= n,
            keys@.len() == n,
            counts@.len() == n,
            forall|k: int| 0 <= k < n ==> (#[trigger] keys@[k])@ == trim_long(o[k].0),
            forall|k: int| 0 <= k < n ==> #[trigger] counts@[k] == form_count(o, o[k].0, n as int),
            issue_views(out@) == consistency_upto(o, i as int),
        decreases n - i,
    {
        let ghost key = trim_long(o[i as int].0);
        let ghost before = out@;
        if keys[i].len() >= 2 {
            let mut best: usize = n;
            let mut found_other = false;
            let mut j: usize = 0;
            while j < n
                invariant
                    n == occs@.len(),
                    o == occ_views(occs@),
                    0 <= i < n,
                    0 <= j <= n,
                    keys@.len() == n,
                    counts@.len() == n,
                    key == trim_long(o[i as int].0),
                    forall|k: int| 0 <= k < n ==> (#[trigger] keys@[k])@ == trim_long(o[k].0),
                    forall|k: int| 0 <= k < n ==> #[trigger] counts@[k] == form_count(o, o[k].0, n as int),
                    best <= n,
                    best == n <==> best_of(o, key, j as int) < 0,
                    best < n ==> best == best_of(o, key, j as int),
                    best_of(o, key, j as int) < j,
                    found_other == exists|m: int|
                        0 <= m < j && trim_long(#[trigger] o[m].0) == key && o[m].0 != o[i as int].0,
                decreases n - j,
            {
                if chars_eq(&keys[j], &keys[i]) {
                    if occs[j].form != occs[i].form {
                        found_other = true;
                    }
                    let take = if best == n {
                        true
                    } else {
                        let cj = counts[j];
                        let cb = counts[best];
                        let ej = ends_with_long(&occs[j].form);
                        let eb = ends_with_long(&occs[best].form);
                        let lj = str_byte_len(occs[j].form.as_str());
                        let lb = str_byte_len(occs[best].form.as_str());
                        cj > cb || (cj == cb && ej && !eb) || (cj == cb && ej == eb && lj > lb)
                    };
                    if take {
                        best = j;
                    }
                }
                proof {
                    if found_other && !(exists|m: int|
                        0 <= m < j && trim_long(#[trigger] o[m].0) == key && o[m].0 != o[i as int].0) {
                        assert(trim_long(o[j as int].0) == key && o[j as int].0 != o[i as int].0);
                    }
                }
                j += 1;
            }
            proof {
                lemma_best_of(o, key, n as int);
                assert(trim_long(o[i as int].0) == key);
                assert(found_other == mixed(o, i as int));
                if best == n {
                    assert(false);
                }
                assert(winner(o, i as int) == o[best as int].0);
                assert(o[i as int] == occ_view(occs@[i as int]));
                assert(o[best as int] == occ_view(occs@[best as int]));
            }
            if found_other && best < n && occs[best].form != occs[i].form {
                let sugg = occs[best].form.clone();
                let word = occs[i].form.clone();
                let len = str_byte_len(occs[i].form.as_str());
                let issue = Issue {
                    line: occs[i].line,
                    col: occs[i].col,
                    offset: occs[i].offset,
                    len,
                    word,
                    kind: IssueKind::JaVariant,
                    suggestions: single(sugg),
                };
                out.push(issue);
                assert(issue_views(out@) =~= issue_views(before).push(issue@));
            }
        }
        proof {
            assert(o[i as int] == occ_view(occs@[i as int]));
        }
        i += 1;
    }
    out
}

pub proof fn lemma_best_of(o: Seq<OccView>, k: Seq<char>, n: int)
    requires
        0 <= n <= o.len(),
    ensures
        best_of(o, k, n) < n,
        best_of(o, k, n) >= 0 ==> trim_long(o[best_of(o, k, n)].0) == k,
        (exists|m: int| 0 <= m < n && trim_long(#[trigger] o[m].0) == k) ==> best_of(o, k, n) >= 0,
    decreases n,
{
    if n > 0 {
        lemma_best_of(o, k, n - 1);
        if exists|m: int| 0 <= m < n && trim_long(#[trigger] o[m].0) == k {
            let m = choose|m: int| 0 <= m < n && trim_long(#[trigger] o[m].0) == k;
            if m < n - 1 {
                assert(exists|m: int| 0 <= m < n - 1 && trim_long(#[trigger] o[m].0) == k);
            }
        }
    }
}

fn ends_with_long(f: &String) -> (r: bool)
    ensures
        r == ends_long(f@),
{
    let cs = chars_of(f.as_str());
    cs.len() > 0 && cs[cs.len() - 1] == 'ー'
}


// ---------------------------------------------------------------------------
// Document-level kanji, number and punctuation consistency
// ---------------------------------------------------------------------------

/// Number of line breaks among the first `k` characters.
pub open spec fn nl_count(s: Seq<char>, k: int) -> nat
    decreases k,
{
    if k <= 0 {
        0
    } else {
        nl_count(s, k - 1) + if s[k - 1] == '\n' {
            1nat
        } else {
            0nat
        }
    }
}

/// Index of the first character of the line holding character `k`.
pub open spec fn line_start(s: Seq<char>, k: int) -> int
    decreases k,
{
    if k <= 0 {
        0
    } else if s[k - 1] == '\n' {
        k
    } else {
        line_start(s, k - 1)
    }
}

/// The issue for the characters `s[k..e]` of a whole document.
pub open spec fn issue_at(s: Seq<char>, k: int, e: int, kind: IssueKind, suggestion: Seq<char>) -> IssueView {
    IssueView {
        line: (nl_count(s, k) + 1) as u32,
        col: (byte_offset(s, k) - byte_offset(s, line_start(s, k))) as usize,
        offset: byte_offset(s, k) as usize,
        len: (byte_offset(s, e) - byte_offset(s, k)) as usize,
        word: s.subrange(k, e),
        kind,
        suggestions: seq![suggestion],
    }
}

/// A document with the byte offset, line number and line start of each
/// character index.
struct DocIndex {
    cs: Vec<char>,
    offs: Vec<usize>,
    lines: Vec<u32>,
    starts: Vec<usize>,
}

impl DocIndex {
    spec fn wf(&self) -> bool {
        let n = self.cs@.len();
        &&& scan_inputs(self.cs@, self.offs@, 0)
        &&& self.lines@.len() == n + 1
        &&& self.starts@.len() == n + 1
        &&& forall|k: int| 0 <= k <= n ==> #[trigger] self.lines@[k] == nl_count(self.cs@, k) + 1
        &&& forall|k: int| 0 <= k <= n ==> #[trigger] self.starts@[k] == line_start(self.cs@, k)
    }
}

proof fn lemma_line_start(s: Seq<char>, k: int)
    requires
        0 <= k <= s.len(),
    ensures
        0 <= line_start(s, k) <= k,
    decreases k,
{
    if k > 0 && s[k - 1] != '\n' {
        lemma_line_start(s, k - 1);
    }
}

pub proof fn lemma_nl_count(s: Seq<char>, k: int, m: int)
    requires
        0 <= k <= m <= s.len(),
    ensures
        nl_count(s, k) <= nl_count(s, m),
    decreases m - k,
{
    if k < m {
        lemma_nl_count(s, k, m - 1);
    }
}

fn doc_index(text: &str) -> (d: DocIndex)
    requires
        nl_count(text@, text@.len() as int) < u32::MAX,
    ensures
        d.wf(),
        d.cs@ == text@,
{
    let n_bytes = str_byte_len(text);
    let cs = chars_of(text);
    let offs = byte_offsets(cs.as_slice());
    let mut lines: Vec<u32> = Vec::new();
    let mut starts: Vec<usize> = Vec::new();
    let mut line: u32 = 1;
    let mut start: usize = 0;
    let mut k: usize = 0;
    lines.push(1);
    starts.push(0);
    while k < cs.len()
        invariant
            cs@ == text@,
            n_bytes == byte_len(text@),
            scan_inputs(cs@, offs@, 0),
            nl_count(cs@, cs@.len() as int) < u32::MAX,
            0 <= k <= cs@.len(),
            lines@.len() == k + 1,
            starts@.len() == k + 1,
            line == nl_count(cs@, k as int) + 1,
            start == line_start(cs@, k as int),
            forall|j: int| 0 <= j <= k ==> #[trigger] lines@[j] == nl_count(cs@, j) + 1,
            forall|j: int| 0 <= j <= k ==> #[trigger] starts@[j] == line_start(cs@, j),
        decreases cs@.len() - k,
    {
        proof {
            lemma_nl_count(cs@, k + 1, cs@.len() as int);
        }
        if cs[k] == '\n' {
            line = line + 1;
            start = k + 1;
        }
        k += 1;
        lines.push(line);
        starts.push(start);
    }
    DocIndex { cs, offs, lines, starts }
}

/// The issue for `d.cs[k..e]`.
fn doc_issue(d: &DocIndex, k: usize, e: usize, kind: IssueKind, suggestion: String) -> (r: Issue)
    requires
        d.wf(),
        k <= e <= d.cs@.len(),
    ensures
        r@ == issue_at(d.cs@, k as int, e as int, kind, suggestion@),
{
    proof {
        lemma_line_start(d.cs@, k as int);
        lemma_offset_mono(d.cs@, line_start(d.cs@, k as int), k as int);
        lemma_offset_mono(d.cs@, k as int, e as int);
    }
    let ls = d.starts[k];
    let word = string_from_range(d.cs.as_slice(), k, e);
    Issue {
        line: d.lines[k],
        col: d.offs[k] - d.offs[ls],
        offset: d.offs[k],
        len: d.offs[e] - d.offs[k],
        word,
        kind,
        suggestions: single(suggestion),
    }
}

/// Character indices of the non-overlapping occurrences of `p` in `s` from
/// `i` on, leftmost first.
pub open spec fn find_all(s: Seq<char>, p: Seq<char>, i: int) -> Seq<int>
    decreases s.len() - i,
{
    if p.len() == 0 || i < 0 || i + p.len() > s.len() {
        Seq::empty()
    } else if s.subrange(i, i + p.len()) == p {
        seq![i] + find_all(s, p, i + p.len())
    } else {
        find_all(s, p, i + 1)
    }
}

pub open spec fn ints(v: Seq<usize>) -> Seq<int> {
    v.map_values(|x: usize| x as int)
}

fn matches_at(s: &Vec<char>, i: usize, p: &Vec<char>) -> (r: bool)
    requires
        i + p@.len() <= s@.len(),
    ensures
        r == (s@.subrange(i as int, i + p@.len()) == p@),
{
    let n = s.len();
    let mut j: usize = 0;
    while j < p.len()
        invariant
            n == s@.len(),
            i + p@.len() <= s@.len(),
            0 <= j <= p@.len(),
            forall|m: int| 0 <= m < j ==> s@[i + m] == p@[m],
        decreases p@.len() - j,
    {
        if s[i + j] != p[j] {
            assert(s@.subrange(i as int, i + p@.len())[j as int] != p@[j as int]);
            return false;
        }
        j += 1;
    }
    assert(s@.subrange(i as int, i + p@.len()) =~= p@);
    true
}

fn find_all_exec(s: &Vec<char>, p: &Vec<char>) -> (r: Vec<usize>)
    requires
        p@.len() > 0,
    ensures
        ints(r@) == find_all(s@, p@, 0),
        forall|k: int| 0 <= k < r@.len() ==> #[trigger] r@[k] + p@.len() <= s@.len(),
{
    let mut out: Vec<usize> = Vec::new();
    let mut i: usize = 0;
    let n = s.len();
    assert(ints(out@) + find_all(s@, p@, 0) =~= find_all(s@, p@, 0));
    while p.len() <= n && i <= n - p.len()
        invariant
            n == s@.len(),
            p@.len() > 0,
            i <= n,
            ints(out@) + find_all(s@, p@, i as int) == find_all(s@, p@, 0),
            forall|k: int| 0 <= k < out@.len() ==> #[trigger] out@[k] + p@.len() <= s@.len(),
        decreases n - i,
    {
        if matches_at(s, i, p) {
            let ghost before = out@;
            out.push(i);
            assert(ints(out@) =~= ints(before).push(i as int));
            assert(ints(out@) + find_all(s@, p@, i + p@.len()) =~= ints(before) + find_all(s@, p@, i as int));
            i = i + p.len();
        } else {
            i = i + 1;
        }
    }
    assert(ints(out@) =~= ints(out@) + find_all(s@, p@, i as int));
    out
}

/// Issues at the character indices `idx`, each covering `len` characters.
pub open spec fn issues_at(
    s: Seq<char>,
    idx: Seq<int>,
    len: int,
    kind: IssueKind,
    suggestion: Seq<char>,
) -> Seq<IssueView> {
    idx.map_values(|k: int| issue_at(s, k, k + len, kind, suggestion))
}

/// Findings of one kanji pair: the minority spelling (the variant on a tie)
/// when both appear.
pub open spec fn kanji_pair_issues(s: Seq<char>, v: Seq<char>, p: Seq<char>) -> Seq<IssueView> {
    let vs = find_all(s, v, 0);
    let ps = find_all(s, p, 0);
    if vs.len() == 0 || ps.len() == 0 {
        Seq::empty()
    } else if ps.len() < vs.len() {
        issues_at(s, ps, p.len() as int, IssueKind::JaVariant, v)
    } else {
        issues_at(s, vs, v.len() as int, IssueKind::JaVariant, p)
    }
}

/// Findings of the kanji pairs, pair by pair.
pub open spec fn kanji_issues(s: Seq<char>, pairs: Seq<(Seq<char>, Seq<char>)>) -> Seq<IssueView>
    decreases pairs.len(),
{
    if pairs.len() == 0 {
        Seq::empty()
    } else {
        kanji_issues(s, pairs.drop_last()) + kanji_pair_issues(s, pairs.last().0, pairs.last().1)
    }
}

fn push_issues_at(
    d: &DocIndex,
    idx: &Vec<usize>,
    len: usize,
    kind: IssueKind,
    suggestion: &str,
    out: &mut Vec<Issue>,
)
    requires
        d.wf(),
        forall|k: int| 0 <= k < idx@.len() ==> #[trigger] idx@[k] + len <= d.cs@.len(),
    ensures
        issue_views(final(out)@) == issue_views(old(out)@) + issues_at(
            d.cs@,
            ints(idx@),
            len as int,
            kind,
            suggestion@,
        ),
{
    let n = d.cs.len();
    let mut j: usize = 0;
    while j < idx.len()
        invariant
            n == d.cs@.len(),
            d.wf(),
            forall|k: int| 0 <= k < idx@.len() ==> #[trigger] idx@[k] + len <= d.cs@.len(),
            0 <= j <= idx@.len(),
            issue_views(out@) == issue_views(old(out)@) + issues_at(
                d.cs@,
                ints(idx@.take(j as int)),
                len as int,
                kind,
                suggestion@,
            ),
        decreases idx@.len() - j,
    {
        let ghost before = out@;
        let k = idx[j];
        let issue = doc_issue(d, k, k + len, kind, to_owned(suggestion));
        out.push(issue);
        assert(issue_views(out@) =~= issue_views(before).push(issue@));
        assert(ints(idx@.take(j + 1)) =~= ints(idx@.take(j as int)).push(k as int));
        assert(issues_at(d.cs@, ints(idx@.take(j + 1)), len as int, kind, suggestion@) =~= issues_at(
            d.cs@,
            ints(idx@.take(j as int)),
            len as int,
            kind,
            suggestion@,
        ).push(issue@));
        assert(issue_views(out@) =~= issue_views(old(out)@) + issues_at(
            d.cs@,
            ints(idx@.take(j + 1)),
            len as int,
            kind,
            suggestion@,
        ));
        j += 1;
    }
    assert(idx@.take(idx@.len() as int) =~= idx@);
}

fn kanji_consistency_issues(d: &DocIndex) -> (r: Vec<Issue>)
    requires
        d.wf(),
    ensures
        issue_views(r@) == kanji_issues(d.cs@, kanji_pairs()),
{
    proof {
        reveal_strlit("お問合せ");
        reveal_strlit("お問い合わせ");
        reveal_strlit("取扱い");
        reveal_strlit("取り扱い");
        reveal_strlit("子供");
        reveal_strlit("子ども");
        reveal_strlit("引続き");
        reveal_strlit("引き続き");
        reveal_strlit("行なう");
        reveal_strlit("行う");
        reveal_strlit("表わす");
        reveal_strlit("表す");
        reveal_strlit("読替える");
        reveal_strlit("読み替える");
        reveal_strlit("問い合せ");
        reveal_strlit("問い合わせ");
    }
    let table = kanji_pair_table();
    let mut out: Vec<Issue> = Vec::new();
    let mut t: usize = 0;
    assert(kanji_pairs().take(0) =~= Seq::<(Seq<char>, Seq<char>)>::empty());
    while t < table.len()
        invariant
            d.wf(),
            table@.len() == kanji_pairs().len(),
            forall|k: int|
                0 <= k < table@.len() ==> (#[trigger] table@[k]).0@ == kanji_pairs()[k].0
                    && table@[k].1@ == kanji_pairs()[k].1,
            forall|k: int|
                0 <= k < kanji_pairs().len() ==> (#[trigger] kanji_pairs()[k]).0.len() > 0
                    && kanji_pairs()[k].1.len() > 0,
            0 <= t <= table@.len(),
            issue_views(out@) == kanji_issues(d.cs@, kanji_pairs().take(t as int)),
        decreases table@.len() - t,
    {
        let (variant, preferred) = table[t];
        let vc = chars_of(variant);
        let pc = chars_of(preferred);
        let vs = find_all_exec(&d.cs, &vc);
        let ps = find_all_exec(&d.cs, &pc);
        let ghost before = out@;
        if vs.len() > 0 && ps.len() > 0 {
            if ps.len() < vs.len() {
                push_issues_at(d, &ps, pc.len(), IssueKind::JaVariant, variant, &mut out);
            } else {
                push_issues_at(d, &vs, vc.len(), IssueKind::JaVariant, preferred, &mut out);
            }
        }
        proof {
            let pr = kanji_pairs().take(t + 1);
            assert(pr.drop_last() =~= kanji_pairs().take(t as int));
            assert(pr.last() == kanji_pairs()[t as int]);
            assert(issue_views(out@) =~= kanji_issues(d.cs@, pr));
        }
        t += 1;
    }
    assert(kanji_pairs().take(kanji_pairs().len() as int) =~= kanji_pairs());
    out
}

pub open spec fn is_jp_punct(c: char) -> bool {
    c == '、' || c == '。'
}

pub open spec fn is_fw_punct(c: char) -> bool {
    c == '，' || c == '．'
}

/// How many of the first `n` characters satisfy `jp` (Japanese marks) or
/// the fullwidth Latin marks.
pub open spec fn punct_count(s: Seq<char>, jp: bool, n: int) -> nat
    decreases n,
{
    if n <= 0 {
        0
    } else {
        punct_count(s, jp, n - 1) + if (jp && is_jp_punct(s[n - 1])) || (!jp && is_fw_punct(
            s[n - 1],
        )) {
            1nat
        } else {
            0nat
        }
    }
}

/// The mark of the preferred style for a mark of the other style.
pub open spec fn punct_fix(prefer_jp: bool, c: char) -> Option<Seq<char>> {
    if prefer_jp && c == '，' {
        Some("、"@)
    } else if prefer_jp && c == '．' {
        Some("。"@)
    } else if !prefer_jp && c == '、' {
        Some("，"@)
    } else if !prefer_jp && c == '。' {
        Some("．"@)
    } else {
        None
    }
}

pub open spec fn punct_upto(s: Seq<char>, prefer_jp: bool, n: int) -> Seq<IssueView>
    decreases n,
{
    if n <= 0 {
        Seq::empty()
    } else {
        let rest = punct_upto(s, prefer_jp, n - 1);
        match punct_fix(prefer_jp, s[n - 1]) {
            Some(f) => rest.push(issue_at(s, n - 1, n, IssueKind::JaPunctuation, f)),
            None => rest,
        }
    }
}

/// Punctuation findings: when both styles appear, the minority style's
/// marks (Japanese marks win a tie).
pub open spec fn punctuation_issues(s: Seq<char>) -> Seq<IssueView> {
    let jp = punct_count(s, true, s.len() as int);
    let fw = punct_count(s, false, s.len() as int);
    if jp == 0 || fw == 0 {
        Seq::empty()
    } else {
        punct_upto(s, jp >= fw, s.len() as int)
    }
}

fn punctuation_consistency_issues(d: &DocIndex) -> (r: Vec<Issue>)
    requires
        d.wf(),
    ensures
        issue_views(r@) == punctuation_issues(d.cs@),
{
    let n = d.cs.len();
    let mut jp: usize = 0;
    let mut fw: usize = 0;
    let mut k: usize = 0;
    while k < n
        invariant
            n == d.cs@.len(),
            0 <= k <= n,
            jp == punct_count(d.cs@, true, k as int),
            fw == punct_count(d.cs@, false, k as int),
            jp <= k,
            fw <= k,
        decreases n - k,
    {
        let c = d.cs[k];
        if c == '、' || c == '。' {
            jp += 1;
        }
        if c == '，' || c == '．' {
            fw += 1;
        }
        k += 1;
    }
    let mut out: Vec<Issue> = Vec::new();
    if jp == 0 || fw == 0 {
        return out;
    }
    let prefer_jp = jp >= fw;
    let mut k: usize = 0;
    while k < n
        invariant
            d.wf(),
            n == d.cs@.len(),
            0 <= k <= n,
            issue_views(out@) == punct_upto(d.cs@, prefer_jp, k as int),
        decreases n - k,
    {
        let c = d.cs[k];
        let ghost before = out@;
        let fix: Option<&str> = if prefer_jp && c == '，' {
            Some("、")
        } else if prefer_jp && c == '．' {
            Some("。")
        } else if !prefer_jp && c == '、' {
            Some("，")
        } else if !prefer_jp && c == '。' {
            Some("．")
        } else {
            None
        };
        match fix {
            Some(f) => {
                let issue = doc_issue(d, k, k + 1, IssueKind::JaPunctuation, to_owned(f));
                out.push(issue);
                assert(issue_views(out@) =~= issue_views(before).push(issue@));
            },
            None => {},
        }
        k += 1;
    }
    out
}


#[derive(Debug, Clone, Copy, PartialEq, Eq, Structural)]
pub enum NumberStyle {
    Arabic,
    Kanji,
}

/// A counted quantity such as 1,000円 or 一〇〇〇円.
#[derive(Debug)]
pub struct NumberOccurrence {
    /// Byte offset in the document.
    pub offset: usize,
    /// The text as written.
    pub form: String,
    /// Its digits in ASCII, commas dropped, followed by the unit.
    pub canonical: String,
    pub style: NumberStyle,
}

/// The ASCII digit of a kanji numeral.
pub open spec fn spec_kanji_digit(c: char) -> Option<char> {
    match c {
        '〇' => Some('0'),
        '零' => Some('0'),
        '一' => Some('1'),
        '二' => Some('2'),
        '三' => Some('3'),
        '四' => Some('4'),
        '五' => Some('5'),
        '六' => Some('6'),
        '七' => Some('7'),
        '八' => Some('8'),
        '九' => Some('9'),
        _ => None,
    }
}

fn kanji_digit(c: char) -> (r: Option<char>)
    ensures
        r == spec_kanji_digit(c),
{
    match c {
        '〇' => Some('0'),
        '零' => Some('0'),
        '一' => Some('1'),
        '二' => Some('2'),
        '三' => Some('3'),
        '四' => Some('4'),
        '五' => Some('5'),
        '六' => Some('6'),
        '七' => Some('7'),
        '八' => Some('8'),
        '九' => Some('9'),
        _ => None,
    }
}

pub open spec fn is_ascii_digit(c: char) -> bool {
    '0' <= c <= '9'
}

/// The counters that end a quantity.
pub open spec fn is_unit(c: char) -> bool {
    c == '円' || c == '人' || c == '件' || c == '年' || c == '月' || c == '日' || c == '時'
        || c == '分' || c == '秒'
}

fn unit(c: char) -> (r: bool)
    ensures
        r == is_unit(c),
{
    c == '円' || c == '人' || c == '件' || c == '年' || c == '月' || c == '日' || c == '時'
        || c == '分' || c == '秒'
}

/// Whether `c` continues a number of the given style (commas continue an
/// Arabic number).
pub open spec fn num_continues(style: NumberStyle, c: char) -> bool {
    match style {
        NumberStyle::Arabic => is_ascii_digit(c) || c == ',',
        NumberStyle::Kanji => spec_kanji_digit(c) is Some,
    }
}

pub open spec fn num_run_end(s: Seq<char>, i: int, style: NumberStyle) -> int
    decreases s.len() - i,
{
    if 0 <= i < s.len() && num_continues(style, s[i]) {
        num_run_end(s, i + 1, style)
    } else {
        i
    }
}

pub proof fn lemma_num_run_end(s: Seq<char>, i: int, style: NumberStyle)
    requires
        0 <= i <= s.len(),
    ensures
        i <= num_run_end(s, i, style) <= s.len(),
        forall|j: int| i <= j < num_run_end(s, i, style) ==> num_continues(style, #[trigger] s[j]),
    decreases s.len() - i,
{
    if i < s.len() && num_continues(style, s[i]) {
        lemma_num_run_end(s, i + 1, style);
    }
}

/// The ASCII digits of a written number.
pub open spec fn canon_digits(t: Seq<char>, style: NumberStyle) -> Seq<char>
    decreases t.len(),
{
    if t.len() == 0 {
        Seq::empty()
    } else {
        let rest = canon_digits(t.drop_last(), style);
        let c = t.last();
        match style {
            NumberStyle::Arabic => if c == ',' {
                rest
            } else {
                rest.push(c)
            },
            NumberStyle::Kanji => rest.push(spec_kanji_digit(c)->0),
        }
    }
}

/// The quantities of a text from character `i` on: (start, end, canonical
/// form, style), in order.
pub open spec fn num_scan(s: Seq<char>, i: int) -> Seq<(int, int, Seq<char>, NumberStyle)>
    decreases s.len() - i,
{
    if i < 0 || i >= s.len() {
        Seq::empty()
    } else {
        let c = s[i];
        if !(is_ascii_digit(c) || spec_kanji_digit(c) is Some) {
            num_scan(s, i + 1)
        } else {
            let style = if is_ascii_digit(c) {
                NumberStyle::Arabic
            } else {
                NumberStyle::Kanji
            };
            let e = num_run_end(s, i + 1, style);
            if e >= s.len() || e <= i {
                Seq::empty()
            } else if !is_unit(s[e]) {
                num_scan(s, e)
            } else {
                seq![(i, e + 1, canon_digits(s.subrange(i, e), style).push(s[e]), style)] + num_scan(
                    s,
                    e + 1,
                )
            }
        }
    }
}

/// A quantity read as (start, end, canonical form, style) matches its
/// occurrence in `s`.
pub open spec fn num_matches(s: Seq<char>, q: (int, int, Seq<char>, NumberStyle), o: NumberOccurrence) -> bool {
    &&& 0 <= q.0 < q.1 <= s.len()
    &&& o.offset == byte_offset(s, q.0)
    &&& o.form@ == s.subrange(q.0, q.1)
    &&& o.canonical@ == q.2
    &&& o.style == q.3
}

fn continues_number(style: NumberStyle, c: char) -> (r: bool)
    ensures
        r == num_continues(style, c),
{
    match style {
        NumberStyle::Arabic => ('0' <= c && c <= '9') || c == ',',
        NumberStyle::Kanji => kanji_digit(c).is_some(),
    }
}

/// The quantities written in a text, in order.
pub fn number_occurrences(text: &str) -> (r: Vec<NumberOccurrence>)
    ensures
        r@.len() == num_scan(text@, 0).len(),
        forall|k: int| 0 <= k < r@.len() ==> num_matches(text@, num_scan(text@, 0)[k], #[trigger] r@[k]),
{
    let _n = str_byte_len(text);
    let cs = chars_of(text);
    let offs = byte_offsets(cs.as_slice());
    let (r, _) = numbers_in(&cs, &offs);
    r
}

fn numbers_in(cs: &Vec<char>, offs: &Vec<usize>) -> (r: (Vec<NumberOccurrence>, Vec<(usize, usize)>))
    requires
        scan_inputs(cs@, offs@, 0),
    ensures
        r.0@.len() == num_scan(cs@, 0).len(),
        r.1@.len() == num_scan(cs@, 0).len(),
        forall|k: int| 0 <= k < r.0@.len() ==> num_matches(cs@, num_scan(cs@, 0)[k], #[trigger] r.0@[k]),
        forall|k: int|
            0 <= k < r.1@.len() ==> (#[trigger] r.1@[k]).0 == num_scan(cs@, 0)[k].0 && r.1@[k].1
                == num_scan(cs@, 0)[k].1,
{
    let ghost s = cs@;
    let ghost all = num_scan(s, 0);
    let ghost mut done: Seq<(int, int, Seq<char>, NumberStyle)> = Seq::empty();
    let mut out: Vec<NumberOccurrence> = Vec::new();
    let mut spans: Vec<(usize, usize)> = Vec::new();
    let n = cs.len();
    let mut i: usize = 0;
    while i < n
        invariant
            n == s.len(),
            s == cs@,
            all == num_scan(s, 0),
            scan_inputs(cs@, offs@, 0),
            0 <= i <= n,
            done + num_scan(s, i as int) == all,
            out@.len() == done.len(),
            spans@.len() == done.len(),
            forall|k: int| 0 <= k < out@.len() ==> num_matches(s, done[k], #[trigger] out@[k]),
            forall|k: int|
                0 <= k < spans@.len() ==> (#[trigger] spans@[k]).0 == done[k].0 && spans@[k].1
                    == done[k].1,
        decreases n - i,
    {
        let c = cs[i];
        let kd = kanji_digit(c);
        let is_arabic = '0' <= c && c <= '9';
        if !is_arabic && kd.is_none() {
            i += 1;
            continue;
        }
        let style = if is_arabic {
            NumberStyle::Arabic
        } else {
            NumberStyle::Kanji
        };
        let mut digits = String::new();
        if is_arabic {
            push_char(&mut digits, c);
        } else {
            push_char(&mut digits, kd.unwrap());
        }
        proof {
            let t = s.subrange(i as int, i + 1);
            assert(t.drop_last() =~= Seq::<char>::empty());
            assert(canon_digits(Seq::<char>::empty(), style) =~= Seq::<char>::empty());
            assert(t.last() == c);
            assert(digits@ =~= canon_digits(t, style));
        }
        let mut e = i + 1;
        proof {
            lemma_num_run_end(s, i + 1, style);
        }
        while e < n && continues_number(style, cs[e])
            invariant
                n == s.len(),
                s == cs@,
                i < e <= n,
                num_run_end(s, i + 1, style) == num_run_end(s, e as int, style),
                digits@ == canon_digits(s.subrange(i as int, e as int), style),
            decreases n - e,
        {
            let d = cs[e];
            assert(s.subrange(i as int, e + 1).drop_last() =~= s.subrange(i as int, e as int));
            match style {
                NumberStyle::Arabic => {
                    if d != ',' {
                        push_char(&mut digits, d);
                    }
                },
                NumberStyle::Kanji => {
                    push_char(&mut digits, kanji_digit(d).unwrap());
                },
            }
            e += 1;
        }
        if e >= n {
            proof {
                assert(num_scan(s, i as int) =~= Seq::<(int, int, Seq<char>, NumberStyle)>::empty());
                assert(done + num_scan(s, e as int) =~= all);
            }
            i = e;
            continue;
        }
        let u = cs[e];
        if !unit(u) {
            i = e;
            continue;
        }
        push_char(&mut digits, u);
        proof {
            lemma_offset_mono(s, i as int, e + 1);
        }
        let form = string_from_range(cs.as_slice(), i, e + 1);
        let occ = NumberOccurrence { offset: offs[i], form, canonical: digits, style };
        let ghost q = (i as int, e + 1, canon_digits(s.subrange(i as int, e as int), style).push(u), style);
        proof {
            assert(done.push(q) + num_scan(s, e + 1) =~= done + num_scan(s, i as int));
            done = done.push(q);
        }
        out.push(occ);
        spans.push((i, e + 1));
        i = e + 1;
    }
    assert(done =~= done + num_scan(s, i as int));
    (out, spans)
}


pub type NumQ = (int, int, Seq<char>, NumberStyle);

/// How many of the first `n` quantities have canonical form `c` and style
/// `st`.
pub open spec fn style_count(q: Seq<NumQ>, c: Seq<char>, st: NumberStyle, n: int) -> nat
    decreases n,
{
    if n <= 0 {
        0
    } else {
        style_count(q, c, st, n - 1) + if q[n - 1].2 == c && q[n - 1].3 == st {
            1nat
        } else {
            0nat
        }
    }
}

/// The majority style of a quantity (Arabic on a tie).
pub open spec fn preferred_style(q: Seq<NumQ>, c: Seq<char>) -> NumberStyle {
    if style_count(q, c, NumberStyle::Arabic, q.len() as int) >= style_count(
        q,
        c,
        NumberStyle::Kanji,
        q.len() as int,
    ) {
        NumberStyle::Arabic
    } else {
        NumberStyle::Kanji
    }
}

/// Index of the first quantity at or after `i` with canonical form `c` and
/// style `st`, or `q.len()`.
pub open spec fn first_of(q: Seq<NumQ>, c: Seq<char>, st: NumberStyle, i: int) -> int
    decreases q.len() - i,
{
    if i < 0 || i >= q.len() {
        q.len() as int
    } else if q[i].2 == c && q[i].3 == st {
        i
    } else {
        first_of(q, c, st, i + 1)
    }
}

pub open spec fn number_flagged(q: Seq<NumQ>, i: int) -> bool {
    let c = q[i].2;
    &&& style_count(q, c, NumberStyle::Arabic, q.len() as int) > 0
    &&& style_count(q, c, NumberStyle::Kanji, q.len() as int) > 0
    &&& q[i].3 != preferred_style(q, c)
}

pub open spec fn number_upto(s: Seq<char>, q: Seq<NumQ>, n: int) -> Seq<IssueView>
    decreases n,
{
    if n <= 0 {
        Seq::empty()
    } else {
        let rest = number_upto(s, q, n - 1);
        let x = q[n - 1];
        if number_flagged(q, n - 1) {
            let f = first_of(q, x.2, preferred_style(q, x.2), 0);
            rest.push(issue_at(s, x.0, x.1, IssueKind::JaNumberStyle, s.subrange(q[f].0, q[f].1)))
        } else {
            rest
        }
    }
}

/// Number-style findings: a quantity written in both styles is flagged
/// where it uses the minority style, with the first majority spelling.
pub open spec fn number_issues(s: Seq<char>) -> Seq<IssueView> {
    number_upto(s, num_scan(s, 0), num_scan(s, 0).len() as int)
}

proof fn lemma_first_of(q: Seq<NumQ>, c: Seq<char>, st: NumberStyle, i: int)
    requires
        0 <= i <= q.len(),
    ensures
        i <= first_of(q, c, st, i) <= q.len(),
        first_of(q, c, st, i) < q.len() ==> q[first_of(q, c, st, i)].2 == c && q[first_of(
            q,
            c,
            st,
            i,
        )].3 == st,
        forall|j: int| i <= j < first_of(q, c, st, i) ==> !(q[j].2 == c && q[j].3 == st),
    decreases q.len() - i,
{
    if i < q.len() && !(q[i].2 == c && q[i].3 == st) {
        lemma_first_of(q, c, st, i + 1);
    }
}

proof fn lemma_count_first(q: Seq<NumQ>, c: Seq<char>, st: NumberStyle, n: int)
    requires
        0 <= n <= q.len(),
        forall|j: int| 0 <= j < n ==> !(q[j].2 == c && q[j].3 == st),
    ensures
        style_count(q, c, st, n) == 0,
    decreases n,
{
    if n > 0 {
        lemma_count_first(q, c, st, n - 1);
    }
}

fn number_consistency_issues(d: &DocIndex) -> (r: Vec<Issue>)
    requires
        d.wf(),
    ensures
        issue_views(r@) == number_issues(d.cs@),
{
    let ghost s = d.cs@;
    let ghost q = num_scan(s, 0);
    let (occs, spans) = numbers_in(&d.cs, &d.offs);
    let n = occs.len();
    let mut out: Vec<Issue> = Vec::new();
    let mut i: usize = 0;
    while i < n
        invariant
            d.wf(),
            s == d.cs@,
            q == num_scan(s, 0),
            n == occs@.len(),
            n == q.len(),
            forall|k: int| 0 <= k < occs@.len() ==> num_matches(s, q[k], #[trigger] occs@[k]),
            spans@.len() == n,
            forall|k: int|
                0 <= k < spans@.len() ==> (#[trigger] spans@[k]).0 == q[k].0 && spans@[k].1 == q[k].1,
            0 <= i <= n,
            issue_views(out@) == number_upto(s, q, i as int),
        decreases n - i,
    {
        let ghost before = out@;
        let ghost c = q[i as int].2;
        let mut arabic: usize = 0;
        let mut kanji: usize = 0;
        let mut j: usize = 0;
        while j < n
            invariant
                n == occs@.len(),
                n == q.len(),
                forall|k: int| 0 <= k < occs@.len() ==> num_matches(s, q[k], #[trigger] occs@[k]),
                0 <= i < n,
                c == q[i as int].2,
                0 <= j <= n,
                arabic == style_count(q, c, NumberStyle::Arabic, j as int),
                kanji == style_count(q, c, NumberStyle::Kanji, j as int),
                arabic <= j,
                kanji <= j,
            decreases n - j,
        {
            assert(num_matches(s, q[j as int], occs@[j as int]));
            assert(num_matches(s, q[i as int], occs@[i as int]));
            if occs[j].canonical == occs[i].canonical {
                match occs[j].style {
                    NumberStyle::Arabic => {
                        arabic += 1;
                    },
                    NumberStyle::Kanji => {
                        kanji += 1;
                    },
                }
            }
            j += 1;
        }
        let preferred = if arabic >= kanji {
            NumberStyle::Arabic
        } else {
            NumberStyle::Kanji
        };
        assert(num_matches(s, q[i as int], occs@[i as int]));
        if arabic > 0 && kanji > 0 && occs[i].style != preferred {
            let mut f: usize = 0;
            proof {
                lemma_first_of(q, c, preferred, 0);
            }
            while f < n && !(occs[f].canonical == occs[i].canonical && occs[f].style == preferred)
                invariant
                    n == occs@.len(),
                    n == q.len(),
                    forall|k: int| 0 <= k < occs@.len() ==> num_matches(s, q[k], #[trigger] occs@[k]),
                    0 <= i < n,
                    c == q[i as int].2,
                    0 <= f <= n,
                    first_of(q, c, preferred, 0) == first_of(q, c, preferred, f as int),
                decreases n - f,
            {
                assert(num_matches(s, q[f as int], occs@[f as int]));
                f += 1;
            }
            if f < n {
                assert(num_matches(s, q[f as int], occs@[f as int]));
                let sugg = occs[f].form.clone();
                let (a, b) = spans[i];
                let issue = doc_issue(d, a, b, IssueKind::JaNumberStyle, sugg);
                out.push(issue);
                proof {
                    assert(f == first_of(q, c, preferred, 0));
                    assert(issue_views(out@) =~= number_upto(s, q, i + 1));
                }
            } else {
                proof {
                    lemma_first_of(q, c, preferred, 0);
                    lemma_count_first(q, c, preferred, n as int);
                }
            }
        }
        proof {
            if !(issue_views(out@) =~= number_upto(s, q, i + 1)) {
                assert(issue_views(out@) == issue_views(before));
            }
        }
        i += 1;
    }
    out
}


impl JapaneseChecker {
    proof fn lemma_compiles_after(&self, v0: JapaneseView, v1: JapaneseView, added: Seq<(Seq<char>, Seq<char>)>)
        requires
            v1.rules == v0.rules,
            self@.rules == v1.rules + added,
            forall|j: int| 0 <= j < added.len() ==> (regex_compile(#[trigger] added[j].0) is Ok),
        ensures
            rules_compile(v0) ==> rules_compile(self@),
    {
        if rules_compile(v0) {
            assert forall|k: int| 0 <= k < self@.rules.len() implies (regex_compile(#[trigger] self@.rules[k].0) is Ok) by {
                if k < v0.rules.len() {
                    assert(self@.rules[k] == v0.rules[k]);
                } else {
                    assert(self@.rules[k] == added[k - v0.rules.len()]);
                }
            }
        }
    }
}

/// All document-level findings enabled in a view.
pub open spec fn spec_document_issues(v: JapaneseView, s: Seq<char>) -> Seq<IssueView> {
    (if v.options.kanji_consistency {
        kanji_issues(s, kanji_pairs())
    } else {
        Seq::empty()
    }) + (if v.options.number_consistency {
        number_issues(s)
    } else {
        Seq::empty()
    }) + (if v.options.punctuation_consistency {
        punctuation_issues(s)
    } else {
        Seq::empty()
    })
}

/// One `[[rules]]` entry of a variant-rule file: a table with its `pattern`
/// and `replace` strings (absent when missing or not a string), or some
/// other value.
pub enum RuleEntry {
    NotTable,
    Table { pattern: Option<String>, replace: Option<String> },
}

pub open spec fn opt_view(o: Option<String>) -> Option<Seq<char>> {
    match o {
        Some(s) => Some(s@),
        None => None,
    }
}

/// The variant map after the literal entries, in order; entries whose
/// value is not a string are skipped.
pub open spec fn with_variant_entries(
    m: Map<Seq<char>, Seq<char>>,
    es: Seq<(String, Option<String>)>,
) -> Map<Seq<char>, Seq<char>>
    decreases es.len(),
{
    if es.len() == 0 {
        m
    } else {
        let inner = with_variant_entries(m, es.drop_last());
        match es.last().1 {
            Some(p) => inner.insert(es.last().0@, p@),
            None => inner,
        }
    }
}

/// `vs` are the `[variants]` entries of a variant-rule document: each key
/// with its value where that is a string; none where `variants` is no
/// table.
pub open spec fn variants_read(v: ConfigValue, vs: Seq<(String, Option<String>)>) -> bool {
    match value_at(v, "variants"@) {
        Some(ConfigValue::Table(es)) => vs.len() == es@.len() && forall|i: int|
            0 <= i < vs.len() ==> (#[trigger] vs[i]).0@ == es@[i].0@ && opt_view(vs[i].1) == text_of(
                Some(es@[i].1),
            ),
        _ => vs.len() == 0,
    }
}

/// `e` is the `[[rules]]` item `item`: a table with its `pattern` and
/// `replace` strings, or not a table.
pub open spec fn rule_entry_read(item: ConfigValue, e: RuleEntry) -> bool {
    match item {
        ConfigValue::Table(_) => match e {
            RuleEntry::Table { pattern, replace } => opt_view(pattern) == text_of(value_at(item, "pattern"@))
                && opt_view(replace) == text_of(value_at(item, "replace"@)),
            RuleEntry::NotTable => false,
        },
        _ => e is NotTable,
    }
}

/// `rs` are the `[[rules]]` items of a variant-rule document; none where
/// `rules` is no array.
pub open spec fn rules_read(v: ConfigValue, rs: Seq<RuleEntry>) -> bool {
    match value_at(v, "rules"@) {
        Some(ConfigValue::Array(items)) => rs.len() == items@.len() && forall|i: int|
            0 <= i < rs.len() ==> rule_entry_read(items@[i], #[trigger] rs[i]),
        _ => rs.len() == 0,
    }
}

/// The `[variants]` entries of a variant-rule document.
pub fn variant_entries(v: &ConfigValue) -> (r: Vec<(String, Option<String>)>)
    ensures
        variants_read(*v, r@),
{
    proof {
        reveal_strlit("variants");
    }
    let mut out: Vec<(String, Option<String>)> = Vec::new();
    match get_value(v, "variants") {
        Some(ConfigValue::Table(es)) => {
            let mut i: usize = 0;
            while i < es.len()
                invariant
                    i <= es@.len(),
                    out@.len() == i,
                    forall|k: int|
                        0 <= k < i ==> (#[trigger] out@[k]).0@ == es@[k].0@ && opt_view(out@[k].1)
                            == text_of(Some(es@[k].1)),
                decreases es@.len() - i,
            {
                let value = string_value(Some(&es[i].1));
                out.push((to_owned(es[i].0.as_str()), value));
                i += 1;
            }
        },
        _ => {},
    }
    out
}

/// The `[[rules]]` items of a variant-rule document.
pub fn rule_entries(v: &ConfigValue) -> (r: Vec<RuleEntry>)
    ensures
        rules_read(*v, r@),
{
    proof {
        reveal_strlit("rules");
        reveal_strlit("pattern");
        reveal_strlit("replace");
    }
    let mut out: Vec<RuleEntry> = Vec::new();
    match get_value(v, "rules") {
        Some(ConfigValue::Array(items)) => {
            let mut i: usize = 0;
            while i < items.len()
                invariant
                    i <= items@.len(),
                    out@.len() == i,
                    forall|k: int| 0 <= k < i ==> rule_entry_read(items@[k], #[trigger] out@[k]),
                decreases items@.len() - i,
            {
                let item = &items[i];
                let e = match item {
                    ConfigValue::Table(_) => RuleEntry::Table {
                        pattern: string_value(get_value(item, "pattern")),
                        replace: string_value(get_value(item, "replace")),
                    },
                    _ => RuleEntry::NotTable,
                };
                out.push(e);
                i += 1;
            }
        },
        _ => {},
    }
    out
}

proof fn lemma_string_entries_le(es: Seq<(String, Option<String>)>)
    ensures
        string_entries(es) <= es.len(),
    decreases es.len(),
{
    if es.len() > 0 {
        lemma_string_entries_le(es.drop_last());
    }
}

/// How many literal entries are strings.
pub open spec fn string_entries(es: Seq<(String, Option<String>)>) -> nat
    decreases es.len(),
{
    if es.len() == 0 {
        0
    } else {
        string_entries(es.drop_last()) + if es.last().1 is Some {
            1nat
        } else {
            0nat
        }
    }
}

/// What one `[[rules]]` entry gives: its rule, or the error that stops
/// loading.
pub open spec fn entry_outcome(e: RuleEntry) -> Result<(Seq<char>, Seq<char>), Seq<char>> {
    match e {
        RuleEntry::NotTable => Err("[[rules]] must be a table"@),
        RuleEntry::Table { pattern, replace } => match (pattern, replace) {
            (None, _) => Err("[[rules]].pattern must be a string"@),
            (Some(_), None) => Err("[[rules]].replace must be a string"@),
            (Some(p), Some(r)) => match regex_compile(p@) {
                Err(e) => Err("invalid rule `"@ + p@ + "`: "@ + e),
                Ok(_) => Ok((p@, r@)),
            },
        },
    }
}

/// The rules loaded from the entries at `i` on, and the error that stops
/// loading, if any.
pub open spec fn load_rules(rs: Seq<RuleEntry>, i: int) -> (Seq<(Seq<char>, Seq<char>)>, Option<Seq<char>>)
    decreases rs.len() - i,
{
    if i < 0 || i >= rs.len() {
        (Seq::empty(), None)
    } else {
        match entry_outcome(rs[i]) {
            Err(e) => (Seq::empty(), Some(e)),
            Ok(rule) => {
                let rest = load_rules(rs, i + 1);
                (seq![rule] + rest.0, rest.1)
            },
        }
    }
}

fn check_entry(e: &RuleEntry) -> (r: Result<(String, String), String>)
    ensures
        match r {
            Ok(rule) => entry_outcome(*e) == Ok::<(Seq<char>, Seq<char>), Seq<char>>((rule.0@, rule.1@)),
            Err(msg) => entry_outcome(*e) == Err::<(Seq<char>, Seq<char>), Seq<char>>(msg@),
        },
{
    match e {
        RuleEntry::NotTable => Err(to_owned("[[rules]] must be a table")),
        RuleEntry::Table { pattern, replace } => match pattern {
            None => Err(to_owned("[[rules]].pattern must be a string")),
            Some(p) => match replace {
                None => Err(to_owned("[[rules]].replace must be a string")),
                Some(rep) => match regex_check(p.as_str()) {
                    Err(err) => {
                        let mut msg = to_owned("invalid rule `");
                        crate::text::push_str(&mut msg, p.as_str());
                        crate::text::push_str(&mut msg, "`: ");
                        crate::text::push_str(&mut msg, err.as_str());
                        Err(msg)
                    },
                    Ok(_) => Ok((to_owned(p.as_str()), to_owned(rep.as_str()))),
                },
            },
        },
    }
}

impl JapaneseChecker {
    /// Whole-document checks: kanji spellings, number styles and
    /// punctuation, as enabled.
    pub fn document_issues(&self, text: &str) -> (r: Vec<Issue>)
        requires
            nl_count(text@, text@.len() as int) < u32::MAX,
        ensures
            issue_views(r@) == spec_document_issues(self@, text@),
            all_span(text@, 0, issue_views(r@)),
    {
        let d = doc_index(text);
        proof {
            crate::text::lemma_offset_mono(text@, 0, text@.len() as int);
            assert(text@.take(text@.len() as int) =~= text@);
            lemma_document_spans(self@, text@);
        }
        let mut issues: Vec<Issue> = Vec::new();
        if self.kanji_consistency {
            let mut more = kanji_consistency_issues(&d);
            issues.append(&mut more);
        }
        let ghost a = issues@;
        if self.number_consistency {
            let mut more = number_consistency_issues(&d);
            issues.append(&mut more);
        }
        let ghost b = issues@;
        if self.punctuation_consistency {
            let mut more = punctuation_consistency_issues(&d);
            issues.append(&mut more);
        }
        proof {
            assert(issue_views(a) =~= (if self@.options.kanji_consistency {
                kanji_issues(text@, kanji_pairs())
            } else {
                Seq::empty()
            }));
            assert(issue_views(b) =~= issue_views(a) + (if self@.options.number_consistency {
                number_issues(text@)
            } else {
                Seq::empty()
            }));
            assert(issue_views(issues@) =~= issue_views(b) + (if self@.options.punctuation_consistency {
                punctuation_issues(text@)
            } else {
                Seq::empty()
            }));
        }
        issues
    }

    /// Load a variant-rule file from its text: a text that is no TOML
    /// document gives the parser's error and loads nothing; otherwise its
    /// `[variants]` and `[[rules]]` are loaded as `load_variant_rules` does.
    pub fn load_variant_text(&mut self, text: &str) -> (r: Result<usize, String>)
        ensures
            match toml_value(text@) {
                Err(e) => r is Err && r->Err_0@ == e && final(self)@ == old(self)@,
                Ok(v) => exists|vs: Seq<(String, Option<String>)>, rs: Seq<RuleEntry>|
                    #[trigger] variants_read(v, vs) && #[trigger] rules_read(v, rs) && (vs.len() + rs.len()
                        > usize::MAX ==> r is Err && final(self)@ == old(self)@) && (vs.len() + rs.len()
                        <= usize::MAX ==> {
                        &&& final(self)@ == (JapaneseView {
                            variants: with_variant_entries(old(self)@.variants, vs),
                            rules: old(self)@.rules + load_rules(rs, 0).0,
                            ..old(self)@
                        })
                        &&& (rules_compile(old(self)@) ==> rules_compile(final(self)@))
                        &&& match load_rules(rs, 0).1 {
                            Some(e) => r is Err && r->Err_0@ == e,
                            None => r == Ok::<usize, String>(
                                (string_entries(vs) + load_rules(rs, 0).0.len()) as usize,
                            ),
                        }
                    }),
            },
    {
        let v = match parse_toml(text) {
            Err(e) => return Err(e),
            Ok(v) => v,
        };
        let variants = variant_entries(&v);
        let rules = rule_entries(&v);
        if variants.len() > usize::MAX - rules.len() {
            proof {
                assert(variants_read(v, variants@) && rules_read(v, rules@));
            }
            return Err(to_owned("too many variant-rule entries"));
        }
        proof {
            lemma_string_entries_le(variants@);
        }
        let r = self.load_variant_rules(&variants, &rules);
        proof {
            assert(variants_read(v, variants@) && rules_read(v, rules@));
        }
        r
    }

    /// Load literal `[variants]` entries and the supported prh-style
    /// `[[rules]] pattern/replace` subset of a variant-rule file. Returns
    /// the number of loaded entries; a bad rule stops loading with an error
    /// (the entries before it stay loaded).
    pub fn load_variant_rules(
        &mut self,
        variants: &Vec<(String, Option<String>)>,
        rules: &Vec<RuleEntry>,
    ) -> (r: Result<usize, String>)
        requires
            string_entries(variants@) + rules@.len() <= usize::MAX,
        ensures
            final(self)@ == (JapaneseView {
                variants: with_variant_entries(old(self)@.variants, variants@),
                rules: old(self)@.rules + load_rules(rules@, 0).0,
                ..old(self)@
            }),
            rules_compile(old(self)@) ==> rules_compile(final(self)@),
            match load_rules(rules@, 0).1 {
                Some(e) => r is Err && r->Err_0@ == e,
                None => r == Ok::<usize, String>((string_entries(variants@) + load_rules(rules@, 0).0.len()) as usize),
            },
    {
        let ghost v0 = self@;
        let mut n: usize = 0;
        let mut i: usize = 0;
        while i < variants.len()
            invariant
                0 <= i <= variants@.len(),
                n == string_entries(variants@.take(i as int)),
                n <= i,
                string_entries(variants@) + rules@.len() <= usize::MAX,
                self@ == (JapaneseView {
                    variants: with_variant_entries(v0.variants, variants@.take(i as int)),
                    ..v0
                }),
            decreases variants@.len() - i,
        {
            proof {
                let t = variants@.take(i + 1);
                assert(t.drop_last() =~= variants@.take(i as int));
                assert(t.last() == variants@[i as int]);
            }
            match &variants[i].1 {
                Some(p) => {
                    self.add_variant(variants[i].0.as_str(), p.as_str());
                    n += 1;
                },
                None => {},
            }
            i += 1;
        }
        assert(variants@.take(variants@.len() as int) =~= variants@);
        let ghost v1 = self@;
        let ghost mut added: Seq<(Seq<char>, Seq<char>)> = Seq::empty();
        let mut k: usize = 0;
        assert(v1.rules + added =~= v1.rules);
        assert(load_rules(rules@, 0).0 =~= added + load_rules(rules@, 0).0);
        while k < rules.len()
            invariant
                0 <= k <= rules@.len(),
                added.len() == k,
                n == string_entries(variants@) + k,
                string_entries(variants@) + rules@.len() <= usize::MAX,
                self@.rules == v1.rules + added,
                load_rules(rules@, 0).0 == added + load_rules(rules@, k as int).0,
                load_rules(rules@, 0).1 == load_rules(rules@, k as int).1,
                forall|j: int| 0 <= j < added.len() ==> (regex_compile(#[trigger] added[j].0) is Ok),
                self@ == (JapaneseView { rules: self@.rules, ..v1 }),
                v1 == (JapaneseView { variants: with_variant_entries(v0.variants, variants@), ..v0 }),
                v0 == old(self)@,
            decreases rules@.len() - k,
        {
            match check_entry(&rules[k]) {
                Err(msg) => {
                    proof {
                        assert(load_rules(rules@, k as int).0 =~= Seq::<(Seq<char>, Seq<char>)>::empty());
                        assert(added + load_rules(rules@, k as int).0 =~= added);
                        self.lemma_compiles_after(v0, v1, added);
                    }
                    return Err(msg);
                },
                Ok((p, rep)) => {
                    let ghost before = self@.rules;
                    self.regex_rules.push(RegexRule { pattern: p, replacement: rep });
                    proof {
                        assert(self@.rules =~= before.push((p@, rep@)));
                        assert(added + load_rules(rules@, k as int).0 =~= added.push((p@, rep@)) + load_rules(rules@, k + 1).0);
                        added = added.push((p@, rep@));
                        assert(self@.rules =~= v1.rules + added);
                    }
                    n += 1;
                },
            }
            k += 1;
        }
        proof {
            assert(added + load_rules(rules@, k as int).0 =~= added);
            self.lemma_compiles_after(v0, v1, added);
        }
        Ok(n)
    }
}

} // verus!
