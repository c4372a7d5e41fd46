//! Findings reported by the checkers, their stable codes and rule metadata.
use vstd::prelude::*;

use crate::text::{push_str, str_eq};

verus! {

/// A single finding in a checked text.
#[derive(Debug, Clone)]
pub struct Issue {
    /// 1-based line number.
    pub line: u32,
    /// Byte offset of the flagged text within its line.
    pub col: usize,
    /// Absolute byte offset of the flagged text in the checked text.
    pub offset: usize,
    /// Byte length of the flagged text.
    pub len: usize,
    /// The flagged text itself.
    pub word: String,
    pub kind: IssueKind,
    /// Replacement candidates, best first.
    pub suggestions: Vec<String>,
}

/// The plain content of an [`Issue`].
pub struct IssueView {
    pub line: u32,
    pub col: usize,
    pub offset: usize,
    pub len: usize,
    pub word: Seq<char>,
    pub kind: IssueKind,
    pub suggestions: Seq<Seq<char>>,
}

impl View for Issue {
    type V = IssueView;

    open spec fn view(&self) -> IssueView {
        IssueView {
            line: self.line,
            col: self.col,
            offset: self.offset,
            len: self.len,
            word: self.word@,
            kind: self.kind,
            suggestions: self.suggestions.deep_view(),
        }
    }
}

#[derive(Debug, Clone, Copy, PartialEq, Eq, Structural, Hash)]
pub enum IssueKind {
    /// A known misspelling from a corrections table.
    Typo,
    /// A word not present in any active dictionary (dictionary mode only).
    UnknownWord,
    /// An English spelling of the locale that the configuration does not use
    /// (colour in an en-US project).
    EnVariant,
    /// A Japanese notation variant (表記ゆれ).
    JaVariant,
    /// A compatibility character (㎏, ㈱) with a plain NFKC form.
    JaCompatibility,
    /// A number written in Arabic digits in one place and kanji in another.
    JaNumberStyle,
    /// Japanese and fullwidth-Latin punctuation mixed in one document.
    JaPunctuation,
    /// Fullwidth alphanumerics (１２３ＡＢＣ).
    FullwidthAlnum,
    /// Halfwidth katakana (ｶﾀｶﾅ).
    HalfwidthKana,
    /// Fullwidth space (U+3000).
    FullwidthSpace,
}

/// Localized, stable metadata for one issue code.
#[derive(Debug, Clone, Copy)]
pub struct RuleInfo {
    pub title: &'static str,
    pub summary: &'static str,
    pub explanation: &'static str,
    pub config_key: &'static str,
    pub example: &'static str,
    pub silence: &'static str,
}

/// Every issue kind, in report order.
pub open spec fn all_kinds() -> Seq<IssueKind> {
    seq![
        IssueKind::Typo,
        IssueKind::UnknownWord,
        IssueKind::EnVariant,
        IssueKind::JaVariant,
        IssueKind::JaCompatibility,
        IssueKind::JaNumberStyle,
        IssueKind::JaPunctuation,
        IssueKind::FullwidthAlnum,
        IssueKind::HalfwidthKana,
        IssueKind::FullwidthSpace,
    ]
}

/// The stable machine-readable code of a kind.
pub open spec fn spec_code(kind: IssueKind) -> Seq<char> {
    match kind {
        IssueKind::Typo => "typo"@,
        IssueKind::UnknownWord => "unknown-word"@,
        IssueKind::EnVariant => "en-variant"@,
        IssueKind::JaVariant => "ja-variant"@,
        IssueKind::JaCompatibility => "ja-compatibility"@,
        IssueKind::JaNumberStyle => "ja-number-style"@,
        IssueKind::JaPunctuation => "ja-punctuation"@,
        IssueKind::FullwidthAlnum => "fullwidth-alnum"@,
        IssueKind::HalfwidthKana => "halfwidth-kana"@,
        IssueKind::FullwidthSpace => "fullwidth-space"@,
    }
}

/// Rule metadata of a kind, in English or Japanese.
pub open spec fn rule_info(kind: IssueKind, japanese: bool) -> RuleInfo {
    if japanese {
        rule_info_ja(kind)
    } else {
        rule_info_en(kind)
    }
}

pub open spec fn rule_info_en(kind: IssueKind) -> RuleInfo {
    match kind {
        IssueKind::Typo => RuleInfo {
            title: "Known misspelling",
            summary: "A token matches a built-in, configured, or inline correction.",
            explanation: "The correction table recognized the token as a known misspelling. One candidate is safe to apply automatically; several candidates require a choice.",
            config_key: "[corrections].builtin, [corrections].extra, [corrections.words]",
            example: "teh → the",
            silence: "Add the word to [words].ignore, add an identity correction, or use an inline ayame-spell ignore directive.",
        },
        IssueKind::UnknownWord => RuleInfo {
            title: "Unknown dictionary word",
            summary: "Dictionary mode found a word in no active word list.",
            explanation: "This rule only runs in dictionary mode. Suggestions are edit-distance matches and are never applied without review.",
            config_key: "[check].mode, [words].project, [words].dictionaries, [words].ignore",
            example: "recieve → receive",
            silence: "Add the intended word with `words add`, include a dictionary, or add it to [words].ignore.",
        },
        IssueKind::EnVariant => RuleInfo {
            title: "English locale variant",
            summary: "A word is spelled in the English locale that the project does not use.",
            explanation: "With [check].english-locale set, spellings of the other locale (colour in an en-US project, color in an en-GB project) are flagged with the configured locale's form.",
            config_key: "[check].english-locale",
            example: "colour → color",
            silence: "Unset [check].english-locale, add the word to [words].ignore, or use an inline ignore directive.",
        },
        IssueKind::JaVariant => RuleInfo {
            title: "Japanese notation variant",
            summary: "Katakana spelling is inconsistent with the selected or majority style.",
            explanation: "The checker found both forms of a known pair, a form that conflicts with the configured long-vowel style, or a configured custom variant.",
            config_key: "[japanese].katakana-style, [japanese.variants], [japanese].variant-files",
            example: "サーバ → サーバー",
            silence: "Use consistency mode, choose long or short style, remove the custom variant, or use an inline ignore directive.",
        },
        IssueKind::JaCompatibility => RuleInfo {
            title: "Compatibility character",
            summary: "A compatibility character has a plain normalized form.",
            explanation: "Characters from the letterlike-symbol and CJK-compatibility blocks (㎏, ㈱) are suggested in their NFKC form.",
            config_key: "[japanese].compatibility",
            example: "㎏ → kg",
            silence: "Set [japanese].compatibility to false or use an inline ignore directive.",
        },
        IssueKind::JaNumberStyle => RuleInfo {
            title: "Mixed number style",
            summary: "The same quantity is written in Arabic digits and in kanji numerals.",
            explanation: "Counted quantities (1,000円 and 一〇〇〇円) are compared across the document and the minority style is flagged.",
            config_key: "[japanese].number-consistency",
            example: "一〇〇〇円 → 1,000円",
            silence: "Set [japanese].number-consistency to false or use an inline ignore directive.",
        },
        IssueKind::JaPunctuation => RuleInfo {
            title: "Mixed punctuation",
            summary: "Japanese and fullwidth Latin punctuation are mixed in one document.",
            explanation: "When both 、。 and ，． appear, the minority style is flagged with the majority style's mark.",
            config_key: "[japanese].punctuation-consistency",
            example: "． → 。",
            silence: "Set [japanese].punctuation-consistency to false or use an inline ignore directive.",
        },
        IssueKind::FullwidthAlnum => RuleInfo {
            title: "Fullwidth alphanumeric",
            summary: "Fullwidth ASCII letters or digits can be converted mechanically.",
            explanation: "Characters in the fullwidth ASCII letter and digit ranges were found. The suggested halfwidth form is a safe fix.",
            config_key: "[japanese].enabled",
            example: "ＡＢＣ１２３ → ABC123",
            silence: "Disable Japanese checks for the applicable file or use an inline ignore directive.",
        },
        IssueKind::HalfwidthKana => RuleInfo {
            title: "Halfwidth katakana",
            summary: "Halfwidth katakana can be normalized to fullwidth katakana.",
            explanation: "A halfwidth katakana run was found. Dakuten and handakuten are combined in the suggested fullwidth form.",
            config_key: "[japanese].enabled",
            example: "ｶﾀｶﾅ → カタカナ",
            silence: "Disable Japanese checks for the applicable file or use an inline ignore directive.",
        },
        IssueKind::FullwidthSpace => RuleInfo {
            title: "Fullwidth space",
            summary: "A U+3000 space appears where the configured policy forbids it.",
            explanation: "The fullwidth-space policy applies to prose by default and suggests a normal ASCII space as a safe mechanical fix.",
            config_key: "[japanese].fullwidth-space",
            example: "前　後 → 前 後",
            silence: "Set the fullwidth-space policy to off or restrict it with a file override.",
        },
    }
}

pub open spec fn rule_info_ja(kind: IssueKind) -> RuleInfo {
    match kind {
        IssueKind::Typo => RuleInfo {
            title: "既知のスペルミス",
            summary: "組み込み・設定・インラインの修正表にトークンが一致しました。",
            explanation: "修正表が既知のスペルミスとして検出しました。候補が一つなら安全に自動修正でき、複数なら選択が必要です。",
            config_key: "[corrections].builtin, [corrections].extra, [corrections.words]",
            example: "teh → the",
            silence: "[words].ignore、同一語への修正、またはインラインの ayame-spell ignore 指示へ追加します。",
        },
        IssueKind::UnknownWord => RuleInfo {
            title: "辞書にない単語",
            summary: "辞書モードで、有効な単語リストのどれにもない語を検出しました。",
            explanation: "辞書モードだけで動作します。候補は編集距離から求め、確認なしには適用しません。",
            config_key: "[check].mode, [words].project, [words].dictionaries, [words].ignore",
            example: "recieve → receive",
            silence: "`words add` で正しい語を追加するか、辞書または [words].ignore へ追加します。",
        },
        IssueKind::EnVariant => RuleInfo {
            title: "英語のつづりの地域差",
            summary: "プロジェクトで使わない地域の英語つづりを検出しました。",
            explanation: "[check].english-locale を設定すると、もう一方の地域のつづり（en-US での colour など）を設定した地域の形で指摘します。",
            config_key: "[check].english-locale",
            example: "colour → color",
            silence: "[check].english-locale を外すか、[words].ignore へ追加するか、インラインで無視します。",
        },
        IssueKind::JaVariant => RuleInfo {
            title: "日本語の表記ゆれ",
            summary: "カタカナ表記が指定スタイルまたは文書内の多数側と一致しません。",
            explanation: "既知ペアの両表記、設定した長音スタイルと異なる形、または独自の表記ゆれを検出しました。",
            config_key: "[japanese].katakana-style, [japanese.variants], [japanese].variant-files",
            example: "サーバ → サーバー",
            silence: "consistency・long・short の方針を選ぶか、独自ルールを外すか、インラインで無視します。",
        },
        IssueKind::JaCompatibility => RuleInfo {
            title: "互換文字",
            summary: "互換文字に通常の正規化形があります。",
            explanation: "文字様記号や CJK 互換用文字（㎏、㈱）を NFKC 正規化した形で候補に示します。",
            config_key: "[japanese].compatibility",
            example: "㎏ → kg",
            silence: "[japanese].compatibility を false にするか、インラインで無視します。",
        },
        IssueKind::JaNumberStyle => RuleInfo {
            title: "数字表記の混在",
            summary: "同じ数量が算用数字と漢数字の両方で書かれています。",
            explanation: "文書内の数量表記（1,000円 と 一〇〇〇円）を比べ、少数側の表記を指摘します。",
            config_key: "[japanese].number-consistency",
            example: "一〇〇〇円 → 1,000円",
            silence: "[japanese].number-consistency を false にするか、インラインで無視します。",
        },
        IssueKind::JaPunctuation => RuleInfo {
            title: "句読点の混在",
            summary: "和文の句読点と全角の欧文句読点が一つの文書に混在しています。",
            explanation: "、。と ，． の両方があるとき、少数側の記号を多数側の記号で指摘します。",
            config_key: "[japanese].punctuation-consistency",
            example: "． → 。",
            silence: "[japanese].punctuation-consistency を false にするか、インラインで無視します。",
        },
        IssueKind::FullwidthAlnum => RuleInfo {
            title: "全角英数字",
            summary: "全角 ASCII 英字・数字を機械的に半角へ変換できます。",
            explanation: "全角 ASCII 英字・数字の範囲にある文字を検出しました。半角への変換は安全な修正です。",
            config_key: "[japanese].enabled",
            example: "ＡＢＣ１２３ → ABC123",
            silence: "対象ファイルの日本語チェックを無効にするか、インラインで無視します。",
        },
        IssueKind::HalfwidthKana => RuleInfo {
            title: "半角カタカナ",
            summary: "半角カタカナを全角カタカナへ正規化できます。",
            explanation: "半角カタカナの連続を検出しました。候補では濁点・半濁点も全角の形へ合成します。",
            config_key: "[japanese].enabled",
            example: "ｶﾀｶﾅ → カタカナ",
            silence: "対象ファイルの日本語チェックを無効にするか、インラインで無視します。",
        },
        IssueKind::FullwidthSpace => RuleInfo {
            title: "全角スペース",
            summary: "設定した方針の対象位置に U+3000 の空白があります。",
            explanation: "既定では文章ファイルに全角スペース方針を適用し、安全な半角スペースを候補にします。",
            config_key: "[japanese].fullwidth-space",
            example: "前　後 → 前 後",
            silence: "fullwidth-space 方針を off にするか、ファイル上書き設定で対象を限定します。",
        },
    }
}

impl IssueKind {
    /// Every issue kind emitted by the checkers.
    pub fn all() -> (r: [IssueKind; 10])
        ensures
            r@ == all_kinds(),
    {
        let r = [
            IssueKind::Typo,
            IssueKind::UnknownWord,
            IssueKind::EnVariant,
            IssueKind::JaVariant,
            IssueKind::JaCompatibility,
            IssueKind::JaNumberStyle,
            IssueKind::JaPunctuation,
            IssueKind::FullwidthAlnum,
            IssueKind::HalfwidthKana,
            IssueKind::FullwidthSpace,
        ];
        assert(r@ =~= all_kinds());
        r
    }

    /// Stable machine-readable code, used as the LSP diagnostic code and in
    /// JSON output.
    pub fn code(self) -> (r: &'static str)
        ensures
            r@ == spec_code(self),
    {
        match self {
            IssueKind::Typo => "typo",
            IssueKind::UnknownWord => "unknown-word",
            IssueKind::EnVariant => "en-variant",
            IssueKind::JaVariant => "ja-variant",
            IssueKind::JaCompatibility => "ja-compatibility",
            IssueKind::JaNumberStyle => "ja-number-style",
            IssueKind::JaPunctuation => "ja-punctuation",
            IssueKind::FullwidthAlnum => "fullwidth-alnum",
            IssueKind::HalfwidthKana => "halfwidth-kana",
            IssueKind::FullwidthSpace => "fullwidth-space",
        }
    }

    /// Rule metadata in English or Japanese.
    pub fn info(self, japanese: bool) -> (r: RuleInfo)
        ensures
            r == rule_info(self, japanese),
    {
        if japanese {
            self.info_ja()
        } else {
            self.info_en()
        }
    }

    fn info_en(self) -> (r: RuleInfo)
        ensures
            r == rule_info_en(self),
    {
        match self {
            IssueKind::Typo => RuleInfo {
                title: "Known misspelling",
                summary: "A token matches a built-in, configured, or inline correction.",
                explanation: "The correction table recognized the token as a known misspelling. One candidate is safe to apply automatically; several candidates require a choice.",
                config_key: "[corrections].builtin, [corrections].extra, [corrections.words]",
                example: "teh → the",
                silence: "Add the word to [words].ignore, add an identity correction, or use an inline ayame-spell ignore directive.",
            },
            IssueKind::UnknownWord => RuleInfo {
                title: "Unknown dictionary word",
                summary: "Dictionary mode found a word in no active word list.",
                explanation: "This rule only runs in dictionary mode. Suggestions are edit-distance matches and are never applied without review.",
                config_key: "[check].mode, [words].project, [words].dictionaries, [words].ignore",
                example: "recieve → receive",
                silence: "Add the intended word with `words add`, include a dictionary, or add it to [words].ignore.",
            },
            IssueKind::EnVariant => RuleInfo {
                title: "English locale variant",
                summary: "A word is spelled in the English locale that the project does not use.",
                explanation: "With [check].english-locale set, spellings of the other locale (colour in an en-US project, color in an en-GB project) are flagged with the configured locale's form.",
                config_key: "[check].english-locale",
                example: "colour → color",
                silence: "Unset [check].english-locale, add the word to [words].ignore, or use an inline ignore directive.",
            },
            IssueKind::JaVariant => RuleInfo {
                title: "Japanese notation variant",
                summary: "Katakana spelling is inconsistent with the selected or majority style.",
                explanation: "The checker found both forms of a known pair, a form that conflicts with the configured long-vowel style, or a configured custom variant.",
                config_key: "[japanese].katakana-style, [japanese.variants], [japanese].variant-files",
                example: "サーバ → サーバー",
                silence: "Use consistency mode, choose long or short style, remove the custom variant, or use an inline ignore directive.",
            },
            IssueKind::JaCompatibility => RuleInfo {
                title: "Compatibility character",
                summary: "A compatibility character has a plain normalized form.",
                explanation: "Characters from the letterlike-symbol and CJK-compatibility blocks (㎏, ㈱) are suggested in their NFKC form.",
                config_key: "[japanese].compatibility",
                example: "㎏ → kg",
                silence: "Set [japanese].compatibility to false or use an inline ignore directive.",
            },
            IssueKind::JaNumberStyle => RuleInfo {
                title: "Mixed number style",
                summary: "The same quantity is written in Arabic digits and in kanji numerals.",
                explanation: "Counted quantities (1,000円 and 一〇〇〇円) are compared across the document and the minority style is flagged.",
                config_key: "[japanese].number-consistency",
                example: "一〇〇〇円 → 1,000円",
                silence: "Set [japanese].number-consistency to false or use an inline ignore directive.",
            },
            IssueKind::JaPunctuation => RuleInfo {
                title: "Mixed punctuation",
                summary: "Japanese and fullwidth Latin punctuation are mixed in one document.",
                explanation: "When both 、。 and ，． appear, the minority style is flagged with the majority style's mark.",
                config_key: "[japanese].punctuation-consistency",
                example: "． → 。",
                silence: "Set [japanese].punctuation-consistency to false or use an inline ignore directive.",
            },
            IssueKind::FullwidthAlnum => RuleInfo {
                title: "Fullwidth alphanumeric",
                summary: "Fullwidth ASCII letters or digits can be converted mechanically.",
                explanation: "Characters in the fullwidth ASCII letter and digit ranges were found. The suggested halfwidth form is a safe fix.",
                config_key: "[japanese].enabled",
                example: "ＡＢＣ１２３ → ABC123",
                silence: "Disable Japanese checks for the applicable file or use an inline ignore directive.",
            },
            IssueKind::HalfwidthKana => RuleInfo {
                title: "Halfwidth katakana",
                summary: "Halfwidth katakana can be normalized to fullwidth katakana.",
                explanation: "A halfwidth katakana run was found. Dakuten and handakuten are combined in the suggested fullwidth form.",
                config_key: "[japanese].enabled",
                example: "ｶﾀｶﾅ → カタカナ",
                silence: "Disable Japanese checks for the applicable file or use an inline ignore directive.",
            },
            IssueKind::FullwidthSpace => RuleInfo {
                title: "Fullwidth space",
                summary: "A U+3000 space appears where the configured policy forbids it.",
                explanation: "The fullwidth-space policy applies to prose by default and suggests a normal ASCII space as a safe mechanical fix.",
                config_key: "[japanese].fullwidth-space",
                example: "前　後 → 前 後",
                silence: "Set the fullwidth-space policy to off or restrict it with a file override.",
            },
        }
    }

    fn info_ja(self) -> (r: RuleInfo)
        ensures
            r == rule_info_ja(self),
    {
        match self {
            IssueKind::Typo => RuleInfo {
                title: "既知のスペルミス",
                summary: "組み込み・設定・インラインの修正表にトークンが一致しました。",
                explanation: "修正表が既知のスペルミスとして検出しました。候補が一つなら安全に自動修正でき、複数なら選択が必要です。",
                config_key: "[corrections].builtin, [corrections].extra, [corrections.words]",
                example: "teh → the",
                silence: "[words].ignore、同一語への修正、またはインラインの ayame-spell ignore 指示へ追加します。",
            },
            IssueKind::UnknownWord => RuleInfo {
                title: "辞書にない単語",
                summary: "辞書モードで、有効な単語リストのどれにもない語を検出しました。",
                explanation: "辞書モードだけで動作します。候補は編集距離から求め、確認なしには適用しません。",
                config_key: "[check].mode, [words].project, [words].dictionaries, [words].ignore",
                example: "recieve → receive",
                silence: "`words add` で正しい語を追加するか、辞書または [words].ignore へ追加します。",
            },
            IssueKind::EnVariant => RuleInfo {
                title: "英語のつづりの地域差",
                summary: "プロジェクトで使わない地域の英語つづりを検出しました。",
                explanation: "[check].english-locale を設定すると、もう一方の地域のつづり（en-US での colour など）を設定した地域の形で指摘します。",
                config_key: "[check].english-locale",
                example: "colour → color",
                silence: "[check].english-locale を外すか、[words].ignore へ追加するか、インラインで無視します。",
            },
            IssueKind::JaVariant => RuleInfo {
                title: "日本語の表記ゆれ",
                summary: "カタカナ表記が指定スタイルまたは文書内の多数側と一致しません。",
                explanation: "既知ペアの両表記、設定した長音スタイルと異なる形、または独自の表記ゆれを検出しました。",
                config_key: "[japanese].katakana-style, [japanese.variants], [japanese].variant-files",
                example: "サーバ → サーバー",
                silence: "consistency・long・short の方針を選ぶか、独自ルールを外すか、インラインで無視します。",
            },
            IssueKind::JaCompatibility => RuleInfo {
                title: "互換文字",
                summary: "互換文字に通常の正規化形があります。",
                explanation: "文字様記号や CJK 互換用文字（㎏、㈱）を NFKC 正規化した形で候補に示します。",
                config_key: "[japanese].compatibility",
                example: "㎏ → kg",
                silence: "[japanese].compatibility を false にするか、インラインで無視します。",
            },
            IssueKind::JaNumberStyle => RuleInfo {
                title: "数字表記の混在",
                summary: "同じ数量が算用数字と漢数字の両方で書かれています。",
                explanation: "文書内の数量表記（1,000円 と 一〇〇〇円）を比べ、少数側の表記を指摘します。",
                config_key: "[japanese].number-consistency",
                example: "一〇〇〇円 → 1,000円",
                silence: "[japanese].number-consistency を false にするか、インラインで無視します。",
            },
            IssueKind::JaPunctuation => RuleInfo {
                title: "句読点の混在",
                summary: "和文の句読点と全角の欧文句読点が一つの文書に混在しています。",
                explanation: "、。と ，． の両方があるとき、少数側の記号を多数側の記号で指摘します。",
                config_key: "[japanese].punctuation-consistency",
                example: "． → 。",
                silence: "[japanese].punctuation-consistency を false にするか、インラインで無視します。",
            },
            IssueKind::FullwidthAlnum => RuleInfo {
                title: "全角英数字",
                summary: "全角 ASCII 英字・数字を機械的に半角へ変換できます。",
                explanation: "全角 ASCII 英字・数字の範囲にある文字を検出しました。半角への変換は安全な修正です。",
                config_key: "[japanese].enabled",
                example: "ＡＢＣ１２３ → ABC123",
                silence: "対象ファイルの日本語チェックを無効にするか、インラインで無視します。",
            },
            IssueKind::HalfwidthKana => RuleInfo {
                title: "半角カタカナ",
                summary: "半角カタカナを全角カタカナへ正規化できます。",
                explanation: "半角カタカナの連続を検出しました。候補では濁点・半濁点も全角の形へ合成します。",
                config_key: "[japanese].enabled",
                example: "ｶﾀｶﾅ → カタカナ",
                silence: "対象ファイルの日本語チェックを無効にするか、インラインで無視します。",
            },
            IssueKind::FullwidthSpace => RuleInfo {
                title: "全角スペース",
                summary: "設定した方針の対象位置に U+3000 の空白があります。",
                explanation: "既定では文章ファイルに全角スペース方針を適用し、安全な半角スペースを候補にします。",
                config_key: "[japanese].fullwidth-space",
                example: "前　後 → 前 後",
                silence: "fullwidth-space 方針を off にするか、ファイル上書き設定で対象を限定します。",
            },
        }
    }
}


/// The code strings, character by character distinct for distinct kinds.
pub proof fn lemma_codes_distinct(a: IssueKind, b: IssueKind)
    ensures
        spec_code(a) == spec_code(b) <==> a == b,
{
    reveal_strlit("typo");
    reveal_strlit("unknown-word");
    reveal_strlit("en-variant");
    reveal_strlit("ja-variant");
    reveal_strlit("ja-compatibility");
    reveal_strlit("ja-number-style");
    reveal_strlit("ja-punctuation");
    reveal_strlit("fullwidth-alnum");
    reveal_strlit("halfwidth-kana");
    reveal_strlit("fullwidth-space");
    if spec_code(a) == spec_code(b) && a != b {
        assert(spec_code(a).len() == spec_code(b).len());
        assert(spec_code(a)[0] == spec_code(b)[0]);
        assert(spec_code(a)[1] == spec_code(b)[1]);
        assert(spec_code(a)[3] == spec_code(b)[3]);
        assert(spec_code(a)[10] == spec_code(b)[10]);
    }
}

/// Every kind is listed in [`all_kinds`].
pub proof fn lemma_all_kinds_complete(k: IssueKind)
    ensures
        all_kinds().contains(k),
{
    let all = all_kinds();
    match k {
        IssueKind::Typo => assert(all[0] == k),
        IssueKind::UnknownWord => assert(all[1] == k),
        IssueKind::EnVariant => assert(all[2] == k),
        IssueKind::JaVariant => assert(all[3] == k),
        IssueKind::JaCompatibility => assert(all[4] == k),
        IssueKind::JaNumberStyle => assert(all[5] == k),
        IssueKind::JaPunctuation => assert(all[6] == k),
        IssueKind::FullwidthAlnum => assert(all[7] == k),
        IssueKind::HalfwidthKana => assert(all[8] == k),
        IssueKind::FullwidthSpace => assert(all[9] == k),
    }
}

/// Codes round-trip: resolving the code of a kind gives that kind back, and
/// no two kinds share a code.
pub proof fn law_code_round_trip(k: IssueKind, other: IssueKind)
    ensures
        spec_from_code(spec_code(k)) == Some(k),
        k != other ==> spec_code(k) != spec_code(other),
{
    lemma_codes_distinct(k, other);
    lemma_all_kinds_complete(k);
    assert forall|j: IssueKind| spec_code(j) == spec_code(k) implies j == k by {
        lemma_codes_distinct(j, k);
    }
}

/// The kind whose code is `code`, if any.
pub open spec fn spec_from_code(code: Seq<char>) -> Option<IssueKind> {
    if exists|k: IssueKind| spec_code(k) == code {
        Some(choose|k: IssueKind| spec_code(k) == code)
    } else {
        None
    }
}

/// The configuration key and the example of a rule do not depend on the
/// language of its metadata.
pub proof fn law_rule_info_language_independent(k: IssueKind)
    ensures
        rule_info(k, true).config_key@ == rule_info(k, false).config_key@,
        rule_info(k, true).example@ == rule_info(k, false).example@,
{
}

/// Every rule's metadata is complete in both languages: no field is empty,
/// and its title differs between English and Japanese.
pub proof fn law_rule_info_complete(k: IssueKind, japanese: bool)
    ensures
        rule_info(k, japanese).title@.len() > 0,
        rule_info(k, japanese).summary@.len() > 0,
        rule_info(k, japanese).explanation@.len() > 0,
        rule_info(k, japanese).config_key@.len() > 0,
        rule_info(k, japanese).example@.len() > 0,
        rule_info(k, japanese).silence@.len() > 0,
        rule_info(k, true).title@ != rule_info(k, false).title@,
{
    match k {
        IssueKind::Typo => {
            reveal_strlit("Known misspelling");
            reveal_strlit("A token matches a built-in, configured, or inline correction.");
            reveal_strlit("The correction table recognized the token as a known misspelling. One candidate is safe to apply automatically; several candidates require a choice.");
            reveal_strlit("[corrections].builtin, [corrections].extra, [corrections.words]");
            reveal_strlit("teh → the");
            reveal_strlit("Add the word to [words].ignore, add an identity correction, or use an inline ayame-spell ignore directive.");
            reveal_strlit("既知のスペルミス");
            reveal_strlit("組み込み・設定・インラインの修正表にトークンが一致しました。");
            reveal_strlit("修正表が既知のスペルミスとして検出しました。候補が一つなら安全に自動修正でき、複数なら選択が必要です。");
            reveal_strlit("[corrections].builtin, [corrections].extra, [corrections.words]");
            reveal_strlit("teh → the");
            reveal_strlit("[words].ignore、同一語への修正、またはインラインの ayame-spell ignore 指示へ追加します。");
        },
        IssueKind::UnknownWord => {
            reveal_strlit("Unknown dictionary word");
            reveal_strlit("Dictionary mode found a word in no active word list.");
            reveal_strlit("This rule only runs in dictionary mode. Suggestions are edit-distance matches and are never applied without review.");
            reveal_strlit("[check].mode, [words].project, [words].dictionaries, [words].ignore");
            reveal_strlit("recieve → receive");
            reveal_strlit("Add the intended word with `words add`, include a dictionary, or add it to [words].ignore.");
            reveal_strlit("辞書にない単語");
            reveal_strlit("辞書モードで、有効な単語リストのどれにもない語を検出しました。");
            reveal_strlit("辞書モードだけで動作します。候補は編集距離から求め、確認なしには適用しません。");
            reveal_strlit("[check].mode, [words].project, [words].dictionaries, [words].ignore");
            reveal_strlit("recieve → receive");
            reveal_strlit("`words add` で正しい語を追加するか、辞書または [words].ignore へ追加します。");
        },
        IssueKind::EnVariant => {
            reveal_strlit("English locale variant");
            reveal_strlit("A word is spelled in the English locale that the project does not use.");
            reveal_strlit("With [check].english-locale set, spellings of the other locale (colour in an en-US project, color in an en-GB project) are flagged with the configured locale's form.");
            reveal_strlit("[check].english-locale");
            reveal_strlit("colour → color");
            reveal_strlit("Unset [check].english-locale, add the word to [words].ignore, or use an inline ignore directive.");
            reveal_strlit("英語のつづりの地域差");
            reveal_strlit("プロジェクトで使わない地域の英語つづりを検出しました。");
            reveal_strlit("[check].english-locale を設定すると、もう一方の地域のつづり（en-US での colour など）を設定した地域の形で指摘します。");
            reveal_strlit("[check].english-locale");
            reveal_strlit("colour → color");
            reveal_strlit("[check].english-locale を外すか、[words].ignore へ追加するか、インラインで無視します。");
        },
        IssueKind::JaVariant => {
            reveal_strlit("Japanese notation variant");
            reveal_strlit("Katakana spelling is inconsistent with the selected or majority style.");
            reveal_strlit("The checker found both forms of a known pair, a form that conflicts with the configured long-vowel style, or a configured custom variant.");
            reveal_strlit("[japanese].katakana-style, [japanese.variants], [japanese].variant-files");
            reveal_strlit("サーバ → サーバー");
            reveal_strlit("Use consistency mode, choose long or short style, remove the custom variant, or use an inline ignore directive.");
            reveal_strlit("日本語の表記ゆれ");
            reveal_strlit("カタカナ表記が指定スタイルまたは文書内の多数側と一致しません。");
            reveal_strlit("既知ペアの両表記、設定した長音スタイルと異なる形、または独自の表記ゆれを検出しました。");
            reveal_strlit("[japanese].katakana-style, [japanese.variants], [japanese].variant-files");
            reveal_strlit("サーバ → サーバー");
            reveal_strlit("consistency・long・short の方針を選ぶか、独自ルールを外すか、インラインで無視します。");
        },
        IssueKind::JaCompatibility => {
            reveal_strlit("Compatibility character");
            reveal_strlit("A compatibility character has a plain normalized form.");
            reveal_strlit("Characters from the letterlike-symbol and CJK-compatibility blocks (㎏, ㈱) are suggested in their NFKC form.");
            reveal_strlit("[japanese].compatibility");
            reveal_strlit("㎏ → kg");
            reveal_strlit("Set [japanese].compatibility to false or use an inline ignore directive.");
            reveal_strlit("互換文字");
            reveal_strlit("互換文字に通常の正規化形があります。");
            reveal_strlit("文字様記号や CJK 互換用文字（㎏、㈱）を NFKC 正規化した形で候補に示します。");
            reveal_strlit("[japanese].compatibility");
            reveal_strlit("㎏ → kg");
            reveal_strlit("[japanese].compatibility を false にするか、インラインで無視します。");
        },
        IssueKind::JaNumberStyle => {
            reveal_strlit("Mixed number style");
            reveal_strlit("The same quantity is written in Arabic digits and in kanji numerals.");
            reveal_strlit("Counted quantities (1,000円 and 一〇〇〇円) are compared across the document and the minority style is flagged.");
            reveal_strlit("[japanese].number-consistency");
            reveal_strlit("一〇〇〇円 → 1,000円");
            reveal_strlit("Set [japanese].number-consistency to false or use an inline ignore directive.");
            reveal_strlit("数字表記の混在");
            reveal_strlit("同じ数量が算用数字と漢数字の両方で書かれています。");
            reveal_strlit("文書内の数量表記（1,000円 と 一〇〇〇円）を比べ、少数側の表記を指摘します。");
            reveal_strlit("[japanese].number-consistency");
            reveal_strlit("一〇〇〇円 → 1,000円");
            reveal_strlit("[japanese].number-consistency を false にするか、インラインで無視します。");
        },
        IssueKind::JaPunctuation => {
            reveal_strlit("Mixed punctuation");
            reveal_strlit("Japanese and fullwidth Latin punctuation are mixed in one document.");
            reveal_strlit("When both 、。 and ，． appear, the minority style is flagged with the majority style's mark.");
            reveal_strlit("[japanese].punctuation-consistency");
            reveal_strlit("． → 。");
            reveal_strlit("Set [japanese].punctuation-consistency to false or use an inline ignore directive.");
            reveal_strlit("句読点の混在");
            reveal_strlit("和文の句読点と全角の欧文句読点が一つの文書に混在しています。");
            reveal_strlit("、。と ，． の両方があるとき、少数側の記号を多数側の記号で指摘します。");
            reveal_strlit("[japanese].punctuation-consistency");
            reveal_strlit("． → 。");
            reveal_strlit("[japanese].punctuation-consistency を false にするか、インラインで無視します。");
        },
        IssueKind::FullwidthAlnum => {
            reveal_strlit("Fullwidth alphanumeric");
            reveal_strlit("Fullwidth ASCII letters or digits can be converted mechanically.");
            reveal_strlit("Characters in the fullwidth ASCII letter and digit ranges were found. The suggested halfwidth form is a safe fix.");
            reveal_strlit("[japanese].enabled");
            reveal_strlit("ＡＢＣ１２３ → ABC123");
            reveal_strlit("Disable Japanese checks for the applicable file or use an inline ignore directive.");
            reveal_strlit("全角英数字");
            reveal_strlit("全角 ASCII 英字・数字を機械的に半角へ変換できます。");
            reveal_strlit("全角 ASCII 英字・数字の範囲にある文字を検出しました。半角への変換は安全な修正です。");
            reveal_strlit("[japanese].enabled");
            reveal_strlit("ＡＢＣ１２３ → ABC123");
            reveal_strlit("対象ファイルの日本語チェックを無効にするか、インラインで無視します。");
        },
        IssueKind::HalfwidthKana => {
            reveal_strlit("Halfwidth katakana");
            reveal_strlit("Halfwidth katakana can be normalized to fullwidth katakana.");
            reveal_strlit("A halfwidth katakana run was found. Dakuten and handakuten are combined in the suggested fullwidth form.");
            reveal_strlit("[japanese].enabled");
            reveal_strlit("ｶﾀｶﾅ → カタカナ");
            reveal_strlit("Disable Japanese checks for the applicable file or use an inline ignore directive.");
            reveal_strlit("半角カタカナ");
            reveal_strlit("半角カタカナを全角カタカナへ正規化できます。");
            reveal_strlit("半角カタカナの連続を検出しました。候補では濁点・半濁点も全角の形へ合成します。");
            reveal_strlit("[japanese].enabled");
            reveal_strlit("ｶﾀｶﾅ → カタカナ");
            reveal_strlit("対象ファイルの日本語チェックを無効にするか、インラインで無視します。");
        },
        IssueKind::FullwidthSpace => {
            reveal_strlit("Fullwidth space");
            reveal_strlit("A U+3000 space appears where the configured policy forbids it.");
            reveal_strlit("The fullwidth-space policy applies to prose by default and suggests a normal ASCII space as a safe mechanical fix.");
            reveal_strlit("[japanese].fullwidth-space");
            reveal_strlit("前　後 → 前 後");
            reveal_strlit("Set the fullwidth-space policy to off or restrict it with a file override.");
            reveal_strlit("全角スペース");
            reveal_strlit("設定した方針の対象位置に U+3000 の空白があります。");
            reveal_strlit("既定では文章ファイルに全角スペース方針を適用し、安全な半角スペースを候補にします。");
            reveal_strlit("[japanese].fullwidth-space");
            reveal_strlit("前　後 → 前 後");
            reveal_strlit("fullwidth-space 方針を off にするか、ファイル上書き設定で対象を限定します。");
        },
    }
    assert(rule_info(k, true).title@[0] != rule_info(k, false).title@[0]);
}

/// The suggestions joined as `` `a`, `b` ``.
pub open spec fn spec_join(s: Seq<Seq<char>>) -> Seq<char>
    decreases s.len(),
{
    if s.len() == 0 {
        Seq::empty()
    } else if s.len() == 1 {
        "`"@ + s[0] + "`"@
    } else {
        spec_join(s.drop_last()) + ", `"@ + s.last() + "`"@
    }
}

/// The first suggestion, or `?` when there is none.
pub open spec fn first_or_unknown(s: Seq<Seq<char>>) -> Seq<char> {
    if s.len() > 0 {
        s[0]
    } else {
        "?"@
    }
}

/// The one-line description of an issue.
pub open spec fn spec_message(v: IssueView) -> Seq<char> {
    let w = v.word;
    let first = first_or_unknown(v.suggestions);
    match v.kind {
        IssueKind::Typo => if v.suggestions.len() == 1 {
            "`"@ + w + "` should be `"@ + v.suggestions[0] + "`"@
        } else {
            "`"@ + w + "` should be one of: "@ + spec_join(v.suggestions)
        },
        IssueKind::UnknownWord => "`"@ + w + "` is not a known word"@,
        IssueKind::EnVariant => "`"@ + w + "` is spelled `"@ + first + "` in the configured English locale"@,
        IssueKind::JaVariant => "`"@ + w + "` は `"@ + first + "` に統一 (表記ゆれ)"@,
        IssueKind::JaCompatibility => "compatibility character `"@ + w + "` → `"@ + first + "`"@,
        IssueKind::JaNumberStyle => "`"@ + w + "` は `"@ + first + "` に統一 (数字表記)"@,
        IssueKind::JaPunctuation => "`"@ + w + "` は `"@ + first + "` に統一 (句読点)"@,
        IssueKind::FullwidthAlnum => "fullwidth alphanumerics `"@ + w + "` → `"@ + first + "`"@,
        IssueKind::HalfwidthKana => "halfwidth katakana `"@ + w + "` → `"@ + first + "`"@,
        IssueKind::FullwidthSpace => "fullwidth space (U+3000)"@,
    }
}

/// The replacement that is safe to apply without review, if any.
pub open spec fn spec_safe_fix(v: IssueView) -> Option<Seq<char>> {
    match v.kind {
        IssueKind::UnknownWord => None,
        IssueKind::Typo => if v.suggestions.len() == 1 {
            Some(v.suggestions[0])
        } else {
            None
        },
        _ => if v.suggestions.len() > 0 {
            Some(v.suggestions[0])
        } else {
            None
        },
    }
}

/// Notation findings (every kind but misspellings and unknown words) are
/// mechanical conversions: one with a suggestion has a safe fix, its first
/// suggestion. A misspelling is safe to fix only with a single suggestion,
/// and an unknown word never.
pub proof fn law_notation_fixes_are_safe(v: IssueView)
    ensures
        v.kind != IssueKind::Typo && v.kind != IssueKind::UnknownWord && v.suggestions.len() > 0
            ==> spec_safe_fix(v) == Some(v.suggestions[0]),
        v.kind != IssueKind::Typo && v.suggestions.len() == 0 ==> spec_safe_fix(v) is None,
        v.kind == IssueKind::Typo ==> (spec_safe_fix(v) is Some <==> v.suggestions.len() == 1),
        v.kind == IssueKind::Typo && v.suggestions.len() == 1 ==> spec_safe_fix(v) == Some(v.suggestions[0]),
        v.kind == IssueKind::UnknownWord ==> spec_safe_fix(v) is None,
{
}

impl IssueKind {
    /// Resolve a stable issue code.
    pub fn from_code(code: &str) -> (r: Option<IssueKind>)
        ensures
            r == spec_from_code(code@),
    {
        let all = IssueKind::all();
        let mut i: usize = 0;
        while i < 10
            invariant
                all@ == all_kinds(),
                0 <= i <= 10,
                forall|j: int| 0 <= j < i ==> spec_code(#[trigger] all_kinds()[j]) != code@,
            decreases 10 - i,
        {
            let k = all[i];
            if str_eq(k.code(), code) {
                proof {
                    assert forall|j: IssueKind| spec_code(j) == code@ implies j == k by {
                        lemma_codes_distinct(j, k);
                    }
                }
                return Some(k);
            }
            i += 1;
        }
        proof {
            assert forall|k: IssueKind| spec_code(k) != code@ by {
                lemma_all_kinds_complete(k);
                let j = choose|j: int| 0 <= j < all_kinds().len() && all_kinds()[j] == k;
                assert(spec_code(all_kinds()[j]) != code@);
            }
        }
        None
    }
}

impl Issue {
    /// The replacement that is safe to apply non-interactively, if any.
    ///
    /// Typos with exactly one candidate and mechanical notation conversions
    /// are safe; unknown words never are, and typos with several candidates
    /// need a human choice.
    pub fn safe_fix(&self) -> (r: Option<&str>)
        ensures
            match r {
                Some(s) => spec_safe_fix(self@) == Some(s@),
                None => spec_safe_fix(self@) is None,
            },
    {
        match self.kind {
            IssueKind::UnknownWord => None,
            IssueKind::Typo => if self.suggestions.len() == 1 {
                Some(self.suggestions[0].as_str())
            } else {
                None
            },
            _ => if self.suggestions.len() > 0 {
                Some(self.suggestions[0].as_str())
            } else {
                None
            },
        }
    }

    /// Human-readable one-line description.
    pub fn message(&self) -> (r: String)
        ensures
            r@ == spec_message(self@),
    {
        let mut r = String::new();
        let sugg = &self.suggestions;
        match self.kind {
            IssueKind::Typo => {
                push_str(&mut r, "`");
                push_str(&mut r, self.word.as_str());
                if sugg.len() == 1 {
                    push_str(&mut r, "` should be `");
                    push_str(&mut r, sugg[0].as_str());
                    push_str(&mut r, "`");
                } else {
                    push_str(&mut r, "` should be one of: ");
                    let j = join(sugg);
                    push_str(&mut r, j.as_str());
                }
            },
            IssueKind::UnknownWord => {
                push_str(&mut r, "`");
                push_str(&mut r, self.word.as_str());
                push_str(&mut r, "` is not a known word");
            },
            IssueKind::FullwidthSpace => {
                push_str(&mut r, "fullwidth space (U+3000)");
            },
            _ => {
                let first: &str = if sugg.len() > 0 {
                    sugg[0].as_str()
                } else {
                    "?"
                };
                match self.kind {
                    IssueKind::EnVariant => {
                        push_str(&mut r, "`");
                        push_str(&mut r, self.word.as_str());
                        push_str(&mut r, "` is spelled `");
                        push_str(&mut r, first);
                        push_str(&mut r, "` in the configured English locale");
                    },
                    IssueKind::JaVariant => {
                        push_str(&mut r, "`");
                        push_str(&mut r, self.word.as_str());
                        push_str(&mut r, "` は `");
                        push_str(&mut r, first);
                        push_str(&mut r, "` に統一 (表記ゆれ)");
                    },
                    IssueKind::JaCompatibility => {
                        push_str(&mut r, "compatibility character `");
                        push_str(&mut r, self.word.as_str());
                        push_str(&mut r, "` → `");
                        push_str(&mut r, first);
                        push_str(&mut r, "`");
                    },
                    IssueKind::JaNumberStyle => {
                        push_str(&mut r, "`");
                        push_str(&mut r, self.word.as_str());
                        push_str(&mut r, "` は `");
                        push_str(&mut r, first);
                        push_str(&mut r, "` に統一 (数字表記)");
                    },
                    IssueKind::JaPunctuation => {
                        push_str(&mut r, "`");
                        push_str(&mut r, self.word.as_str());
                        push_str(&mut r, "` は `");
                        push_str(&mut r, first);
                        push_str(&mut r, "` に統一 (句読点)");
                    },
                    IssueKind::FullwidthAlnum => {
                        push_str(&mut r, "fullwidth alphanumerics `");
                        push_str(&mut r, self.word.as_str());
                        push_str(&mut r, "` → `");
                        push_str(&mut r, first);
                        push_str(&mut r, "`");
                    },
                    _ => {
                        push_str(&mut r, "halfwidth katakana `");
                        push_str(&mut r, self.word.as_str());
                        push_str(&mut r, "` → `");
                        push_str(&mut r, first);
                        push_str(&mut r, "`");
                    },
                }
            },
        }
        proof {
            let v = self@;
            let w = v.word;
            let f = first_or_unknown(v.suggestions);
            assert(r@ =~= spec_message(v));
        }
        r
    }
}

fn join(suggestions: &Vec<String>) -> (r: String)
    ensures
        r@ == spec_join(suggestions.deep_view()),
{
    let mut r = String::new();
    let mut i: usize = 0;
    while i < suggestions.len()
        invariant
            0 <= i <= suggestions@.len(),
            r@ == spec_join(suggestions.deep_view().take(i as int)),
        decreases suggestions@.len() - i,
    {
        if i > 0 {
            push_str(&mut r, ", `");
        } else {
            push_str(&mut r, "`");
        }
        push_str(&mut r, suggestions[i].as_str());
        push_str(&mut r, "`");
        proof {
            let d = suggestions.deep_view();
            let t = d.take(i + 1);
            assert(t.drop_last() =~= d.take(i as int));
            assert(t.last() == suggestions@[i as int]@);
            assert(r@ =~= spec_join(t));
        }
        i += 1;
    }
    assert(suggestions.deep_view().take(suggestions@.len() as int) =~= suggestions.deep_view());
    r
}

} // verus!
