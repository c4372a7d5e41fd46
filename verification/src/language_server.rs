//! Decisions of the language server: diagnostic ranges and severities,
//! hover text, the quick fixes offered for a selection, and the settings an
//! editor passes at start-up.
use vstd::prelude::*;

use crate::config::{Config, Mode};
use crate::editor::{utf16_width, TextRange};
use crate::fixes::{index_at, lemma_index_at};
use crate::issue::{rule_info, spec_code, Issue, IssueKind, IssueView};
use crate::text::{byte_len, byte_offset, chars_of, push_str, to_owned};
use crate::tokenizer::lower_seq;

verus! {

/// Command that adds words to the project or global word file.
pub const CMD_ADD_WORDS: &'static str = "ayame-spell.addWords";
/// Command that adds words to `[words].ignore`.
pub const CMD_IGNORE_WORDS: &'static str = "ayame-spell.ignoreWords";
/// Command that adds an entry to `[corrections.words]`.
pub const CMD_ADD_CORRECTION: &'static str = "ayame-spell.addCorrection";
/// Command that applies every safe fix of a document.
pub const CMD_FIX_ALL: &'static str = "ayame-spell.server.fixAll";

/// Diagnostics cap per document, so a giant generated file cannot flood
/// the editor.
pub const MAX_DIAGNOSTICS: usize = 1000;
/// Documents larger than this many bytes are not checked (unless the
/// configuration sets its own file size limit).
pub const LARGE_DOC_BYTES: usize = 4194304;
/// Delay before a changed document is checked again, in milliseconds.
pub const DEFAULT_DEBOUNCE_MS: u64 = 150;

/// The diagnostic severity an editor may ask for.
#[derive(Clone, Copy, Debug, PartialEq, Eq, Structural)]
pub enum EditorSeverity {
    Error,
    Warning,
    Information,
    Hint,
}

impl EditorSeverity {
    /// The protocol's number for the severity.
    pub fn lsp(self) -> (r: u32)
        ensures
            r == match self {
                EditorSeverity::Error => 1u32,
                EditorSeverity::Warning => 2u32,
                EditorSeverity::Information => 3u32,
                EditorSeverity::Hint => 4u32,
            },
    {
        match self {
            EditorSeverity::Error => 1,
            EditorSeverity::Warning => 2,
            EditorSeverity::Information => 3,
            EditorSeverity::Hint => 4,
        }
    }
}

/// The severity of a diagnostic: the editor's setting where it has one,
/// else warning for typos and information for the rest.
pub fn diagnostic_severity(kind: IssueKind, setting: Option<EditorSeverity>) -> (r: u32)
    ensures
        r == match setting {
            Some(EditorSeverity::Error) => 1u32,
            Some(EditorSeverity::Warning) => 2u32,
            Some(EditorSeverity::Information) => 3u32,
            Some(EditorSeverity::Hint) => 4u32,
            None => if kind == IssueKind::Typo {
                2u32
            } else {
                3u32
            },
        },
{
    match setting {
        Some(s) => s.lsp(),
        None => if kind == IssueKind::Typo {
            2
        } else {
            3
        },
    }
}

/// The delay before a changed document is checked again: the editor's
/// setting or 150 ms, at most 5 s.
pub fn debounce_ms(setting: Option<u64>) -> (r: u64)
    ensures
        r == (match setting {
            Some(v) => if v < 5000 {
                v
            } else {
                5000
            },
            None => DEFAULT_DEBOUNCE_MS,
        }),
{
    let v = match setting {
        Some(v) => v,
        None => DEFAULT_DEBOUNCE_MS,
    };
    if v < 5000 {
        v
    } else {
        5000
    }
}

/// The largest document checked, in bytes: the configured file size limit,
/// or 4 MiB where there is none.
pub fn document_size_limit(max_file_size: u64) -> (r: usize)
    ensures
        r == if max_file_size == 0 {
            LARGE_DOC_BYTES as int
        } else if max_file_size > usize::MAX {
            usize::MAX as int
        } else {
            max_file_size as int
        },
{
    if max_file_size == 0 {
        LARGE_DOC_BYTES
    } else if max_file_size > usize::MAX as u64 {
        usize::MAX
    } else {
        max_file_size as usize
    }
}

/// Whether an editor locale asks for Japanese: it starts with `ja` in any
/// case.
pub fn locale_is_japanese(locale: Option<&str>) -> (r: bool)
    ensures
        r == match locale {
            Some(l) => l@.len() >= 2 && lower_seq(l@.take(2)) == seq!['j', 'a'],
            None => false,
        },
{
    match locale {
        None => false,
        Some(l) => {
            let cs = chars_of(l);
            if cs.len() < 2 {
                return false;
            }
            let a = crate::tokenizer::to_lower(cs[0]);
            let b = crate::tokenizer::to_lower(cs[1]);
            assert(lower_seq(l@.take(2)) =~= seq![a, b]);
            a == 'j' && b == 'a'
        },
    }
}

/// Apply the settings an editor passes at start-up: a mode and whether
/// Japanese checks run.
pub fn apply_editor_options(config: &mut Config, mode: Option<Mode>, japanese_enabled: Option<bool>)
    ensures
        final(config).check.mode == match mode {
            Some(m) => m,
            None => old(config).check.mode,
        },
        final(config).japanese.enabled == match japanese_enabled {
            Some(e) => e,
            None => old(config).japanese.enabled,
        },
{
    match mode {
        Some(m) => {
            config.check.mode = m;
        },
        None => {},
    }
    match japanese_enabled {
        Some(e) => {
            config.japanese.enabled = e;
        },
        None => {},
    }
}

/// The file watch pattern of the configuration files and the project word
/// file.
pub fn watch_pattern(words_file: &str) -> (r: String)
    ensures
        r@ == "**/{ayame-spell.toml,.ayame-spell.toml,"@ + words_file@ + "}"@,
{
    let mut s = to_owned("**/{ayame-spell.toml,.ayame-spell.toml,");
    push_str(&mut s, words_file);
    push_str(&mut s, "}");
    s
}

/// `(a, b) <= (c, d)` in lexicographic order.
pub open spec fn pos_le(a: u32, b: u32, c: u32, d: u32) -> bool {
    a < c || (a == c && b <= d)
}

fn pos_le_exec(a: u32, b: u32, c: u32, d: u32) -> (r: bool)
    ensures
        r == pos_le(a, b, c, d),
{
    a < c || (a == c && b <= d)
}

/// Whether a range contains a position (ends included).
pub fn range_contains(range: &TextRange, line: u32, character: u32) -> (r: bool)
    ensures
        r == (pos_le(range.start_line, range.start_character, line, character) && pos_le(
            line,
            character,
            range.end_line,
            range.end_character,
        )),
{
    pos_le_exec(range.start_line, range.start_character, line, character) && pos_le_exec(
        line,
        character,
        range.end_line,
        range.end_character,
    )
}

/// Whether two ranges overlap (touching counts).
pub fn ranges_overlap(a: &TextRange, b: &TextRange) -> (r: bool)
    ensures
        r == (pos_le(a.start_line, a.start_character, b.end_line, b.end_character) && pos_le(
            b.start_line,
            b.start_character,
            a.end_line,
            a.end_character,
        )),
{
    pos_le_exec(a.start_line, a.start_character, b.end_line, b.end_character) && pos_le_exec(
        b.start_line,
        b.start_character,
        a.end_line,
        a.end_character,
    )
}

/// The pieces of `s[start..]` between occurrences of `c`, scanning from
/// `i` (std's `str::split`).
pub open spec fn split_by(s: Seq<char>, c: char, start: int, i: int) -> Seq<Seq<char>>
    decreases s.len() - i,
{
    if i >= s.len() {
        seq![s.subrange(start, s.len() as int)]
    } else if s[i] == c {
        seq![s.subrange(start, i)] + split_by(s, c, i + 1, i + 1)
    } else {
        split_by(s, c, start, i + 1)
    }
}

/// Line `idx` of a text split at `\n` (a `\r` kept), or an empty line past
/// the end.
pub open spec fn line_text(s: Seq<char>, idx: int) -> Seq<char> {
    let ls = split_by(s, '\n', 0, 0);
    if 0 <= idx < ls.len() {
        ls[idx]
    } else {
        Seq::empty()
    }
}

/// The number of UTF-16 code units of a text.
pub open spec fn utf16_len(s: Seq<char>) -> int
    decreases s.len(),
{
    if s.len() == 0 {
        0
    } else {
        utf16_len(s.drop_last()) + utf16_width(s.last())
    }
}

pub proof fn lemma_utf16_nonneg(a: Seq<char>)
    ensures
        utf16_len(a) >= 0,
    decreases a.len(),
{
    if a.len() > 0 {
        lemma_utf16_nonneg(a.drop_last());
    }
}

pub proof fn lemma_utf16_add(a: Seq<char>, b: Seq<char>)
    ensures
        utf16_len(a + b) == utf16_len(a) + utf16_len(b),
    decreases b.len(),
{
    if b.len() == 0 {
        assert(a + b =~= a);
    } else {
        lemma_utf16_add(a, b.drop_last());
        assert((a + b).drop_last() =~= a + b.drop_last());
        assert((a + b).last() == b.last());
    }
}

/// The 0-based line of a finding.
pub open spec fn issue_line(x: IssueView) -> u32 {
    if x.line >= 1 {
        (x.line - 1) as u32
    } else {
        0
    }
}

/// The byte columns of a finding within its line, clamped to the line.
pub open spec fn issue_cols(l: Seq<char>, x: IssueView) -> (int, int) {
    let n = byte_len(l) as int;
    (
        if x.col < n {
            x.col as int
        } else {
            n
        },
        if x.col + x.len < n {
            x.col + x.len
        } else {
            n
        },
    )
}

/// A finding's range can be computed: its columns fall on character
/// boundaries of its line, and the line's length fits the protocol.
pub open spec fn issue_range_ok(s: Seq<char>, x: IssueView) -> bool {
    let l = line_text(s, issue_line(x) as int);
    let (a, b) = issue_cols(l, x);
    &&& x.col + x.len <= usize::MAX
    &&& crate::triage::is_boundary(l, a)
    &&& crate::triage::is_boundary(l, b)
    &&& utf16_len(l) <= u32::MAX
}

/// The editor range of a finding: its line, and its columns in UTF-16
/// units.
pub open spec fn spec_issue_range(s: Seq<char>, x: IssueView) -> TextRange {
    let li = issue_line(x);
    let l = line_text(s, li as int);
    let (a, b) = issue_cols(l, x);
    let i = index_at(l, a);
    let j = index_at(l, b);
    TextRange {
        start_line: li,
        start_character: utf16_len(l.take(i)) as u32,
        end_line: li,
        end_character: (utf16_len(l.take(i)) + utf16_len(l.subrange(i, j))) as u32,
    }
}

/// Character bounds of line `idx` of `cs`, split at `\n`; `None` past the
/// last line.
fn line_bounds(cs: &Vec<char>, idx: usize) -> (r: Option<(usize, usize)>)
    ensures
        match r {
            Some((a, b)) => a <= b <= cs@.len() && idx < split_by(cs@, '\n', 0, 0).len() && cs@.subrange(
                a as int,
                b as int,
            ) == split_by(cs@, '\n', 0, 0)[idx as int],
            None => idx >= split_by(cs@, '\n', 0, 0).len(),
        },
{
    let ghost s = cs@;
    let ghost all = split_by(s, '\n', 0, 0);
    let ghost mut done: Seq<Seq<char>> = Seq::empty();
    let mut count: usize = 0;
    let mut start: usize = 0;
    let mut i: usize = 0;
    let mut found: Option<(usize, usize)> = None;
    while i < cs.len()
        invariant
            s == cs@,
            all == split_by(s, '\n', 0, 0),
            start <= i <= s.len(),
            count <= i,
            done.len() == count,
            done + split_by(s, '\n', start as int, i as int) == all,
            match found {
                Some((a, b)) => idx < count && a <= b <= s.len() && s.subrange(a as int, b as int) == done[idx as int],
                None => count <= idx,
            },
        decreases s.len() - i,
    {
        if cs[i] == '\n' {
            let ghost piece = s.subrange(start as int, i as int);
            proof {
                assert(done.push(piece) + split_by(s, '\n', i + 1, i + 1) =~= done + split_by(
                    s,
                    '\n',
                    start as int,
                    i as int,
                ));
            }
            if count == idx && found.is_none() {
                found = Some((start, i));
            }
            proof {
                done = done.push(piece);
            }
            count += 1;
            start = i + 1;
        }
        i += 1;
    }
    let ghost last = s.subrange(start as int, s.len() as int);
    assert(done.push(last) =~= done + split_by(s, '\n', start as int, i as int));
    assert(all == done.push(last));
    match found {
        Some(p) => {
            assert(all[idx as int] == done[idx as int]);
            Some(p)
        },
        None => {
            if count == idx {
                Some((start, cs.len()))
            } else {
                None
            }
        },
    }
}

/// The UTF-16 length of `l[i..j]`, where the whole of `l` fits.
fn utf16_between(l: &Vec<char>, i: usize, j: usize) -> (r: u32)
    requires
        i <= j <= l@.len(),
        utf16_len(l@) <= u32::MAX,
    ensures
        r == utf16_len(l@.subrange(i as int, j as int)),
{
    let mut acc: u32 = 0;
    let mut k: usize = i;
    proof {
        assert(l@.subrange(i as int, i as int) =~= Seq::<char>::empty());
    }
    while k < j
        invariant
            i <= k <= j <= l@.len(),
            utf16_len(l@) <= u32::MAX,
            acc == utf16_len(l@.subrange(i as int, k as int)),
        decreases j - k,
    {
        proof {
            let t = l@.subrange(i as int, k + 1);
            assert(t.drop_last() =~= l@.subrange(i as int, k as int));
            assert(t.last() == l@[k as int]);
            lemma_utf16_add(l@.take(i as int), t);
            lemma_utf16_add(l@.take(i as int) + t, l@.skip(k + 1));
            assert(l@.take(i as int) + t + l@.skip(k + 1) =~= l@);
            lemma_utf16_nonneg(l@.skip(k + 1));
            lemma_utf16_nonneg(l@.take(i as int));
        }
        let w: u32 = if (l[k] as u32) < 0x10000 {
            1
        } else {
            2
        };
        acc = acc + w;
        k += 1;
    }
    acc
}

/// The character index of byte offset `b` of `l`, given its byte offsets.
fn index_of_offset(offs: &Vec<usize>, b: usize) -> (r: usize)
    requires
        exists|i: int| 0 <= i < offs@.len() && offs@[i] == b,
    ensures
        r < offs@.len(),
        offs@[r as int] == b,
{
    let mut i: usize = 0;
    while i < offs.len()
        invariant
            0 <= i <= offs@.len(),
            exists|q: int| i <= q < offs@.len() && offs@[q] == b,
        decreases offs@.len() - i,
    {
        if offs[i] == b {
            return i;
        }
        i += 1;
    }
    0
}

/// The editor range of a finding: its line (split at `\n`), and its
/// columns clamped to the line and counted in UTF-16 units.
#[verifier::spinoff_prover]
#[verifier::rlimit(40)]
pub fn issue_range(text: &str, issue: &Issue) -> (r: TextRange)
    requires
        issue_range_ok(text@, issue@),
    ensures
        r == spec_issue_range(text@, issue@),
{
    let cs = chars_of(text);
    let li: u32 = if issue.line >= 1 {
        issue.line - 1
    } else {
        0
    };
    let l: Vec<char> = match line_bounds(&cs, li as usize) {
        Some((a, b)) => crate::text::slice_range(cs.as_slice(), a, b),
        None => Vec::new(),
    };
    let ghost lv = line_text(text@, li as int);
    assert(l@ == lv);
    let ls = crate::text::string_from_chars(l.as_slice());
    let n = crate::text::str_byte_len(ls.as_str());
    let offs = crate::text::byte_offsets(l.as_slice());
    assert(offs@[l@.len() as int] == byte_offset(l@, l@.len() as int));
    assert(l@.take(l@.len() as int) =~= l@);
    assert(n == offs@[l@.len() as int]);
    let end_col = issue.col + issue.len;
    let a = if issue.col < n {
        issue.col
    } else {
        n
    };
    let b = if end_col < n {
        end_col
    } else {
        n
    };
    proof {
        let w = choose|w: int| 0 <= w <= lv.len() && byte_offset(lv, w) == a;
        assert(offs@[w] == byte_offset(l@, w));
        let z = choose|z: int| 0 <= z <= lv.len() && byte_offset(lv, z) == b;
        assert(offs@[z] == byte_offset(l@, z));
    }
    let i = index_of_offset(&offs, a);
    let j = index_of_offset(&offs, b);
    proof {
        assert(offs@[i as int] == byte_offset(l@, i as int));
        assert(offs@[j as int] == byte_offset(l@, j as int));
        lemma_index_at(l@, i as int);
        lemma_index_at(l@, j as int);
        if j < i {
            crate::fixes::lemma_offset_strict(l@, j as int, i as int);
        }
        lemma_utf16_add(l@.take(i as int), l@.subrange(i as int, j as int));
        lemma_utf16_add(l@.take(j as int), l@.skip(j as int));
        lemma_utf16_nonneg(l@.skip(j as int));
        lemma_utf16_nonneg(l@.subrange(i as int, j as int));
        lemma_utf16_nonneg(l@.take(i as int));
        assert(l@.take(i as int) + l@.subrange(i as int, j as int) =~= l@.take(j as int));
        assert(l@.take(j as int) + l@.skip(j as int) =~= l@);
        assert(l@.subrange(0, i as int) =~= l@.take(i as int));
    }
    let start_char = utf16_between(&l, 0, i);
    let span = utf16_between(&l, i, j);
    TextRange { start_line: li, start_character: start_char, end_line: li, end_character: start_char + span }
}

/// The documentation page of a rule.
pub open spec fn rule_docs_url(kind: IssueKind, japanese: bool) -> Seq<char> {
    if japanese {
        "https://hjosugi.github.io/ayame-spell/ja/reference/rules/#"@ + spec_code(kind)
    } else {
        "https://hjosugi.github.io/ayame-spell/reference/rules/#"@ + spec_code(kind)
    }
}

/// The hover text of a finding's rule.
pub open spec fn spec_hover_markdown(kind: IssueKind, japanese: bool) -> Seq<char> {
    let info = rule_info(kind, japanese);
    let head = "### "@ + info.title@ + " (`"@ + spec_code(kind) + "`)\n\n"@ + info.summary@ + "\n\n"@
        + info.explanation@ + "\n\n"@;
    if japanese {
        head + "**設定:** `"@ + info.config_key@ + "`  \n**例:** `"@ + info.example@ + "`  \n**無視する方法:** "@
            + info.silence@ + "  \n[ルール詳細]("@ + rule_docs_url(kind, japanese) + ")"@
    } else {
        head + "**Configuration:** `"@ + info.config_key@ + "`  \n**Example:** `"@ + info.example@
            + "`  \n**How to silence:** "@ + info.silence@ + "  \n[Rule details]("@ + rule_docs_url(kind, japanese)
            + ")"@
    }
}

/// The hover text of a finding's rule: its title, summary, explanation,
/// configuration, example, how to silence it, and a link to its page.
pub fn hover_markdown(kind: IssueKind, japanese: bool) -> (r: String)
    ensures
        r@ == spec_hover_markdown(kind, japanese),
{
    let info = kind.info(japanese);
    let code = kind.code();
    let mut s = to_owned("### ");
    push_str(&mut s, info.title);
    push_str(&mut s, " (`");
    push_str(&mut s, code);
    push_str(&mut s, "`)\n\n");
    push_str(&mut s, info.summary);
    push_str(&mut s, "\n\n");
    push_str(&mut s, info.explanation);
    push_str(&mut s, "\n\n");
    if japanese {
        push_str(&mut s, "**設定:** `");
        push_str(&mut s, info.config_key);
        push_str(&mut s, "`  \n**例:** `");
        push_str(&mut s, info.example);
        push_str(&mut s, "`  \n**無視する方法:** ");
        push_str(&mut s, info.silence);
        push_str(&mut s, "  \n[ルール詳細](");
        push_str(&mut s, "https://hjosugi.github.io/ayame-spell/ja/reference/rules/#");
    } else {
        push_str(&mut s, "**Configuration:** `");
        push_str(&mut s, info.config_key);
        push_str(&mut s, "`  \n**Example:** `");
        push_str(&mut s, info.example);
        push_str(&mut s, "`  \n**How to silence:** ");
        push_str(&mut s, info.silence);
        push_str(&mut s, "  \n[Rule details](");
        push_str(&mut s, "https://hjosugi.github.io/ayame-spell/reference/rules/#");
    }
    push_str(&mut s, code);
    push_str(&mut s, ")");
    s
}

/// The first three of the ranges `rs[..n]` that overlap `want`, by index.
pub open spec fn overlapping_upto(rs: Seq<TextRange>, want: TextRange, n: int) -> Seq<usize>
    decreases n,
{
    if n <= 0 {
        Seq::empty()
    } else {
        let r = overlapping_upto(rs, want, n - 1);
        let x = rs[n - 1];
        if r.len() < 3 && pos_le(x.start_line, x.start_character, want.end_line, want.end_character) && pos_le(
            want.start_line,
            want.start_character,
            x.end_line,
            x.end_character,
        ) {
            r.push((n - 1) as usize)
        } else {
            r
        }
    }
}

/// The findings (by index of their ranges) that a code-action request
/// covers: the first three whose ranges overlap the requested one.
pub fn select_overlapping(ranges: &Vec<TextRange>, want: &TextRange) -> (r: Vec<usize>)
    ensures
        r@ == overlapping_upto(ranges@, *want, ranges@.len() as int),
{
    let mut out: Vec<usize> = Vec::new();
    let mut i: usize = 0;
    while i < ranges.len()
        invariant
            0 <= i <= ranges@.len(),
            out@ == overlapping_upto(ranges@, *want, i as int),
        decreases ranges@.len() - i,
    {
        if out.len() < 3 && ranges_overlap(&ranges[i], want) {
            out.push(i);
        }
        i += 1;
    }
    out
}

/// The safe fixes of the first `n` findings, each with its finding's index.
pub open spec fn fix_targets_upto(xs: Seq<IssueView>, n: int) -> Seq<(usize, Seq<char>)>
    decreases n,
{
    if n <= 0 {
        Seq::empty()
    } else {
        let r = fix_targets_upto(xs, n - 1);
        match crate::issue::spec_safe_fix(xs[n - 1]) {
            Some(f) => r.push(((n - 1) as usize, f)),
            None => r,
        }
    }
}

pub open spec fn fix_target_views(v: Seq<(usize, String)>) -> Seq<(usize, Seq<char>)> {
    v.map_values(|p: (usize, String)| (p.0, p.1@))
}

/// The edits of "fix all": each finding with a safe fix, by index, with
/// the fix.
pub fn fix_all_targets(issues: &Vec<Issue>) -> (r: Vec<(usize, String)>)
    ensures
        fix_target_views(r@) == fix_targets_upto(crate::japanese::issue_views(issues@), issues@.len() as int),
{
    let ghost xs = crate::japanese::issue_views(issues@);
    let mut out: Vec<(usize, String)> = Vec::new();
    let mut i: usize = 0;
    assert(fix_target_views(out@) =~= Seq::<(usize, Seq<char>)>::empty());
    while i < issues.len()
        invariant
            0 <= i <= issues@.len(),
            xs == crate::japanese::issue_views(issues@),
            fix_target_views(out@) == fix_targets_upto(xs, i as int),
        decreases issues@.len() - i,
    {
        assert(xs[i as int] == issues@[i as int]@);
        match issues[i].safe_fix() {
            Some(f) => {
                let ghost b = fix_target_views(out@);
                let pair = (i, to_owned(f));
                let ghost pv = (pair.0, pair.1@);
                out.push(pair);
                assert(fix_target_views(out@) =~= b.push(pv));
            },
            None => {},
        }
        i += 1;
    }
    out
}

/// A quick fix or command offered for a selection.
pub enum ActionPlan {
    /// Replace finding `issue` with a suggestion; `preferred` where it is
    /// the only one.
    Replace { issue: usize, suggestion: String, preferred: bool },
    /// Replace every finding of `targets` (the same variant with the same
    /// first suggestion) with `replacement`.
    NormaliseAll { word: String, replacement: String, targets: Vec<usize> },
    /// Add a word to the project (or global) word file.
    AddWords { word: String, global: bool },
    /// Add a word to `[words].ignore`.
    IgnoreWords { word: String },
    /// Add `word = replacement` to `[corrections.words]`.
    AddCorrection { word: String, replacement: String },
    /// Insert a directive that ignores the whole file.
    IgnoreFile,
    /// Append a directive that ignores line `line` (counted from 0).
    IgnoreLine { line: u32 },
    /// Apply every safe fix of the document.
    FixAll,
}

/// An action as plain values.
pub enum ActionView {
    Replace(usize, Seq<char>, bool),
    NormaliseAll(Seq<char>, Seq<char>, Seq<usize>),
    AddWords(Seq<char>, bool),
    IgnoreWords(Seq<char>),
    AddCorrection(Seq<char>, Seq<char>),
    IgnoreFile,
    IgnoreLine(u32),
    FixAll,
}

pub open spec fn action_view(a: ActionPlan) -> ActionView {
    match a {
        ActionPlan::Replace { issue, suggestion, preferred } => ActionView::Replace(issue, suggestion@, preferred),
        ActionPlan::NormaliseAll { word, replacement, targets } => ActionView::NormaliseAll(
            word@,
            replacement@,
            targets@,
        ),
        ActionPlan::AddWords { word, global } => ActionView::AddWords(word@, global),
        ActionPlan::IgnoreWords { word } => ActionView::IgnoreWords(word@),
        ActionPlan::AddCorrection { word, replacement } => ActionView::AddCorrection(word@, replacement@),
        ActionPlan::IgnoreFile => ActionView::IgnoreFile,
        ActionPlan::IgnoreLine { line } => ActionView::IgnoreLine(line),
        ActionPlan::FixAll => ActionView::FixAll,
    }
}

pub open spec fn action_views(v: Seq<ActionPlan>) -> Seq<ActionView> {
    v.map_values(|a: ActionPlan| action_view(a))
}

/// The title an editor shows for an action.
pub open spec fn spec_action_title(a: ActionView) -> Seq<char> {
    match a {
        ActionView::Replace(_, s, _) => "Change to \""@ + s + "\""@,
        ActionView::NormaliseAll(w, r, _) => "Normalise every \""@ + w + "\" to \""@ + r + "\" in this document"@,
        ActionView::AddWords(w, global) => if global {
            "Add \""@ + w + "\" to global words"@
        } else {
            "Add \""@ + w + "\" to project words"@
        },
        ActionView::IgnoreWords(w) => "Ignore \""@ + w + "\" in this project (ayame-spell.toml)"@,
        ActionView::AddCorrection(w, r) => "Add correction \""@ + w + "\" → \""@ + r + "\" to ayame-spell.toml"@,
        ActionView::IgnoreFile => "Ignore findings in this file"@,
        ActionView::IgnoreLine(_) => "Ignore this line"@,
        ActionView::FixAll => "ayame-spell: fix all safe issues in file"@,
    }
}

impl ActionPlan {
    /// The title an editor shows for the action.
    pub fn title(&self) -> (r: String)
        ensures
            r@ == spec_action_title(action_view(*self)),
    {
        match self {
            ActionPlan::Replace { suggestion, .. } => {
                let mut s = to_owned("Change to \"");
                push_str(&mut s, suggestion.as_str());
                push_str(&mut s, "\"");
                s
            },
            ActionPlan::NormaliseAll { word, replacement, .. } => {
                let mut s = to_owned("Normalise every \"");
                push_str(&mut s, word.as_str());
                push_str(&mut s, "\" to \"");
                push_str(&mut s, replacement.as_str());
                push_str(&mut s, "\" in this document");
                s
            },
            ActionPlan::AddWords { word, global } => {
                let mut s = to_owned("Add \"");
                push_str(&mut s, word.as_str());
                if *global {
                    push_str(&mut s, "\" to global words");
                } else {
                    push_str(&mut s, "\" to project words");
                }
                s
            },
            ActionPlan::IgnoreWords { word } => {
                let mut s = to_owned("Ignore \"");
                push_str(&mut s, word.as_str());
                push_str(&mut s, "\" in this project (ayame-spell.toml)");
                s
            },
            ActionPlan::AddCorrection { word, replacement } => {
                let mut s = to_owned("Add correction \"");
                push_str(&mut s, word.as_str());
                push_str(&mut s, "\" → \"");
                push_str(&mut s, replacement.as_str());
                push_str(&mut s, "\" to ayame-spell.toml");
                s
            },
            ActionPlan::IgnoreFile => to_owned("Ignore findings in this file"),
            ActionPlan::IgnoreLine { .. } => to_owned("Ignore this line"),
            ActionPlan::FixAll => to_owned("ayame-spell: fix all safe issues in file"),
        }
    }
}

/// The findings among `xs[..n]` that "normalise all" rewrites: variants of
/// `word` whose first suggestion is `r`.
pub open spec fn normalise_targets(xs: Seq<IssueView>, word: Seq<char>, r: Seq<char>, n: int) -> Seq<usize>
    decreases n,
{
    if n <= 0 {
        Seq::empty()
    } else {
        let t = normalise_targets(xs, word, r, n - 1);
        let y = xs[n - 1];
        if y.kind == IssueKind::JaVariant && y.word == word && y.suggestions.len() > 0 && y.suggestions[0] == r {
            t.push((n - 1) as usize)
        } else {
            t
        }
    }
}

/// "Change to" actions for the first `n` suggestions of finding `k`.
pub open spec fn replace_actions(x: IssueView, k: usize, n: int) -> Seq<ActionView>
    decreases n,
{
    if n <= 0 {
        Seq::empty()
    } else {
        replace_actions(x, k, n - 1).push(
            ActionView::Replace(k, x.suggestions[n - 1], n - 1 == 0 && x.suggestions.len() == 1),
        )
    }
}

/// The actions offered for finding `k`: its first five suggestions; for a
/// Japanese variant, normalising the document; adding or ignoring the word
/// (typos, unknown words, variants); a correction entry; and ignoring the
/// file or the line.
pub open spec fn issue_actions(xs: Seq<IssueView>, k: usize) -> Seq<ActionView> {
    let x = xs[k as int];
    let m: int = if x.suggestions.len() < 5 {
        x.suggestions.len() as int
    } else {
        5
    };
    let normalise: Seq<ActionView> = if x.kind == IssueKind::JaVariant && x.suggestions.len() > 0 {
        let t = normalise_targets(xs, x.word, x.suggestions[0], xs.len() as int);
        if t.len() > 0 {
            seq![ActionView::NormaliseAll(x.word, x.suggestions[0], t)]
        } else {
            Seq::empty()
        }
    } else {
        Seq::empty()
    };
    let words: Seq<ActionView> = if x.kind == IssueKind::Typo || x.kind == IssueKind::UnknownWord || x.kind
        == IssueKind::JaVariant {
        seq![ActionView::AddWords(x.word, false), ActionView::AddWords(x.word, true), ActionView::IgnoreWords(x.word)]
    } else {
        Seq::empty()
    };
    let correction: Seq<ActionView> = if x.suggestions.len() > 0 {
        seq![ActionView::AddCorrection(x.word, x.suggestions[0])]
    } else {
        Seq::empty()
    };
    replace_actions(x, k, m) + normalise + words + correction + seq![
        ActionView::IgnoreFile,
        ActionView::IgnoreLine(issue_line(x)),
    ]
}

pub open spec fn plan_upto(xs: Seq<IssueView>, sel: Seq<usize>, n: int) -> Seq<ActionView>
    decreases n,
{
    if n <= 0 {
        Seq::empty()
    } else {
        plan_upto(xs, sel, n - 1) + issue_actions(xs, sel[n - 1])
    }
}

/// Whether some finding has a safe fix.
pub open spec fn any_safe_fix(xs: Seq<IssueView>) -> bool {
    exists|i: int| 0 <= i < xs.len() && crate::issue::spec_safe_fix(#[trigger] xs[i]) is Some
}

/// The actions for the selected findings, in order, then "fix all" where
/// some finding of the document has a safe fix.
pub open spec fn spec_code_action_plan(xs: Seq<IssueView>, sel: Seq<usize>) -> Seq<ActionView> {
    plan_upto(xs, sel, sel.len() as int) + if any_safe_fix(xs) {
        seq![ActionView::FixAll]
    } else {
        Seq::empty()
    }
}

fn push_action(out: &mut Vec<ActionPlan>, a: ActionPlan)
    ensures
        action_views(final(out)@) == action_views(old(out)@).push(action_view(a)),
{
    let ghost b = action_views(out@);
    let ghost av = action_view(a);
    out.push(a);
    assert(action_views(out@) =~= b.push(av));
}

fn actions_for_issue(issues: &Vec<Issue>, k: usize, out: &mut Vec<ActionPlan>)
    requires
        k < issues@.len(),
    ensures
        action_views(final(out)@) == action_views(old(out)@) + issue_actions(
            crate::japanese::issue_views(issues@),
            k,
        ),
{
    let ghost xs = crate::japanese::issue_views(issues@);
    let ghost start = action_views(out@);
    let x = &issues[k];
    assert(xs[k as int] == x@);
    let m: usize = if x.suggestions.len() < 5 {
        x.suggestions.len()
    } else {
        5
    };
    let mut n: usize = 0;
    assert(start + replace_actions(x@, k, 0) =~= start);
    while n < m
        invariant
            0 <= n <= m <= x.suggestions@.len(),
            xs == crate::japanese::issue_views(issues@),
            x@ == xs[k as int],
            action_views(out@) == start + replace_actions(x@, k, n as int),
        decreases m - n,
    {
        let s = to_owned(x.suggestions[n].as_str());
        assert(x@.suggestions[n as int] == x.suggestions@[n as int]@);
        push_action(out, ActionPlan::Replace { issue: k, suggestion: s, preferred: n == 0 && x.suggestions.len() == 1 });
        assert(action_views(out@) =~= start + replace_actions(x@, k, n + 1));
        n += 1;
    }
    let ghost after_replace = action_views(out@);
    if x.kind == IssueKind::JaVariant && x.suggestions.len() > 0 {
        let r = x.suggestions[0].as_str();
        assert(x@.suggestions[0] == r@);
        let mut targets: Vec<usize> = Vec::new();
        let mut i: usize = 0;
        while i < issues.len()
            invariant
                0 <= i <= issues@.len(),
                xs == crate::japanese::issue_views(issues@),
                x@ == xs[k as int],
                r@ == x@.suggestions[0],
                targets@ == normalise_targets(xs, x@.word, r@, i as int),
            decreases issues@.len() - i,
        {
            let y = &issues[i];
            assert(xs[i as int] == y@);
            if y.kind == IssueKind::JaVariant && crate::text::str_eq(y.word.as_str(), x.word.as_str())
                && y.suggestions.len() > 0 && crate::text::str_eq(y.suggestions[0].as_str(), r) {
                assert(y@.suggestions[0] == y.suggestions@[0]@);
                targets.push(i);
            } else {
                proof {
                    if y.suggestions@.len() > 0 {
                        assert(y@.suggestions[0] == y.suggestions@[0]@);
                    }
                }
            }
            i += 1;
        }
        if targets.len() > 0 {
            push_action(
                out,
                ActionPlan::NormaliseAll { word: to_owned(x.word.as_str()), replacement: to_owned(r), targets },
            );
        }
    }
    let ghost after_normalise = action_views(out@);
    if x.kind == IssueKind::Typo || x.kind == IssueKind::UnknownWord || x.kind == IssueKind::JaVariant {
        push_action(out, ActionPlan::AddWords { word: to_owned(x.word.as_str()), global: false });
        push_action(out, ActionPlan::AddWords { word: to_owned(x.word.as_str()), global: true });
        push_action(out, ActionPlan::IgnoreWords { word: to_owned(x.word.as_str()) });
    }
    let ghost after_words = action_views(out@);
    if x.suggestions.len() > 0 {
        assert(x@.suggestions[0] == x.suggestions@[0]@);
        push_action(
            out,
            ActionPlan::AddCorrection { word: to_owned(x.word.as_str()), replacement: to_owned(x.suggestions[0].as_str()) },
        );
    }
    push_action(out, ActionPlan::IgnoreFile);
    let line: u32 = if x.line >= 1 {
        x.line - 1
    } else {
        0
    };
    push_action(out, ActionPlan::IgnoreLine { line });
    assert(action_views(out@) =~= start + issue_actions(xs, k));
}

/// The actions offered for the selected findings (indices into `issues`),
/// then "fix all" where a finding of the document has a safe fix.
pub fn code_action_plan(issues: &Vec<Issue>, selected: &Vec<usize>) -> (r: Vec<ActionPlan>)
    requires
        forall|i: int| 0 <= i < selected@.len() ==> selected@[i] < issues@.len(),
    ensures
        action_views(r@) == spec_code_action_plan(crate::japanese::issue_views(issues@), selected@),
{
    let ghost xs = crate::japanese::issue_views(issues@);
    let mut out: Vec<ActionPlan> = Vec::new();
    let mut i: usize = 0;
    assert(action_views(out@) =~= Seq::<ActionView>::empty());
    while i < selected.len()
        invariant
            0 <= i <= selected@.len(),
            xs == crate::japanese::issue_views(issues@),
            forall|q: int| 0 <= q < selected@.len() ==> selected@[q] < issues@.len(),
            action_views(out@) == plan_upto(xs, selected@, i as int),
        decreases selected@.len() - i,
    {
        actions_for_issue(issues, selected[i], &mut out);
        i += 1;
    }
    let mut any = false;
    let mut j: usize = 0;
    while j < issues.len()
        invariant
            0 <= j <= issues@.len(),
            xs == crate::japanese::issue_views(issues@),
            any == exists|q: int| 0 <= q < j && crate::issue::spec_safe_fix(#[trigger] xs[q]) is Some,
        decreases issues@.len() - j,
    {
        assert(xs[j as int] == issues@[j as int]@);
        if issues[j].safe_fix().is_some() {
            any = true;
        }
        j += 1;
    }
    if any {
        push_action(&mut out, ActionPlan::FixAll);
    } else {
        assert(action_views(out@) =~= action_views(out@) + Seq::<ActionView>::empty());
    }
    out
}

} // verus!
