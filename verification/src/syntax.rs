//! Lightweight syntax masking that preserves byte offsets.
//!
//! Bounded heuristics rather than parser trees: the checker stays
//! dependency-light and handles incomplete files, and `all` checks every
//! token. Masked characters become blanks of the same UTF-8 width, so every
//! offset in the masked text is the offset in the original.
use vstd::prelude::*;

use crate::config::SyntaxProfile;
use crate::text::{
    byte_len, chars_of, is_whitespace, is_ws, lemma_byte_len_push, lemma_scalar_width, push_char,
    spec_width, str_eq, to_owned,
};
use crate::tokenizer::{ascii_lowercase, lower_seq};

verus! {

/// The blank of a given UTF-8 width.
pub open spec fn blank_of_width(w: nat) -> char {
    if w == 1 {
        ' '
    } else if w == 2 {
        '\u{00a0}'
    } else if w == 3 {
        '\u{2003}'
    } else {
        '\u{10000}'
    }
}

/// `r` is `s` with some characters, never a line break, replaced by a blank
/// of the same width.
pub open spec fn masks(s: Seq<char>, r: Seq<char>) -> bool {
    &&& r.len() == s.len()
    &&& forall|i: int|
        0 <= i < s.len() ==> #[trigger] r[i] == s[i] || (s[i] != '\n' && s[i] != '\r' && r[i]
            == blank_of_width(spec_width(s[i])))
}

proof fn lemma_blank_width(c: char)
    ensures
        spec_width(blank_of_width(spec_width(c))) == spec_width(c),
{
}

/// Masking keeps the UTF-8 length, so byte offsets carry over.
pub proof fn law_mask_keeps_length(s: Seq<char>, r: Seq<char>)
    requires
        masks(s, r),
    ensures
        byte_len(r) == byte_len(s),
    decreases s.len(),
{
    if s.len() > 0 {
        let s0 = s.drop_last();
        let r0 = r.drop_last();
        assert(masks(s0, r0)) by {
            assert forall|i: int| 0 <= i < s0.len() implies #[trigger] r0[i] == s0[i] || (s0[i] != '\n'
                && s0[i] != '\r' && r0[i] == blank_of_width(spec_width(s0[i]))) by {
                assert(r0[i] == r[i] && s0[i] == s[i]);
            }
        }
        law_mask_keeps_length(s0, r0);
        assert(s =~= s0.push(s.last()));
        assert(r =~= r0.push(r.last()));
        lemma_byte_len_push(s0, s.last());
        lemma_byte_len_push(r0, r.last());
        lemma_blank_width(s.last());
        assert(r[s.len() - 1] == s[s.len() - 1] || r[s.len() - 1] == blank_of_width(spec_width(s[s.len() - 1])));
    }
}

fn blank_for(c: char) -> (b: char)
    ensures
        b == blank_of_width(spec_width(c)),
{
    let w = crate::text::char_width(c);
    if w == 1 {
        ' '
    } else if w == 2 {
        '\u{00a0}'
    } else if w == 3 {
        '\u{2003}'
    } else {
        '\u{10000}'
    }
}

/// The text with every character whose `keep` flag is off (line breaks
/// excepted) replaced by a blank of its width.
pub open spec fn rendered(cs: Seq<char>, keep: Seq<bool>) -> Seq<char> {
    Seq::new(
        cs.len(),
        |i: int|
            if cs[i] == '\n' || cs[i] == '\r' || keep[i] {
                cs[i]
            } else {
                blank_of_width(spec_width(cs[i]))
            },
    )
}

fn render_mask(cs: &Vec<char>, keep: &Vec<bool>) -> (r: String)
    requires
        keep@.len() == cs@.len(),
    ensures
        masks(cs@, r@),
        r@ == rendered(cs@, keep@),
{
    let mut out = String::new();
    let mut i: usize = 0;
    while i < cs.len()
        invariant
            keep@.len() == cs@.len(),
            0 <= i <= cs@.len(),
            out@.len() == i,
            forall|k: int| 0 <= k < i ==> #[trigger] out@[k] == rendered(cs@, keep@)[k],
        decreases cs@.len() - i,
    {
        let c = cs[i];
        if c == '\n' || c == '\r' || keep[i] {
            push_char(&mut out, c);
        } else {
            push_char(&mut out, blank_for(c));
        }
        i += 1;
    }
    assert(out@ =~= rendered(cs@, keep@));
    out
}

/// `keep` with the flags at `start..end` (clamped to its length) set to `v`.
pub open spec fn filled(keep: Seq<bool>, start: int, end: int, v: bool) -> Seq<bool> {
    Seq::new(keep.len(), |i: int| if start <= i < end { v } else { keep[i] })
}

/// Turn off `keep[start..end]` (clamped to the text).
fn clear_range(keep: &mut Vec<bool>, start: usize, end: usize)
    ensures
        final(keep)@.len() == old(keep)@.len(),
        final(keep)@ == filled(old(keep)@, start as int, end as int, false),
{
    let mut i = start;
    while i < end && i < keep.len()
        invariant
            keep@.len() == old(keep)@.len(),
            start <= i,
            i <= end || i == start,
            keep@ == filled(old(keep)@, start as int, i as int, false),
        decreases end - i,
    {
        keep.set(i, false);
        i += 1;
        assert(keep@ =~= filled(old(keep)@, start as int, i as int, false));
    }
    assert(keep@ =~= filled(old(keep)@, start as int, end as int, false));
}

/// Turn on `keep[start..end]` (clamped to the text).
fn set_range(keep: &mut Vec<bool>, start: usize, end: usize)
    ensures
        final(keep)@.len() == old(keep)@.len(),
        final(keep)@ == filled(old(keep)@, start as int, end as int, true),
{
    let mut i = start;
    while i < end && i < keep.len()
        invariant
            keep@.len() == old(keep)@.len(),
            start <= i,
            i <= end || i == start,
            keep@ == filled(old(keep)@, start as int, i as int, true),
        decreases end - i,
    {
        keep.set(i, true);
        i += 1;
        assert(keep@ =~= filled(old(keep)@, start as int, i as int, true));
    }
    assert(keep@ =~= filled(old(keep)@, start as int, end as int, true));
}

/// The fence opened or closed by a line: its marker and width, when it
/// starts with at least three backticks or tildes.
fn fence_marker(cs: &Vec<char>, start: usize, end: usize) -> (r: Option<(char, usize)>)
    requires
        start <= end <= cs@.len(),
    ensures
        match r {
            Some((m, w)) => {
                &&& start < end
                &&& m == cs@[start as int]
                &&& (m == '`' || m == '~')
                &&& 3 <= w
                &&& start + w <= end
                &&& forall|k: int| start <= k < start + w ==> cs@[k] == m
                &&& (start + w == end || cs@[start + w] != m)
            },
            None => !(start + 3 <= end && (cs@[start as int] == '`' || cs@[start as int] == '~')
                && cs@[start + 1] == cs@[start as int] && cs@[start + 2] == cs@[start as int]),
        },
        r == fence_of(cs@, start as int, end as int),
{
    if start >= end {
        return None;
    }
    let marker = cs[start];
    if marker != '`' && marker != '~' {
        return None;
    }
    let mut k = start;
    while k < end && cs[k] == marker
        invariant
            start <= k <= end,
            end <= cs@.len(),
            marker == cs@[start as int],
            forall|j: int| start <= j < k ==> cs@[j] == marker,
            run_end(cs@, start as int, end as int, marker) == run_end(cs@, k as int, end as int, marker),
        decreases end - k,
    {
        k += 1;
    }
    let width = k - start;
    if width >= 3 {
        Some((marker, width))
    } else {
        None
    }
}

/// Whether `cs[at..at + width]` lies before `end` and is all backticks.
fn is_backtick_run(cs: &Vec<char>, at: usize, width: usize, end: usize) -> (r: bool)
    requires
        end <= cs@.len(),
        at <= end,
    ensures
        r == (width <= end - at && forall|k: int| at <= k < at + width ==> cs@[k] == '`'),
{
    let mut k: usize = 0;
    while k < width
        invariant
            end <= cs@.len(),
            at <= end,
            k <= width,
            k <= end - at,
            forall|j: int| at <= j < at + k ==> cs@[j] == '`',
        decreases width - k,
    {
        if k >= end - at || cs[at + k] != '`' {
            return false;
        }
        k += 1;
    }
    true
}

/// The end of the run of `c` that starts at `k`, before `end`.
pub open spec fn run_end(cs: Seq<char>, k: int, end: int, c: char) -> int
    decreases end - k,
{
    if k < end && cs[k] == c {
        run_end(cs, k + 1, end, c)
    } else {
        k
    }
}

/// A run ends between where it starts and `end`, past a first `c`.
pub proof fn lemma_run_end(cs: Seq<char>, k: int, end: int, c: char)
    requires
        k <= end,
    ensures
        k <= run_end(cs, k, end, c) <= end,
        k < end && cs[k] == c ==> k < run_end(cs, k, end, c),
    decreases end - k,
{
    if k < end && cs[k] == c {
        lemma_run_end(cs, k + 1, end, c);
    }
}

/// Where, at or after `close`, the first run of `width` backticks that
/// ends by `end` starts.
pub open spec fn closing_run(cs: Seq<char>, close: int, width: int, end: int) -> Option<int>
    decreases end - close,
{
    if close <= end && width <= end - close {
        if forall|k: int| close <= k < close + width ==> cs[k] == '`' {
            Some(close)
        } else {
            closing_run(cs, close + 1, width, end)
        }
    } else {
        None
    }
}

/// A closing run lies between `close` and `end`.
pub proof fn lemma_closing_run(cs: Seq<char>, close: int, width: int, end: int)
    ensures
        closing_run(cs, close, width, end) matches Some(c) ==> close <= c && c + width <= end,
    decreases end - close,
{
    if close <= end && width <= end - close {
        if !(forall|k: int| close <= k < close + width ==> cs[k] == '`') {
            lemma_closing_run(cs, close + 1, width, end);
        }
    }
}

/// The flags after masking, from `cursor` on, the inline code spans of the
/// line `cs[start..end]`: a run of backticks not escaped by a backslash,
/// up to the next run of as many backticks.
pub open spec fn inline_code_masked(
    cs: Seq<char>,
    start: int,
    end: int,
    cursor: int,
    keep: Seq<bool>,
) -> Seq<bool>
    decreases end - cursor,
{
    if cursor < end {
        if cs[cursor] != '`' || (cursor > start && cs[cursor - 1] == '\\') {
            inline_code_masked(cs, start, end, cursor + 1, keep)
        } else {
            let width = run_end(cs, cursor, end, '`') - cursor;
            match closing_run(cs, cursor + width, width, end) {
                Some(close) => {
                    proof {
                        lemma_run_end(cs, cursor, end, '`');
                        lemma_closing_run(cs, cursor + width, width, end);
                    }
                    inline_code_masked(
                        cs,
                        start,
                        end,
                        close + width,
                        filled(keep, cursor, close + width, false),
                    )
                },
                None => inline_code_masked(cs, start, end, cursor + 1, keep),
            }
        }
    } else {
        keep
    }
}

/// Mask inline code spans `` `…` `` of the line `cs[start..end]`.
fn mask_inline_code(cs: &Vec<char>, start: usize, end: usize, keep: &mut Vec<bool>)
    requires
        start <= end <= cs@.len(),
    ensures
        final(keep)@.len() == old(keep)@.len(),
        final(keep)@ == inline_code_masked(cs@, start as int, end as int, start as int, old(keep)@),
{
    let mut cursor = start;
    while cursor < end
        invariant
            start <= end <= cs@.len(),
            start <= cursor <= end,
            keep@.len() == old(keep)@.len(),
            inline_code_masked(cs@, start as int, end as int, cursor as int, keep@)
                == inline_code_masked(cs@, start as int, end as int, start as int, old(keep)@),
        decreases end - cursor,
    {
        if cs[cursor] != '`' || (cursor > start && cs[cursor - 1] == '\\') {
            cursor += 1;
            continue;
        }
        let mut w = cursor;
        while w < end && cs[w] == '`'
            invariant
                cursor <= w <= end,
                end <= cs@.len(),
                run_end(cs@, cursor as int, end as int, '`') == run_end(cs@, w as int, end as int, '`'),
            decreases end - w,
        {
            w += 1;
        }
        assert(w > cursor);
        let width = w - cursor;
        let mut close = w;
        let mut found = false;
        while !found && close <= end && width <= end - close
            invariant
                cursor < w <= close,
                end <= cs@.len(),
                width == w - cursor,
                found ==> close + width <= end,
                found ==> closing_run(cs@, w as int, width as int, end as int) == Some(close as int),
                !found ==> closing_run(cs@, w as int, width as int, end as int) == closing_run(
                    cs@,
                    close as int,
                    width as int,
                    end as int,
                ),
            decreases end - close + (if found { 0int } else { 1int }),
        {
            if is_backtick_run(cs, close, width, end) {
                found = true;
            } else {
                close += 1;
            }
        }
        if found {
            let stop = close + width;
            clear_range(keep, cursor, stop);
            cursor = stop;
        } else {
            cursor += 1;
        }
    }
}

/// The first index from `k` on, before `end`, that holds `c`; `end` if
/// there is none.
pub open spec fn first_of(cs: Seq<char>, k: int, end: int, c: char) -> int
    decreases end - k,
{
    if k < end {
        if cs[k] == c {
            k
        } else {
            first_of(cs, k + 1, end, c)
        }
    } else {
        end
    }
}

/// The first `c` lies between `k` and `end`.
pub proof fn lemma_first_of(cs: Seq<char>, k: int, end: int, c: char)
    requires
        k <= end,
    ensures
        k <= first_of(cs, k, end, c) <= end,
    decreases end - k,
{
    if k < end && cs[k] != c {
        lemma_first_of(cs, k + 1, end, c);
    }
}

/// The flags after masking, from `cursor` on, the link targets of the line
/// `cs[..end]`: from the `(` of each `](` through the next `)`.
pub open spec fn link_targets_masked(cs: Seq<char>, end: int, cursor: int, keep: Seq<bool>) -> Seq<
    bool,
>
    decreases end - cursor,
{
    if cursor + 1 < end {
        if cs[cursor] == ']' && cs[cursor + 1] == '(' && first_of(cs, cursor + 2, end, ')') < end {
            let k = first_of(cs, cursor + 2, end, ')');
            proof {
                lemma_first_of(cs, cursor + 2, end, ')');
            }
            link_targets_masked(cs, end, k + 1, filled(keep, cursor + 1, k + 1, false))
        } else {
            link_targets_masked(cs, end, cursor + 1, keep)
        }
    } else {
        keep
    }
}

/// Mask link targets `](…)` of the line `cs[start..end]`.
fn mask_link_targets(cs: &Vec<char>, start: usize, end: usize, keep: &mut Vec<bool>)
    requires
        start <= end <= cs@.len(),
    ensures
        final(keep)@.len() == old(keep)@.len(),
        final(keep)@ == link_targets_masked(cs@, end as int, start as int, old(keep)@),
{
    let mut cursor = start;
    while end > 0 && cursor < end - 1
        invariant
            start <= end <= cs@.len(),
            start <= cursor <= end,
            keep@.len() == old(keep)@.len(),
            link_targets_masked(cs@, end as int, cursor as int, keep@) == link_targets_masked(
                cs@,
                end as int,
                start as int,
                old(keep)@,
            ),
        decreases end - cursor,
    {
        if cs[cursor] == ']' && cs[cursor + 1] == '(' {
            let mut k = cursor + 2;
            while k < end && cs[k] != ')'
                invariant
                    cursor + 2 <= k <= end,
                    end <= cs@.len(),
                    first_of(cs@, cursor + 2, end as int, ')') == first_of(cs@, k as int, end as int, ')'),
                decreases end - k,
            {
                k += 1;
            }
            if k < end {
                clear_range(keep, cursor + 1, k + 1);
                cursor = k + 1;
                continue;
            }
        }
        cursor += 1;
    }
}

/// Whether `cs[start..end]` is exactly three `c`.
pub open spec fn dashes(cs: Seq<char>, start: int, end: int, c: char) -> bool {
    end - start == 3 && cs[start] == c && cs[start + 1] == c && cs[start + 2] == c
}

/// The end of `cs[start..e]` without its trailing line-break characters.
pub open spec fn trim_breaks_end(cs: Seq<char>, start: int, e: int) -> int
    decreases e - start,
{
    if e > start && (cs[e - 1] == '\n' || cs[e - 1] == '\r') {
        trim_breaks_end(cs, start, e - 1)
    } else {
        e
    }
}

/// The first index from `t` on, before `end`, that is not whitespace.
pub open spec fn skip_ws(cs: Seq<char>, t: int, end: int) -> int
    decreases end - t,
{
    if t < end && is_ws(cs[t]) {
        skip_ws(cs, t + 1, end)
    } else {
        t
    }
}

/// The end of `cs[start..e]` without its trailing whitespace.
pub open spec fn trim_ws_end(cs: Seq<char>, start: int, e: int) -> int
    decreases e - start,
{
    if e > start && is_ws(cs[e - 1]) {
        trim_ws_end(cs, start, e - 1)
    } else {
        e
    }
}

/// Whether the text opens with front matter: its first line, trimmed, is
/// `---`.
pub open spec fn opens_front_matter(cs: Seq<char>) -> bool {
    let fe = first_of(cs, 0, cs.len() as int, '\n');
    let b = if fe > 0 && cs[fe - 1] == '\r' {
        fe - 1
    } else {
        fe
    };
    let a = skip_ws(cs, 0, b);
    cs.len() > 0 && dashes(cs, a, trim_ws_end(cs, a, b), '-')
}

/// The fence a line `cs[start..end]` opens or closes: its marker and the
/// length of its leading run of markers, when that is at least three.
pub open spec fn fence_of(cs: Seq<char>, start: int, end: int) -> Option<(char, usize)> {
    if start < end && (cs[start] == '`' || cs[start] == '~') && run_end(cs, start, end, cs[start])
        - start >= 3 {
        Some((cs[start], (run_end(cs, start, end, cs[start]) - start) as usize))
    } else {
        None
    }
}

/// The keep flags of Markdown masking from the line starting at `ls` on.
/// While front matter is open (`fm`), its delimiting lines and each key up
/// to its colon are masked; a fenced block (`fenced`, its marker and width)
/// is masked up to and including its closing fence; other lines have their
/// inline code and link targets masked.
pub open spec fn markdown_kept(
    cs: Seq<char>,
    ls: int,
    fm: bool,
    fenced: Option<(char, usize)>,
    keep: Seq<bool>,
) -> Seq<bool>
    decreases cs.len() - ls,
{
    let n = cs.len() as int;
    if 0 <= ls < n {
        let raw_end = first_of(cs, ls, n, '\n');
        proof {
            lemma_first_of(cs, ls, n, '\n');
        }
        let next = if raw_end < n {
            raw_end + 1
        } else {
            n
        };
        let le = trim_breaks_end(cs, ls, raw_end);
        let t = skip_ws(cs, ls, le);
        if fm {
            if ls == 0 || dashes(cs, t, le, '-') || dashes(cs, t, le, '.') {
                markdown_kept(cs, next, ls == 0, fenced, filled(keep, ls, le, false))
            } else {
                let colon = first_of(cs, ls, le, ':');
                markdown_kept(
                    cs,
                    next,
                    fm,
                    fenced,
                    if colon < le {
                        filled(keep, ls, colon + 1, false)
                    } else {
                        keep
                    },
                )
            }
        } else {
            let fence = fence_of(cs, t, le);
            match fenced {
                Some((m, w)) => {
                    let still = match fence {
                        Some((c, k)) => !(c == m && k >= w),
                        None => true,
                    };
                    markdown_kept(
                        cs,
                        next,
                        fm,
                        if still {
                            fenced
                        } else {
                            None
                        },
                        filled(keep, ls, le, false),
                    )
                },
                None => match fence {
                    Some(f) => markdown_kept(cs, next, fm, Some(f), filled(keep, t, le, false)),
                    None => markdown_kept(
                        cs,
                        next,
                        fm,
                        None,
                        link_targets_masked(cs, le, ls, inline_code_masked(cs, ls, le, ls, keep)),
                    ),
                },
            }
        }
    } else {
        keep
    }
}

/// The Markdown text with front-matter keys, fenced code blocks, inline
/// code and link targets masked.
pub open spec fn markdown_masked(cs: Seq<char>) -> Seq<char> {
    rendered(
        cs,
        markdown_kept(cs, 0, opens_front_matter(cs), None, Seq::new(cs.len(), |i: int| true)),
    )
}

/// Whether `cs[start..end]` is exactly three `c`.
fn is_dashes(cs: &Vec<char>, start: usize, end: usize, c: char) -> (r: bool)
    requires
        start <= end <= cs@.len(),
    ensures
        r == dashes(cs@, start as int, end as int, c),
{
    if end - start != 3 {
        return false;
    }
    cs[start] == c && cs[start + 1] == c && cs[start + 2] == c
}

/// Mask Markdown: front-matter keys, fenced code blocks, inline code and
/// link targets.
fn mask_markdown(cs: &Vec<char>) -> (r: String)
    ensures
        masks(cs@, r@),
        r@ == markdown_masked(cs@),
{
    let n = cs.len();
    let mut keep: Vec<bool> = Vec::new();
    let mut i: usize = 0;
    while i < n
        invariant
            n == cs@.len(),
            keep@.len() == i,
            i <= n,
            forall|k: int| 0 <= k < i ==> #[trigger] keep@[k],
        decreases n - i,
    {
        keep.push(true);
        i += 1;
    }
    let ghost keep0 = keep@;
    assert(keep0 =~= Seq::new(cs@.len(), |i: int| true));
    let mut fenced: Option<(char, usize)> = None;
    // the first line, trimmed, is `---`
    let mut first_end: usize = 0;
    while first_end < n && cs[first_end] != '\n'
        invariant
            first_end <= n,
            n == cs@.len(),
            first_of(cs@, 0, n as int, '\n') == first_of(cs@, first_end as int, n as int, '\n'),
        decreases n - first_end,
    {
        first_end += 1;
    }
    let mut front_matter = if n == 0 {
        false
    } else {
        let mut a: usize = 0;
        let mut b = first_end;
        if b > a && cs[b - 1] == '\r' {
            b -= 1;
        }
        let ghost b0 = b;
        while a < b && is_whitespace(cs[a])
            invariant
                a <= b <= n,
                n == cs@.len(),
                skip_ws(cs@, 0, b as int) == skip_ws(cs@, a as int, b as int),
            decreases b - a,
        {
            a += 1;
        }
        while b > a && is_whitespace(cs[b - 1])
            invariant
                a <= b <= b0,
                b0 <= n,
                n == cs@.len(),
                trim_ws_end(cs@, a as int, b0 as int) == trim_ws_end(cs@, a as int, b as int),
            decreases b - a,
        {
            b -= 1;
        }
        is_dashes(cs, a, b, '-')
    };
    assert(front_matter == opens_front_matter(cs@));
    let mut line_start: usize = 0;
    while line_start < n
        invariant
            n == cs@.len(),
            keep@.len() == n,
            line_start <= n,
            markdown_kept(cs@, line_start as int, front_matter, fenced, keep@) == markdown_kept(
                cs@,
                0,
                opens_front_matter(cs@),
                None,
                keep0,
            ),
        decreases n - line_start,
    {
        let mut raw_end = line_start;
        while raw_end < n && cs[raw_end] != '\n'
            invariant
                line_start <= raw_end <= n,
                n == cs@.len(),
                first_of(cs@, line_start as int, n as int, '\n') == first_of(
                    cs@,
                    raw_end as int,
                    n as int,
                    '\n',
                ),
            decreases n - raw_end,
        {
            raw_end += 1;
        }
        let next = if raw_end < n {
            raw_end + 1
        } else {
            n
        };
        let mut line_end = raw_end;
        while line_end > line_start && (cs[line_end - 1] == '\n' || cs[line_end - 1] == '\r')
            invariant
                line_start <= line_end <= raw_end,
                raw_end <= n,
                n == cs@.len(),
                trim_breaks_end(cs@, line_start as int, raw_end as int) == trim_breaks_end(
                    cs@,
                    line_start as int,
                    line_end as int,
                ),
            decreases line_end,
        {
            line_end -= 1;
        }
        let mut t = line_start;
        while t < line_end && is_whitespace(cs[t])
            invariant
                line_start <= t <= line_end,
                line_end <= n,
                n == cs@.len(),
                skip_ws(cs@, line_start as int, line_end as int) == skip_ws(
                    cs@,
                    t as int,
                    line_end as int,
                ),
            decreases line_end - t,
        {
            t += 1;
        }
        if front_matter {
            if line_start == 0 || is_dashes(cs, t, line_end, '-') || is_dashes(cs, t, line_end, '.') {
                clear_range(&mut keep, line_start, line_end);
                if line_start > 0 {
                    front_matter = false;
                }
            } else {
                let mut colon = line_start;
                while colon < line_end && cs[colon] != ':'
                    invariant
                        line_start <= colon <= line_end,
                        line_end <= n,
                        n == cs@.len(),
                        first_of(cs@, line_start as int, line_end as int, ':') == first_of(
                            cs@,
                            colon as int,
                            line_end as int,
                            ':',
                        ),
                    decreases line_end - colon,
                {
                    colon += 1;
                }
                if colon < line_end {
                    clear_range(&mut keep, line_start, colon + 1);
                }
            }
            line_start = next;
            continue;
        }
        let fence = fence_marker(cs, t, line_end);
        match fenced {
            Some((marker, width)) => {
                clear_range(&mut keep, line_start, line_end);
                match fence {
                    Some((candidate, count)) => {
                        if candidate == marker && count >= width {
                            fenced = None;
                        }
                    },
                    None => {},
                }
                line_start = next;
                continue;
            },
            None => {},
        }
        match fence {
            Some(m) => {
                clear_range(&mut keep, t, line_end);
                fenced = Some(m);
                line_start = next;
                continue;
            },
            None => {},
        }
        mask_inline_code(cs, line_start, line_end, &mut keep);
        mask_link_targets(cs, line_start, line_end, &mut keep);
        line_start = next;
    }
    render_mask(cs, &keep)
}

/// Whether `cs[at..]` starts with `p`.
fn starts_with_at(cs: &Vec<char>, at: usize, p: &Vec<char>) -> (r: bool)
    requires
        at <= cs@.len(),
    ensures
        r == (at + p@.len() <= cs@.len() && cs@.subrange(at as int, at + p@.len()) == p@),
{
    let n = cs.len();
    if p.len() > n - at {
        return false;
    }
    let mut k: usize = 0;
    while k < p.len()
        invariant
            n == cs@.len(),
            at + p@.len() <= n,
            0 <= k <= p@.len(),
            forall|j: int| 0 <= j < k ==> cs@[at + j] == p@[j],
        decreases p@.len() - k,
    {
        if cs[at + k] != p[k] {
            assert(cs@.subrange(at as int, at + p@.len())[k as int] != p@[k as int]);
            return false;
        }
        k += 1;
    }
    assert(cs@.subrange(at as int, at + p@.len()) =~= p@);
    true
}

/// Whether `cs[at..]` starts with `p`.
pub open spec fn occurs_at(cs: Seq<char>, at: int, p: Seq<char>) -> bool {
    at + p.len() <= cs.len() && cs.subrange(at, at + p.len()) == p
}

/// The first index from `i` on where `p` occurs, if any.
pub open spec fn first_match_from(cs: Seq<char>, i: int, p: Seq<char>) -> Option<int>
    decreases cs.len() - i,
{
    if 0 <= i < cs.len() {
        if occurs_at(cs, i, p) {
            Some(i)
        } else {
            first_match_from(cs, i + 1, p)
        }
    } else {
        None
    }
}

/// Index of the first `p` at or after `start`, if any.
pub(crate) fn find_seq(cs: &Vec<char>, start: usize, p: &Vec<char>) -> (r: Option<usize>)
    requires
        start <= cs@.len(),
    ensures
        match r {
            Some(i) => {
                &&& start <= i < cs@.len()
                &&& occurs_at(cs@, i as int, p@)
                &&& forall|j: int| start <= j < i ==> !occurs_at(cs@, j, p@)
                &&& first_match_from(cs@, start as int, p@) == Some(i as int)
            },
            None => {
                &&& forall|j: int| start <= j < cs@.len() ==> !occurs_at(cs@, j, p@)
                &&& first_match_from(cs@, start as int, p@) is None
            },
        },
{
    let mut i = start;
    while i < cs.len()
        invariant
            start <= i <= cs@.len(),
            forall|j: int| start <= j < i ==> !occurs_at(cs@, j, p@),
            first_match_from(cs@, start as int, p@) == first_match_from(cs@, i as int, p@),
        decreases cs@.len() - i,
    {
        if starts_with_at(cs, i, p) {
            return Some(i);
        }
        i += 1;
    }
    None
}

fn pattern_of(s: &str) -> (r: Vec<char>)
    ensures
        r@ == s@,
{
    chars_of(s)
}

/// The string delimiter opening at `at`: a triple quote, else a single
/// quote, apostrophe or backtick.
pub open spec fn delimiter_at(cs: Seq<char>, at: int) -> Option<Seq<char>> {
    if occurs_at(cs, at, seq!['"', '"', '"']) {
        Some(seq!['"', '"', '"'])
    } else if occurs_at(cs, at, seq!['\'', '\'', '\'']) {
        Some(seq!['\'', '\'', '\''])
    } else if cs[at] == '"' || cs[at] == '\'' || cs[at] == '`' {
        Some(seq![cs[at]])
    } else {
        None
    }
}

/// The string delimiter opening at `cursor`, if any.
fn string_delimiter(cs: &Vec<char>, cursor: usize) -> (r: Option<Vec<char>>)
    requires
        cursor < cs@.len(),
    ensures
        match r {
            Some(d) => 1 <= d@.len() <= 3 && delimiter_at(cs@, cursor as int) == Some(d@),
            None => delimiter_at(cs@, cursor as int) is None,
        },
{
    proof {
        reveal_strlit("\"\"\"");
        reveal_strlit("'''");
    }
    let triple_dq = pattern_of("\"\"\"");
    assert(triple_dq@ =~= seq!['"', '"', '"']);
    if starts_with_at(cs, cursor, &triple_dq) {
        return Some(triple_dq);
    }
    let triple_sq = pattern_of("'''");
    assert(triple_sq@ =~= seq!['\'', '\'', '\'']);
    if starts_with_at(cs, cursor, &triple_sq) {
        return Some(triple_sq);
    }
    let c = cs[cursor];
    if c == '"' || c == '\'' || c == '`' {
        let mut d: Vec<char> = Vec::new();
        d.push(c);
        assert(d@ =~= seq![c]);
        Some(d)
    } else {
        None
    }
}

/// Where a string whose body starts at `cursor` ends: past its closing
/// delimiter `d`, or at the end of the text. A backslash escapes the next
/// character in strings with a one-character delimiter.
pub open spec fn string_close(cs: Seq<char>, cursor: int, d: Seq<char>) -> int
    decreases cs.len() - cursor,
{
    if cursor < cs.len() {
        if d.len() == 1 && cs[cursor] == '\\' {
            string_close(cs, if cs.len() - cursor > 2 { cursor + 2 } else { cs.len() as int }, d)
        } else if occurs_at(cs, cursor, d) {
            cursor + d.len()
        } else {
            string_close(cs, cursor + 1, d)
        }
    } else {
        cs.len() as int
    }
}

/// Where the string opened at `start` with `d` ends.
pub open spec fn string_end(cs: Seq<char>, start: int, d: Seq<char>) -> int {
    if d.len() > cs.len() - start {
        cs.len() as int
    } else {
        string_close(cs, start + d.len(), d)
    }
}

/// A string ends between where its body starts and the end of the text.
pub proof fn lemma_string_close(cs: Seq<char>, cursor: int, d: Seq<char>)
    requires
        cursor <= cs.len(),
    ensures
        cursor <= string_close(cs, cursor, d) <= cs.len(),
    decreases cs.len() - cursor,
{
    if cursor < cs.len() {
        if d.len() == 1 && cs[cursor] == '\\' {
            lemma_string_close(cs, if cs.len() - cursor > 2 { cursor + 2 } else { cs.len() as int }, d);
        } else if !occurs_at(cs, cursor, d) {
            lemma_string_close(cs, cursor + 1, d);
        }
    }
}

/// Where the string opened at `start` with `delimiter` ends: after its
/// closing delimiter, or at the end of the text.
fn find_string_end(cs: &Vec<char>, start: usize, delimiter: &Vec<char>) -> (r: usize)
    requires
        start <= cs@.len(),
        1 <= delimiter@.len() <= 3,
    ensures
        start < r <= cs@.len() || (r == cs@.len() && start == cs@.len()),
        r == string_end(cs@, start as int, delimiter@),
{
    let n = cs.len();
    if delimiter.len() > n - start {
        return n;
    }
    let mut cursor = start + delimiter.len();
    proof {
        lemma_string_close(cs@, cursor as int, delimiter@);
    }
    while cursor < n
        invariant
            n == cs@.len(),
            start < cursor <= n,
            1 <= delimiter@.len() <= 3,
            string_close(cs@, cursor as int, delimiter@) == string_close(
                cs@,
                start + delimiter@.len(),
                delimiter@,
            ),
        decreases n - cursor,
    {
        if delimiter.len() == 1 && cs[cursor] == '\\' {
            cursor = if n - cursor > 2 {
                cursor + 2
            } else {
                n
            };
            continue;
        }
        if starts_with_at(cs, cursor, delimiter) {
            return cursor + delimiter.len();
        }
        cursor += 1;
    }
    n
}

/// Just past the `*/` that closes a block comment searched from `from`, or
/// the end of the text.
pub open spec fn block_close(cs: Seq<char>, from: int) -> int {
    match first_match_from(cs, from, seq!['*', '/']) {
        Some(e) => if e <= cs.len() && cs.len() - e >= 2 {
            e + 2
        } else {
            cs.len() as int
        },
        None => cs.len() as int,
    }
}

/// The keep flags of source masking from `cursor` on, `block` telling
/// whether a block comment is open: comments (`/* … */`, `// …`, and `# …`
/// where `hash` holds) and string literals are kept.
pub open spec fn source_kept(cs: Seq<char>, hash: bool, cursor: int, block: bool, keep: Seq<bool>) -> Seq<
    bool,
>
    decreases cs.len() - cursor,
{
    let n = cs.len() as int;
    if 0 <= cursor < n {
        if block || occurs_at(cs, cursor, seq!['/', '*']) {
            let from = if block {
                cursor
            } else if n - cursor >= 2 {
                cursor + 2
            } else {
                n
            };
            let e = block_close(cs, from);
            let end = if e <= cursor {
                cursor + 1
            } else {
                e
            };
            source_kept(
                cs,
                hash,
                if end <= n {
                    end
                } else {
                    n
                },
                end == n,
                filled(keep, cursor, end, true),
            )
        } else if occurs_at(cs, cursor, seq!['/', '/']) || (hash && cs[cursor] == '#') {
            let end = first_of(cs, cursor, n, '\n');
            proof {
                lemma_first_of(cs, cursor, n, '\n');
            }
            source_kept(
                cs,
                hash,
                if end > cursor {
                    end
                } else {
                    cursor + 1
                },
                block,
                filled(keep, cursor, end, true),
            )
        } else {
            match delimiter_at(cs, cursor) {
                Some(d) => {
                    let end = string_end(cs, cursor, d);
                    proof {
                        if d.len() <= n - cursor {
                            lemma_string_close(cs, cursor + d.len(), d);
                        }
                    }
                    source_kept(cs, hash, end, block, filled(keep, cursor, end, true))
                },
                None => source_kept(cs, hash, cursor + 1, block, keep),
            }
        }
    } else {
        keep
    }
}

/// The text with only comments, string literals and line breaks left.
pub open spec fn source_masked(cs: Seq<char>, hash: bool) -> Seq<char> {
    rendered(
        cs,
        source_kept(cs, hash, 0, false, Seq::new(cs.len(), |i: int| cs[i] == '\n' || cs[i] == '\r')),
    )
}

/// Mask source code: keep only comments and string literals (and line
/// breaks).
fn mask_source(cs: &Vec<char>, hash_comments: bool) -> (r: String)
    ensures
        masks(cs@, r@),
        r@ == source_masked(cs@, hash_comments),
{
    let n = cs.len();
    let mut keep: Vec<bool> = Vec::new();
    let mut i: usize = 0;
    while i < n
        invariant
            n == cs@.len(),
            keep@.len() == i,
            i <= n,
            forall|k: int| 0 <= k < i ==> #[trigger] keep@[k] == (cs@[k] == '\n' || cs@[k] == '\r'),
        decreases n - i,
    {
        keep.push(cs[i] == '\n' || cs[i] == '\r');
        i += 1;
    }
    let ghost keep0 = keep@;
    assert(keep0 =~= Seq::new(cs@.len(), |i: int| cs@[i] == '\n' || cs@[i] == '\r'));
    proof {
        reveal_strlit("/*");
        reveal_strlit("*/");
        reveal_strlit("//");
    }
    let open_block = pattern_of("/*");
    let close_block = pattern_of("*/");
    let line_comment = pattern_of("//");
    assert(open_block@ =~= seq!['/', '*']);
    assert(close_block@ =~= seq!['*', '/']);
    assert(line_comment@ =~= seq!['/', '/']);
    let mut cursor: usize = 0;
    let mut block_comment = false;
    while cursor < n
        invariant
            n == cs@.len(),
            keep@.len() == n,
            cursor <= n,
            open_block@ == seq!['/', '*'],
            close_block@ == seq!['*', '/'],
            line_comment@ == seq!['/', '/'],
            source_kept(cs@, hash_comments, cursor as int, block_comment, keep@) == source_kept(
                cs@,
                hash_comments,
                0,
                false,
                keep0,
            ),
        decreases n - cursor,
    {
        if block_comment || starts_with_at(cs, cursor, &open_block) {
            let from = if block_comment {
                cursor
            } else if n - cursor >= 2 {
                cursor + 2
            } else {
                n
            };
            let end = match find_seq(cs, from, &close_block) {
                Some(e) => if e <= n && n - e >= 2 {
                    e + 2
                } else {
                    n
                },
                None => n,
            };
            let end = if end <= cursor {
                cursor + 1
            } else {
                end
            };
            set_range(&mut keep, cursor, end);
            block_comment = end == n;
            cursor = if end <= n {
                end
            } else {
                n
            };
            continue;
        }
        if starts_with_at(cs, cursor, &line_comment) || (hash_comments && cs[cursor] == '#') {
            let mut end = cursor;
            while end < n && cs[end] != '\n'
                invariant
                    cursor <= end <= n,
                    n == cs@.len(),
                    first_of(cs@, cursor as int, n as int, '\n') == first_of(cs@, end as int, n as int, '\n'),
                decreases n - end,
            {
                end += 1;
            }
            set_range(&mut keep, cursor, end);
            cursor = if end > cursor {
                end
            } else {
                cursor + 1
            };
            continue;
        }
        match string_delimiter(cs, cursor) {
            Some(delimiter) => {
                let end = find_string_end(cs, cursor, &delimiter);
                set_range(&mut keep, cursor, end);
                cursor = end;
                continue;
            },
            None => {},
        }
        cursor += 1;
    }
    render_mask(cs, &keep)
}

/// Whether a lowercase extension is one of `names`.
fn one_of(ext: &str, names: &[&str]) -> (r: bool)
    ensures
        r == exists|i: int| 0 <= i < names@.len() && (#[trigger] names@[i])@ == ext@,
{
    let mut i: usize = 0;
    while i < names.len()
        invariant
            0 <= i <= names@.len(),
            forall|k: int| 0 <= k < i ==> (#[trigger] names@[k])@ != ext@,
        decreases names@.len() - i,
    {
        if str_eq(names[i], ext) {
            return true;
        }
        i += 1;
    }
    false
}

/// The extensions of Markdown files.
pub open spec fn markup_extensions() -> Seq<Seq<char>> {
    seq!["md"@, "markdown"@, "mdx"@]
}

/// The extensions of the source files whose comments and strings are
/// checked.
pub open spec fn source_extensions() -> Seq<Seq<char>> {
    seq![
        "c"@, "cc"@, "cpp"@, "cs"@, "css"@, "go"@, "h"@, "hpp"@, "java"@, "js"@, "jsx"@, "kt"@,
        "kts"@, "lua"@, "php"@, "py"@, "rb"@, "rs"@, "scala"@, "sh"@, "swift"@, "ts"@, "tsx"@,
        "vue"@,
    ]
}

/// The extensions of the languages whose comments start with `#`.
pub open spec fn hash_comment_extensions() -> Seq<Seq<char>> {
    seq!["py"@, "rb"@, "sh"@, "php"@, "yaml"@, "yml"@, "toml"@]
}

fn is_markup(ext: &str) -> (r: bool)
    ensures
        r == markup_extensions().contains(ext@),
{
    let names = ["md", "markdown", "mdx"];
    assert(names@.map_values(|s: &str| s@) =~= markup_extensions());
    one_of(ext, &names)
}

fn is_source(ext: &str) -> (r: bool)
    ensures
        r == source_extensions().contains(ext@),
{
    let names = [
        "c", "cc", "cpp", "cs", "css", "go", "h", "hpp", "java", "js", "jsx", "kt", "kts", "lua",
        "php", "py", "rb", "rs", "scala", "sh", "swift", "ts", "tsx", "vue",
    ];
    assert(names@.map_values(|s: &str| s@) =~= source_extensions());
    one_of(ext, &names)
}

fn has_hash_comments(ext: &str) -> (r: bool)
    ensures
        r == hash_comment_extensions().contains(ext@),
{
    let names = ["py", "rb", "sh", "php", "yaml", "yml", "toml"];
    assert(names@.map_values(|s: &str| s@) =~= hash_comment_extensions());
    one_of(ext, &names)
}

/// The text as its syntax profile masks it, `extension` being the file's
/// extension: under `auto`, Markdown files (`md`, `markdown`, `mdx`, in
/// any ASCII case) are masked as prose and the source extensions as
/// source; `prose` masks Markdown files only; `source` masks every file as
/// source; `all`, and `auto` for other files, leave the text as it is.
pub open spec fn masked_text(text: Seq<char>, extension: Option<Seq<char>>, profile: SyntaxProfile) -> Seq<
    char,
> {
    let markup = extension matches Some(e) && markup_extensions().contains(lower_seq(e));
    let selected = match profile {
        SyntaxProfile::Auto => if markup {
            SyntaxProfile::Prose
        } else if extension matches Some(e) && source_extensions().contains(lower_seq(e)) {
            SyntaxProfile::Source
        } else {
            SyntaxProfile::All
        },
        other => other,
    };
    match selected {
        SyntaxProfile::Prose => if markup {
            markdown_masked(text)
        } else {
            text
        },
        SyntaxProfile::Source => source_masked(
            text,
            extension matches Some(e) && hash_comment_extensions().contains(lower_seq(e)),
        ),
        _ => text,
    }
}

/// Mask the parts of a text its syntax profile skips. `extension` is the
/// file's extension, if it has one. `all`, and `auto` for other file types,
/// leave the text as it is; prose masking applies to Markdown files only.
pub fn mask(text: &str, extension: Option<&str>, profile: SyntaxProfile) -> (r: String)
    ensures
        r@ == masked_text(
            text@,
            match extension {
                Some(e) => Some(e@),
                None => None,
            },
            profile,
        ),
        masks(text@, r@),
        byte_len(r@) == byte_len(text@),
        profile == SyntaxProfile::All ==> r@ == text@,
        extension is None ==> r@ == text@ || profile == SyntaxProfile::Source,
{
    let ext: Option<String> = match extension {
        Some(e) => Some(ascii_lowercase(e)),
        None => None,
    };
    let selected = match profile {
        SyntaxProfile::Auto => match &ext {
            Some(e) => if is_markup(e.as_str()) {
                SyntaxProfile::Prose
            } else if is_source(e.as_str()) {
                SyntaxProfile::Source
            } else {
                SyntaxProfile::All
            },
            None => SyntaxProfile::All,
        },
        other => other,
    };
    let markup = match &ext {
        Some(e) => is_markup(e.as_str()),
        None => false,
    };
    let r = match selected {
        SyntaxProfile::Prose => if markup {
            let cs = chars_of(text);
            mask_markdown(&cs)
        } else {
            to_owned(text)
        },
        SyntaxProfile::Source => {
            let hash = match &ext {
                Some(e) => has_hash_comments(e.as_str()),
                None => false,
            };
            let cs = chars_of(text);
            mask_source(&cs, hash)
        },
        _ => to_owned(text),
    };
    proof {
        law_mask_keeps_length(text@, r@);
    }
    r
}

} // verus!
