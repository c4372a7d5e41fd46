//! Identifier-aware word extraction.
//!
//! URLs, e-mail addresses, hex literals, hash/base64-like tokens, and escape
//! sequences are excluded before any dictionary is consulted, and
//! identifiers are split on `camelCase` / `snake_case` boundaries.
use vstd::prelude::*;
use crate::text::{
    all_ascii, byte_len, byte_offset, byte_offsets, chars_of, lemma_ascii_byte_len, lemma_ascii_offsets,
    lemma_offset_mono, push_char, push_str, str_byte_len,
    string_from_range, substr, to_owned,
};

verus! {

// ---------------------------------------------------------------------------
// ASCII character classes
// ---------------------------------------------------------------------------

pub open spec fn is_lower(c: char) -> bool {
    'a' <= c <= 'z'
}

pub open spec fn is_upper(c: char) -> bool {
    'A' <= c <= 'Z'
}

pub open spec fn is_alpha(c: char) -> bool {
    is_lower(c) || is_upper(c)
}

pub open spec fn is_digit(c: char) -> bool {
    '0' <= c <= '9'
}

pub open spec fn is_alnum(c: char) -> bool {
    is_alpha(c) || is_digit(c)
}

pub open spec fn is_hex_digit(c: char) -> bool {
    is_digit(c) || ('a' <= c <= 'f') || ('A' <= c <= 'F')
}

/// ASCII whitespace as Rust's `u8::is_ascii_whitespace` defines it.
pub open spec fn is_ascii_ws(c: char) -> bool {
    c == ' ' || c == '\t' || c == '\n' || c == '\x0C' || c == '\r'
}

pub fn lower(c: char) -> (b: bool)
    ensures
        b == is_lower(c),
{
    'a' <= c && c <= 'z'
}

pub fn upper(c: char) -> (b: bool)
    ensures
        b == is_upper(c),
{
    'A' <= c && c <= 'Z'
}

pub fn alpha(c: char) -> (b: bool)
    ensures
        b == is_alpha(c),
{
    lower(c) || upper(c)
}

pub fn digit(c: char) -> (b: bool)
    ensures
        b == is_digit(c),
{
    '0' <= c && c <= '9'
}

pub fn alnum(c: char) -> (b: bool)
    ensures
        b == is_alnum(c),
{
    alpha(c) || digit(c)
}

pub fn hex_digit(c: char) -> (b: bool)
    ensures
        b == is_hex_digit(c),
{
    digit(c) || ('a' <= c && c <= 'f') || ('A' <= c && c <= 'F')
}

pub fn ascii_ws(c: char) -> (b: bool)
    ensures
        b == is_ascii_ws(c),
{
    c == ' ' || c == '\t' || c == '\n' || c == '\x0C' || c == '\r'
}

/// ASCII uppercase of one character (`char::to_ascii_uppercase`).
pub open spec fn spec_upper(c: char) -> char {
    if is_lower(c) {
        ((c as u32) - 32) as char
    } else {
        c
    }
}

/// ASCII lowercase of one character (`char::to_ascii_lowercase`).
pub open spec fn spec_lower(c: char) -> char {
    if is_upper(c) {
        ((c as u32) + 32) as char
    } else {
        c
    }
}

pub fn to_upper(c: char) -> (r: char)
    ensures
        r == spec_upper(c),
{
    if lower(c) {
        let u = (c as u8) - 32;
        u as char
    } else {
        c
    }
}

pub fn to_lower(c: char) -> (r: char)
    ensures
        r == spec_lower(c),
{
    if upper(c) {
        let u = (c as u8) + 32;
        u as char
    } else {
        c
    }
}

/// Every character mapped through [`spec_upper`].
pub open spec fn upper_seq(s: Seq<char>) -> Seq<char> {
    s.map_values(|c: char| spec_upper(c))
}

/// Every character mapped through [`spec_lower`].
pub open spec fn lower_seq(s: Seq<char>) -> Seq<char> {
    s.map_values(|c: char| spec_lower(c))
}

/// `str::to_ascii_uppercase`.
pub fn ascii_uppercase(s: &str) -> (r: String)
    ensures
        r@ == upper_seq(s@),
{
    let chars = chars_of(s);
    let mut r = String::new();
    let mut i: usize = 0;
    while i < chars.len()
        invariant
            i <= chars@.len(),
            chars@ == s@,
            r@ == upper_seq(s@.take(i as int)),
        decreases chars@.len() - i,
    {
        push_char(&mut r, to_upper(chars[i]));
        assert(upper_seq(s@.take(i + 1)) =~= upper_seq(s@.take(i as int)).push(spec_upper(s@[i as int])));
        i += 1;
    }
    assert(s@.take(i as int) =~= s@);
    r
}

/// `str::to_ascii_lowercase`.
pub fn ascii_lowercase(s: &str) -> (r: String)
    ensures
        r@ == lower_seq(s@),
{
    let chars = chars_of(s);
    let mut r = String::new();
    let mut i: usize = 0;
    while i < chars.len()
        invariant
            i <= chars@.len(),
            chars@ == s@,
            r@ == lower_seq(s@.take(i as int)),
        decreases chars@.len() - i,
    {
        push_char(&mut r, to_lower(chars[i]));
        assert(lower_seq(s@.take(i + 1)) =~= lower_seq(s@.take(i as int)).push(spec_lower(s@[i as int])));
        i += 1;
    }
    assert(s@.take(i as int) =~= s@);
    r
}

// ---------------------------------------------------------------------------
// Options and results
// ---------------------------------------------------------------------------

pub struct TokenizerOptions {
    /// Words shorter than this are never flagged.
    pub min_word_len: usize,
    /// Tokens longer than this that contain digits are treated as
    /// hashes/identifiers and skipped whole.
    pub max_token_len: usize,
}

impl TokenizerOptions {
    /// The defaults: words of three letters or more, tokens of up to 40.
    pub fn default() -> (o: Self)
        ensures
            o.min_word_len == 3,
            o.max_token_len == 40,
    {
        TokenizerOptions { min_word_len: 3, max_token_len: 40 }
    }
}

/// A candidate word found in a line.
pub struct Word<'t> {
    pub text: &'t str,
    /// Byte offset of the word within the line.
    pub start: usize,
}

// ---------------------------------------------------------------------------
// Case splitting
// ---------------------------------------------------------------------------

/// A case boundary before index `i`: `aB`, or `ABc` (between `A` and `B`).
pub open spec fn case_boundary(s: Seq<char>, i: int) -> bool {
    (is_lower(s[i - 1]) && is_upper(s[i])) || (is_upper(s[i - 1]) && is_upper(s[i]) && i + 1
        < s.len() && is_lower(s[i + 1]))
}

/// The case boundaries at or after index `i`, in order.
pub open spec fn case_cuts(s: Seq<char>, i: int) -> Seq<int>
    decreases s.len() - i,
{
    if i >= s.len() {
        seq![]
    } else if case_boundary(s, i) {
        seq![i] + case_cuts(s, i + 1)
    } else {
        case_cuts(s, i + 1)
    }
}

/// Character indices where the parts of a split identifier start.
pub open spec fn case_starts(s: Seq<char>) -> Seq<int> {
    seq![0int] + case_cuts(s, 1)
}

/// Where part `k` of a split identifier ends.
pub open spec fn case_part_end(s: Seq<char>, k: int) -> int {
    if k + 1 < case_starts(s).len() {
        case_starts(s)[k + 1]
    } else {
        s.len() as int
    }
}

proof fn lemma_case_cuts_bounds(s: Seq<char>, i: int)
    requires
        1 <= i,
    ensures
        forall|k: int|
            0 <= k < case_cuts(s, i).len() ==> i <= #[trigger] case_cuts(s, i)[k] < s.len(),
        forall|k: int, l: int|
            0 <= k < l < case_cuts(s, i).len() ==> #[trigger] case_cuts(s, i)[k]
                < #[trigger] case_cuts(s, i)[l],
    decreases s.len() - i,
{
    if i < s.len() {
        lemma_case_cuts_bounds(s, i + 1);
        let rest = case_cuts(s, i + 1);
        if case_boundary(s, i) {
            let c = case_cuts(s, i);
            assert(c == seq![i] + rest);
            assert forall|k: int| 0 <= k < c.len() implies i <= #[trigger] c[k] < s.len() by {
                if k > 0 {
                    assert(c[k] == rest[k - 1]);
                }
            }
            assert forall|k: int, l: int| 0 <= k < l < c.len() implies #[trigger] c[k]
                < #[trigger] c[l] by {
                assert(c[l] == rest[l - 1]);
                if k > 0 {
                    assert(c[k] == rest[k - 1]);
                }
            }
        }
    }
}

/// The parts of an identifier split on case boundaries are ordered and
/// cover the whole run.
pub proof fn lemma_case_starts_ordered(s: Seq<char>)
    ensures
        case_starts(s)[0] == 0,
        forall|k: int|
            0 <= k < case_starts(s).len() ==> 0 <= #[trigger] case_starts(s)[k] < case_part_end(
                s,
                k,
            ) <= s.len() || (s.len() == 0 && case_starts(s)[k] == 0),
{
    lemma_case_cuts_bounds(s, 1);
    assert forall|k: int| 0 <= k < case_starts(s).len() implies 0 <= #[trigger] case_starts(s)[k]
        < case_part_end(s, k) <= s.len() || (s.len() == 0 && case_starts(s)[k] == 0) by {
        if k > 0 {
            assert(case_starts(s)[k] == case_cuts(s, 1)[k - 1]);
        }
        if k + 1 < case_starts(s).len() {
            assert(case_starts(s)[k + 1] == case_cuts(s, 1)[k]);
            if k > 0 {
                assert(case_cuts(s, 1)[k - 1] < case_cuts(s, 1)[k]);
            }
        }
    }
}

fn is_case_boundary(s: &[char], i: usize) -> (b: bool)
    requires
        1 <= i < s@.len(),
    ensures
        b == case_boundary(s@, i as int),
{
    let prev = s[i - 1];
    let cur = s[i];
    (lower(prev) && upper(cur)) || (upper(prev) && upper(cur) && i + 1 < s.len() && lower(
        s[i + 1],
    ))
}

/// Split an identifier run on case boundaries:
/// `getUserName` → `get`, `User`, `Name`; `HTTPServer` → `HTTP`, `Server`.
/// Returns `(byte offset within the run, subword)` pairs.
pub fn split_case(run: &str) -> (parts: Vec<(usize, &str)>)
    ensures
        parts@.len() == case_starts(run@).len(),
        forall|k: int|
            0 <= k < parts@.len() ==> {
                &&& (#[trigger] parts@[k]).0 == byte_offset(run@, case_starts(run@)[k])
                &&& parts@[k].1@ == run@.subrange(case_starts(run@)[k], case_part_end(run@, k))
            },
{
    let s = chars_of(run);
    let total = str_byte_len(run);
    let offs = byte_offsets(s.as_slice());
    let mut parts: Vec<(usize, &str)> = Vec::new();
    let mut start: usize = 0;
    let ghost mut done: Seq<int> = seq![];
    let mut i: usize = 1;
    proof {
        lemma_case_cuts_bounds(run@, 1);
    }
    while i < s.len()
        invariant
            s@ == run@,
            1 <= i,
            start < i || (start == 0 && i == 1),
            start <= s@.len(),
            i <= s@.len() || s@.len() == 0,
            offs@.len() == s@.len() + 1,
            forall|k: int| 0 <= k <= s@.len() ==> #[trigger] offs@[k] == byte_offset(s@, k),
            done.len() == parts@.len(),
            done + seq![start as int] + case_cuts(run@, i as int) == case_starts(run@),
            forall|k: int| 0 <= k < done.len() ==> #[trigger] done[k] < start,
            forall|k: int|
                0 <= k < parts@.len() ==> {
                    &&& (#[trigger] parts@[k]).0 == byte_offset(run@, done[k])
                    &&& parts@[k].1@ == run@.subrange(
                        done[k],
                        if k + 1 < done.len() {
                            done[k + 1]
                        } else {
                            start as int
                        },
                    )
                },
            forall|k: int| 0 <= k < done.len() ==> 0 <= #[trigger] done[k],
            forall|k: int, l: int| 0 <= k < l < done.len() ==> #[trigger] done[k] < #[trigger] done[l],
        decreases s@.len() - i,
    {
        let boundary = is_case_boundary(s.as_slice(), i);
        if boundary {
            let piece = substr(run, offs[start], offs[i], Ghost(start as int), Ghost(i as int));
            parts.push((offs[start], piece));
            proof {
                assert(case_cuts(run@, i as int) == seq![i as int] + case_cuts(run@, i + 1));
                let nd = done.push(start as int);
                assert(nd + seq![i as int] + case_cuts(run@, i + 1) =~= done + seq![start as int]
                    + case_cuts(run@, i as int));
                done = nd;
            }
            start = i;
        } else {
            proof {
                assert(case_cuts(run@, i as int) == case_cuts(run@, i + 1));
            }
        }
        i += 1;
    }
    proof {
        if s@.len() > 0 {
            assert(case_cuts(run@, i as int) == Seq::<int>::empty());
        } else {
            assert(case_cuts(run@, 1) == Seq::<int>::empty());
        }
        assert(done + seq![start as int] + case_cuts(run@, i as int) =~= done.push(start as int));
        lemma_offset_mono(run@, 0, run@.len() as int);
    }
    let piece = substr(run, offs[start], offs[s.len()], Ghost(start as int), Ghost(s@.len() as int));
    parts.push((offs[start], piece));
    proof {
        let fin = done.push(start as int);
        assert(fin == case_starts(run@));
        assert forall|k: int| 0 <= k < parts@.len() implies {
            &&& (#[trigger] parts@[k]).0 == byte_offset(run@, case_starts(run@)[k])
            &&& parts@[k].1@ == run@.subrange(case_starts(run@)[k], case_part_end(run@, k))
        } by {
            assert(case_starts(run@)[k] == fin[k]);
        }
    }
    parts
}

// ---------------------------------------------------------------------------
// Case matching
// ---------------------------------------------------------------------------

/// The letters of a pattern, in order.
pub open spec fn letters(s: Seq<char>) -> Seq<char> {
    s.filter(|c: char| is_alpha(c))
}

pub open spec fn all_lower(s: Seq<char>) -> bool {
    forall|i: int| 0 <= i < s.len() ==> is_lower(#[trigger] s[i])
}

pub open spec fn all_upper(s: Seq<char>) -> bool {
    forall|i: int| 0 <= i < s.len() ==> is_upper(#[trigger] s[i])
}

/// The suggestion with its first character in ASCII uppercase.
pub open spec fn capitalized(s: Seq<char>) -> Seq<char> {
    if s.len() == 0 {
        s
    } else {
        seq![spec_upper(s[0])] + s.drop_first()
    }
}

/// The case pattern of `pattern` re-applied to `suggestion`.
pub open spec fn spec_match_case(pattern: Seq<char>, suggestion: Seq<char>) -> Seq<char> {
    let l = letters(pattern);
    if all_lower(l) {
        suggestion
    } else if l.len() > 1 && all_upper(l) {
        upper_seq(suggestion)
    } else if l.len() > 0 && is_upper(l[0]) && all_lower(l.drop_first()) {
        capitalized(suggestion)
    } else {
        suggestion
    }
}

/// Re-apply the case pattern of `pattern` to `suggestion`
/// (suggestions in correction tables are lowercase).
pub fn match_case(pattern: &str, suggestion: &str) -> (r: String)
    ensures
        r@ == spec_match_case(pattern@, suggestion@),
{
    let p = chars_of(pattern);
    let mut ls: Vec<char> = Vec::new();
    let mut i: usize = 0;
    while i < p.len()
        invariant
            i <= p@.len(),
            p@ == pattern@,
            ls@ == letters(p@.take(i as int)),
        decreases p@.len() - i,
    {
        proof {
            reveal_with_fuel(Seq::filter, 1);
            assert(p@.take(i + 1).drop_last() =~= p@.take(i as int));
        }
        if alpha(p[i]) {
            ls.push(p[i]);
        }
        i += 1;
    }
    assert(p@.take(i as int) =~= p@);
    let mut all_l = true;
    let mut all_u = true;
    let mut rest_l = true;
    let mut k: usize = 0;
    while k < ls.len()
        invariant
            k <= ls@.len(),
            all_l == all_lower(ls@.take(k as int)),
            all_u == all_upper(ls@.take(k as int)),
            rest_l == (forall|j: int| 1 <= j < k ==> is_lower(#[trigger] ls@[j])),
        decreases ls@.len() - k,
    {
        let c = ls[k];
        if !lower(c) {
            all_l = false;
            if k >= 1 {
                rest_l = false;
            }
        }
        if !upper(c) {
            all_u = false;
        }
        proof {
            assert(forall|j: int| 0 <= j < k ==> ls@.take(k + 1)[j] == ls@.take(k as int)[j]);
            assert(ls@.take(k + 1)[k as int] == c);
        }
        k += 1;
    }
    assert(ls@.take(k as int) =~= ls@);
    if all_l {
        return to_owned(suggestion);
    }
    if ls.len() > 1 && all_u {
        return ascii_uppercase(suggestion);
    }
    if ls.len() > 0 && upper(ls[0]) && rest_l {
        assert(all_lower(ls@.drop_first())) by {
            assert forall|j: int| 0 <= j < ls@.drop_first().len() implies is_lower(
                #[trigger] ls@.drop_first()[j],
            ) by {
                assert(ls@.drop_first()[j] == ls@[j + 1]);
            }
        }
        let sg = chars_of(suggestion);
        if sg.len() == 0 {
            return String::new();
        }
        let mut r = String::new();
        push_char(&mut r, to_upper(sg[0]));
        let rest = string_from_range(sg.as_slice(), 1, sg.len());
        push_str(&mut r, rest.as_str());
        assert(r@ =~= capitalized(suggestion@));
        return r;
    }
    proof {
        if ls@.len() > 0 && is_upper(ls@[0]) && all_lower(ls@.drop_first()) {
            assert forall|j: int| 1 <= j < ls@.len() implies is_lower(#[trigger] ls@[j]) by {
                assert(ls@[j] == ls@.drop_first()[j - 1]);
            }
        }
    }
    to_owned(suggestion)
}

} // verus!

verus! {

// ---------------------------------------------------------------------------
// Token boundaries and skipped spans
// ---------------------------------------------------------------------------

/// Letters and apostrophes (contractions: "doesn't") form a word run.
pub open spec fn is_word_char(c: char) -> bool {
    is_alpha(c) || c == '\''
}

/// Characters that end a whitespace/bracket-delimited token; every
/// non-ASCII character ends a token too.
pub open spec fn is_delim(c: char) -> bool {
    is_ascii_ws(c) || c == '"' || c == '`' || c == '(' || c == ')' || c == '[' || c == ']' || c
        == '{' || c == '}' || c == '<' || c == '>' || c == ',' || c == ';' || (c as u32) >= 128
}

/// Start of the token that holds position `i` (scanning left).
pub open spec fn tok_lo(s: Seq<char>, i: int) -> int
    decreases i,
{
    if 0 < i <= s.len() && !is_delim(s[i - 1]) {
        tok_lo(s, i - 1)
    } else {
        i
    }
}

/// End of the token that holds position `j` (scanning right).
pub open spec fn tok_hi(s: Seq<char>, j: int) -> int
    decreases s.len() - j,
{
    if 0 <= j < s.len() && !is_delim(s[j]) {
        tok_hi(s, j + 1)
    } else {
        j
    }
}

pub proof fn lemma_tok_lo_bounds(s: Seq<char>, i: int)
    requires
        0 <= i <= s.len(),
    ensures
        0 <= tok_lo(s, i) <= i,
    decreases i,
{
    if 0 < i && !is_delim(s[i - 1]) {
        lemma_tok_lo_bounds(s, i - 1);
    }
}

pub proof fn lemma_tok_hi_bounds(s: Seq<char>, j: int)
    requires
        0 <= j <= s.len(),
    ensures
        j <= tok_hi(s, j) <= s.len(),
    decreases s.len() - j,
{
    if j < s.len() && !is_delim(s[j]) {
        lemma_tok_hi_bounds(s, j + 1);
    }
}

/// `://` starts at `p` (a URL scheme separator).
pub open spec fn url_at(s: Seq<char>, p: int) -> bool {
    0 <= p && p + 3 <= s.len() && s[p] == ':' && s[p + 1] == '/' && s[p + 2] == '/'
}

/// An `@` at `p` with an alphanumeric local part and a dotted domain.
pub open spec fn email_at(s: Seq<char>, p: int) -> bool {
    &&& 0 <= p < s.len()
    &&& s[p] == '@'
    &&& exists|k: int| tok_lo(s, p) <= k < p && is_alnum(#[trigger] s[k])
    &&& p + 1 < tok_hi(s, p + 1)
    &&& exists|k: int| p + 1 <= k < tok_hi(s, p + 1) && #[trigger] s[k] == '.'
}

/// Positions that make their whole token a skipped span.
pub open spec fn is_skip_pos(s: Seq<char>, p: int) -> bool {
    url_at(s, p) || email_at(s, p)
}

/// The token skipped because of a URL or e-mail marker at `p`.
pub open spec fn skip_span(s: Seq<char>, p: int) -> (int, int) {
    if url_at(s, p) {
        (tok_lo(s, p), tok_hi(s, p + 3))
    } else {
        (tok_lo(s, p), tok_hi(s, p + 1))
    }
}

/// The character range `[x, y)` touches a URL or an e-mail address.
pub open spec fn span_hits(s: Seq<char>, x: int, y: int) -> bool {
    exists|p: int| #[trigger] is_skip_pos(s, p) && x < skip_span(s, p).1 && y > skip_span(s, p).0
}

fn is_token_delim(c: char) -> (b: bool)
    ensures
        b == is_delim(c),
{
    ascii_ws(c) || c == '"' || c == '`' || c == '(' || c == ')' || c == '[' || c == ']' || c
        == '{' || c == '}' || c == '<' || c == '>' || c == ',' || c == ';' || (c as u32) >= 128
}

/// Expand `[start, end)` to the surrounding whitespace/bracket-delimited
/// token.
fn token_bounds(s: &[char], start: usize, end: usize) -> (r: (usize, usize))
    requires
        start <= end <= s@.len(),
    ensures
        r.0 == tok_lo(s@, start as int),
        r.1 == tok_hi(s@, end as int),
        r.0 <= start,
        end <= r.1 <= s@.len(),
{
    let mut t0 = start;
    while t0 > 0 && !is_token_delim(s[t0 - 1])
        invariant
            t0 <= start <= s@.len(),
            tok_lo(s@, t0 as int) == tok_lo(s@, start as int),
        decreases t0,
    {
        t0 -= 1;
    }
    let mut t1 = end;
    while t1 < s.len() && !is_token_delim(s[t1])
        invariant
            end <= t1 <= s@.len(),
            tok_hi(s@, t1 as int) == tok_hi(s@, end as int),
        decreases s@.len() - t1,
    {
        t1 += 1;
    }
    (t0, t1)
}

/// `span` is the token skipped because of the marker that it records.
pub open spec fn marks_span(s: Seq<char>, span: (usize, usize, usize)) -> bool {
    is_skip_pos(s, span.2 as int) && span.0 == skip_span(s, span.2 as int).0 && span.1
        == skip_span(s, span.2 as int).1
}

/// Character spans of the line that must not be spell checked (URLs,
/// e-mails), each with the position of its marker.
fn skip_spans(s: &[char]) -> (spans: Vec<(usize, usize, usize)>)
    ensures
        forall|k: int| 0 <= k < spans@.len() ==> #[trigger] marks_span(s@, spans@[k]),
        forall|p: int|
            #[trigger] is_skip_pos(s@, p) ==> exists|k: int|
                0 <= k < spans@.len() && spans@[k].2 == p,
{
    let n = s.len();
    let mut spans: Vec<(usize, usize, usize)> = Vec::new();
    let mut p: usize = 0;
    while p < n
        invariant
            n == s@.len(),
            p <= n,
            forall|k: int| 0 <= k < spans@.len() ==> #[trigger] marks_span(s@, spans@[k]),
            forall|q: int|
                0 <= q < p && #[trigger] is_skip_pos(s@, q) ==> exists|k: int|
                    0 <= k < spans@.len() && spans@[k].2 == q,
        decreases n - p,
    {
        let ghost old_spans = spans@;
        let mut found: Option<(usize, usize, usize)> = None;
        if n >= 3 && p <= n - 3 && s[p] == ':' && s[p + 1] == '/' && s[p + 2] == '/' {
            let (t0, t1) = token_bounds(s, p, p + 3);
            assert(url_at(s@, p as int));
            found = Some((t0, t1, p));
        } else if s[p] == '@' {
            let (t0, t1) = token_bounds(s, p, p + 1);
            let mut local_ok = false;
            let mut k = t0;
            while k < p
                invariant
                    t0 <= k <= p < s@.len(),
                    t0 == tok_lo(s@, p as int),
                    local_ok == exists|m: int| t0 <= m < k && is_alnum(#[trigger] s@[m]),
                decreases p - k,
            {
                if alnum(s[k]) {
                    local_ok = true;
                }
                k += 1;
            }
            let mut domain_ok = false;
            if p + 1 < t1 {
                let mut m = p + 1;
                while m < t1
                    invariant
                        p + 1 <= m <= t1 <= s@.len(),
                        t1 == tok_hi(s@, p + 1),
                        domain_ok == exists|q: int| p + 1 <= q < m && #[trigger] s@[q] == '.',
                    decreases t1 - m,
                {
                    if s[m] == '.' {
                        domain_ok = true;
                    }
                    m += 1;
                }
            }
            if local_ok && domain_ok {
                assert(email_at(s@, p as int));
                found = Some((t0, t1, p));
            } else {
                assert(!email_at(s@, p as int));
            }
        }
        proof {
            assert(found is Some ==> marks_span(s@, found.unwrap()) && found.unwrap().2 == p);
            assert(found is None ==> !is_skip_pos(s@, p as int));
        }
        match found {
            Some(span) => {
                spans.push(span);
            },
            None => {},
        }
        proof {
            assert forall|k: int| 0 <= k < spans@.len() implies #[trigger] marks_span(
                s@,
                spans@[k],
            ) by {
                if k < old_spans.len() {
                    assert(spans@[k] == old_spans[k]);
                } else {
                    assert(spans@[k] == found.unwrap());
                }
            }
            assert forall|q: int|
                0 <= q < p + 1 && #[trigger] is_skip_pos(s@, q) implies exists|k: int|
                0 <= k < spans@.len() && spans@[k].2 == q by {
                if q < p {
                    let k = choose|k: int| 0 <= k < old_spans.len() && old_spans[k].2 == q;
                    assert(spans@[k] == old_spans[k]);
                } else {
                    assert(spans@[spans@.len() - 1] == found.unwrap());
                }
            }
        }
        p += 1;
    }
    spans
}

/// Whether `[start, end)` touches any of the skipped spans.
fn overlaps(s: &[char], spans: &Vec<(usize, usize, usize)>, start: usize, end: usize) -> (b: bool)
    requires
        forall|k: int| 0 <= k < spans@.len() ==> #[trigger] marks_span(s@, spans@[k]),
        forall|p: int|
            #[trigger] is_skip_pos(s@, p) ==> exists|k: int|
                0 <= k < spans@.len() && spans@[k].2 == p,
    ensures
        b == span_hits(s@, start as int, end as int),
{
    let mut k: usize = 0;
    while k < spans.len()
        invariant
            k <= spans@.len(),
            forall|j: int| 0 <= j < spans@.len() ==> #[trigger] marks_span(s@, spans@[j]),
            forall|j: int| 0 <= j < k ==> !(start < (#[trigger] spans@[j]).1 && end > spans@[j].0),
        decreases spans@.len() - k,
    {
        let (a, b, _) = spans[k];
        if start < b && end > a {
            proof {
                assert(marks_span(s@, spans@[k as int]));
                let p = spans@[k as int].2 as int;
                assert(is_skip_pos(s@, p) && start < skip_span(s@, p).1 && end > skip_span(s@, p).0);
            }
            return true;
        }
        k += 1;
    }
    proof {
        if span_hits(s@, start as int, end as int) {
            let p = choose|p: int|
                #[trigger] is_skip_pos(s@, p) && start < skip_span(s@, p).1 && end > skip_span(
                    s@,
                    p,
                ).0;
            let j = choose|j: int| 0 <= j < spans@.len() && spans@[j].2 == p;
            assert(marks_span(s@, spans@[j]));
            assert(start < spans@[j].1 && end > spans@[j].0);
        }
    }
    false
}

} // verus!

verus! {

// ---------------------------------------------------------------------------
// Data-like tokens
// ---------------------------------------------------------------------------

pub open spec fn count_digits(s: Seq<char>) -> nat
    decreases s.len(),
{
    if s.len() == 0 {
        0
    } else {
        count_digits(s.drop_last()) + if is_digit(s.last()) {
            1nat
        } else {
            0nat
        }
    }
}

pub open spec fn count_alnum(s: Seq<char>) -> nat
    decreases s.len(),
{
    if s.len() == 0 {
        0
    } else {
        count_alnum(s.drop_last()) + if is_alnum(s.last()) {
            1nat
        } else {
            0nat
        }
    }
}

/// A lowercase→uppercase or letter↔digit change between neighbours.
pub open spec fn is_flip(a: char, b: char) -> bool {
    (is_lower(a) && is_upper(b)) || (is_alpha(a) && is_digit(b)) || (is_digit(a) && is_alpha(b))
}

/// Number of neighbouring pairs that flip case or letter/digit class.
pub open spec fn transitions(s: Seq<char>) -> nat
    decreases s.len(),
{
    if s.len() < 2 {
        0
    } else {
        transitions(s.drop_last()) + if is_flip(s[s.len() - 2], s[s.len() - 1]) {
            1nat
        } else {
            0nat
        }
    }
}

/// `0x…` followed only by hex digits, `_`, `u` or `i`.
pub open spec fn hex_literal(t: Seq<char>) -> bool {
    &&& t.len() >= 3
    &&& t[0] == '0'
    &&& (t[1] == 'x' || t[1] == 'X')
    &&& forall|k: int|
        2 <= k < t.len() ==> is_hex_digit(#[trigger] t[k]) || t[k] == '_' || t[k] == 'u' || t[k]
            == 'i'
}

/// Every letter or digit is a hex digit.
pub open spec fn hexish(t: Seq<char>) -> bool {
    forall|k: int| 0 <= k < t.len() && is_alnum(#[trigger] t[k]) ==> is_hex_digit(t[k])
}

/// Tokens that are data, not prose: long digit-bearing tokens, hex
/// literals, hashes and UUIDs, base64-like blobs.
pub open spec fn is_junk(t: Seq<char>, max_token_len: int) -> bool {
    ||| (t.len() > max_token_len && count_digits(t) > 0)
    ||| hex_literal(t)
    ||| (count_alnum(t) >= 12 && count_digits(t) > 0 && hexish(t))
    ||| (count_alnum(t) >= 16 && count_digits(t) >= 3 && transitions(t) >= 4)
}

/// Heuristics for the token `s[t0..t1]`.
fn is_junk_token(s: &[char], t0: usize, t1: usize, max_token_len: usize) -> (b: bool)
    requires
        t0 <= t1 <= s@.len(),
    ensures
        b == is_junk(s@.subrange(t0 as int, t1 as int), max_token_len as int),
{
    let ghost t = s@.subrange(t0 as int, t1 as int);
    let mut digits: usize = 0;
    let mut alnums: usize = 0;
    let mut flips: usize = 0;
    let mut all_hex = true;
    let mut k = t0;
    while k < t1
        invariant
            t0 <= k <= t1 <= s@.len(),
            t == s@.subrange(t0 as int, t1 as int),
            digits == count_digits(s@.subrange(t0 as int, k as int)),
            alnums == count_alnum(s@.subrange(t0 as int, k as int)),
            flips == transitions(s@.subrange(t0 as int, k as int)),
            digits <= k - t0,
            alnums <= k - t0,
            flips <= k - t0,
            all_hex == hexish(s@.subrange(t0 as int, k as int)),
        decreases t1 - k,
    {
        let c = s[k];
        let ghost prev = s@.subrange(t0 as int, k as int);
        let ghost next = s@.subrange(t0 as int, k + 1);
        assert(next.drop_last() =~= prev);
        if digit(c) {
            digits += 1;
        }
        if alnum(c) {
            alnums += 1;
            if !hex_digit(c) {
                all_hex = false;
            }
        }
        if k > t0 && is_flip_pair(s[k - 1], c) {
            flips += 1;
        }
        proof {
            assert(next[next.len() - 1] == c);
            if k > t0 {
                assert(next[next.len() - 2] == s@[k - 1]);
            }
            assert(hexish(next) == (hexish(prev) && (is_alnum(c) ==> is_hex_digit(c)))) by {
                if hexish(prev) && (is_alnum(c) ==> is_hex_digit(c)) {
                    assert forall|j: int| 0 <= j < next.len() && is_alnum(#[trigger] next[j]) implies is_hex_digit(next[j]) by {
                        if j < prev.len() {
                            assert(next[j] == prev[j]);
                        }
                    }
                }
                if hexish(next) {
                    assert forall|j: int| 0 <= j < prev.len() && is_alnum(#[trigger] prev[j]) implies is_hex_digit(prev[j]) by {
                        assert(next[j] == prev[j]);
                    }
                    assert(is_alnum(next[next.len() - 1]) ==> is_hex_digit(next[next.len() - 1]));
                }
            }
        }
        k += 1;
    }
    assert(s@.subrange(t0 as int, k as int) =~= t);
    let len = t1 - t0;
    if len > max_token_len && digits > 0 {
        return true;
    }
    let mut hex_lit = false;
    if len >= 3 && s[t0] == '0' && (s[t0 + 1] == 'x' || s[t0 + 1] == 'X') {
        let mut ok = true;
        let mut m = t0 + 2;
        while m < t1
            invariant
                t0 + 2 <= m <= t1 <= s@.len(),
                t == s@.subrange(t0 as int, t1 as int),
                ok == forall|j: int|
                    2 <= j < m - t0 ==> is_hex_digit(#[trigger] t[j]) || t[j] == '_' || t[j]
                        == 'u' || t[j] == 'i',
            decreases t1 - m,
        {
            let c = s[m];
            assert(t[m - t0] == c);
            if !(hex_digit(c) || c == '_' || c == 'u' || c == 'i') {
                ok = false;
            }
            m += 1;
        }
        hex_lit = ok;
    }
    if hex_lit {
        return true;
    }
    if alnums >= 12 && digits > 0 && all_hex {
        return true;
    }
    alnums >= 16 && digits >= 3 && flips >= 4
}

fn is_flip_pair(a: char, b: char) -> (r: bool)
    ensures
        r == is_flip(a, b),
{
    (lower(a) && upper(b)) || (alpha(a) && digit(b)) || (digit(a) && alpha(b))
}

} // verus!

verus! {

// ---------------------------------------------------------------------------
// Word extraction
// ---------------------------------------------------------------------------

/// End of the run of letters and apostrophes that starts at `i`.
pub open spec fn run_end(s: Seq<char>, i: int) -> int
    decreases s.len() - i,
{
    if 0 <= i < s.len() && is_word_char(s[i]) {
        run_end(s, i + 1)
    } else {
        i
    }
}

/// `e` moved left past trailing apostrophes, never below `a`.
pub open spec fn trim_quotes(s: Seq<char>, a: int, e: int) -> int
    decreases e - a,
{
    if e > a && s[e - 1] == '\'' {
        trim_quotes(s, a, e - 1)
    } else {
        e
    }
}

/// `APIs`, `IDs`: an all-caps run with a plural `s`.
pub open spec fn plural_acronym(r: Seq<char>) -> bool {
    &&& r.len() >= 3
    &&& r[r.len() - 1] == 's'
    &&& forall|k: int| 0 <= k < r.len() - 1 ==> is_upper(#[trigger] r[k])
}

/// `developer's`: a run ending in `'s` after at least one letter.
pub open spec fn possessive(r: Seq<char>) -> bool {
    &&& r.len() > 2
    &&& r[r.len() - 2] == '\''
    &&& (r[r.len() - 1] == 's' || r[r.len() - 1] == 'S')
    &&& exists|k: int| 0 <= k < r.len() - 2 && is_alpha(#[trigger] r[k])
}

/// The case parts of `r` from part `k` on, at least `min` long, as
/// character ranges shifted by `base`.
pub open spec fn case_words_from(r: Seq<char>, base: int, min: int, k: int) -> Seq<(int, int)>
    decreases case_starts(r).len() - k,
{
    if k < 0 || k >= case_starts(r).len() {
        seq![]
    } else {
        let a = case_starts(r)[k];
        let b = case_part_end(r, k);
        (if b - a >= min {
            seq![(base + a, base + b)]
        } else {
            seq![]
        }) + case_words_from(r, base, min, k + 1)
    }
}

pub proof fn lemma_run_end(s: Seq<char>, i: int)
    requires
        0 <= i <= s.len(),
    ensures
        i <= run_end(s, i) <= s.len(),
        i < s.len() && is_word_char(s[i]) ==> i < run_end(s, i),
    decreases s.len() - i,
{
    if i < s.len() && is_word_char(s[i]) {
        lemma_run_end(s, i + 1);
    }
}

pub proof fn lemma_trim_quotes(s: Seq<char>, a: int, e: int)
    requires
        0 <= a < e <= s.len(),
        s[a] != '\'',
    ensures
        a < trim_quotes(s, a, e) <= e,
    decreases e - a,
{
    if e > a && s[e - 1] == '\'' {
        lemma_trim_quotes(s, a, e - 1);
    }
}

/// The words of `s` from character `i` on, as character ranges.
pub open spec fn scan_words(s: Seq<char>, min: int, max: int, i: int) -> Seq<(int, int)>
    decreases s.len() - i,
{
    if i < 0 || i >= s.len() {
        seq![]
    } else if !is_alpha(s[i]) {
        scan_words(s, min, max, i + 1)
    } else {
        let j = run_end(s, i);
        let e = trim_quotes(s, i, j);
        proof {
            lemma_run_end(s, i);
            lemma_trim_quotes(s, i, j);
            lemma_tok_hi_bounds(s, e);
        }
        if span_hits(s, i, e) || (i > 0 && s[i - 1] == '\\') {
            scan_words(s, min, max, j)
        } else if is_junk(s.subrange(tok_lo(s, i), tok_hi(s, e)), max) {
            scan_words(s, min, max, tok_hi(s, e))
        } else if plural_acronym(s.subrange(i, e)) {
            scan_words(s, min, max, j)
        } else {
            let le = if possessive(s.subrange(i, e)) {
                e - 2
            } else {
                e
            };
            case_words_from(s.subrange(i, le), i, min, 0) + scan_words(s, min, max, j)
        }
    }
}

/// The words of a line as character ranges.
pub open spec fn line_words(s: Seq<char>, opts: TokenizerOptions) -> Seq<(int, int)> {
    scan_words(s, opts.min_word_len as int, opts.max_token_len as int, 0)
}


proof fn lemma_case_words_bounds(r: Seq<char>, base: int, min: int, k: int)
    requires
        0 <= k,
    ensures
        forall|t: int|
            0 <= t < case_words_from(r, base, min, k).len() ==> base <= (#[trigger] case_words_from(
                r,
                base,
                min,
                k,
            )[t]).0 <= case_words_from(r, base, min, k)[t].1 <= base + r.len(),
    decreases case_starts(r).len() - k,
{
    lemma_case_starts_ordered(r);
    if k < case_starts(r).len() {
        lemma_case_words_bounds(r, base, min, k + 1);
        let a = case_starts(r)[k];
        let b = case_part_end(r, k);
        let first: Seq<(int, int)> = if b - a >= min {
            seq![(base + a, base + b)]
        } else {
            seq![]
        };
        let rest = case_words_from(r, base, min, k + 1);
        assert(case_words_from(r, base, min, k) == first + rest);
        assert forall|t: int| 0 <= t < (first + rest).len() implies base <= (#[trigger] (first + rest)[t]).0
            <= (first + rest)[t].1 <= base + r.len() by {
            if t >= first.len() {
                assert((first + rest)[t] == rest[t - first.len()]);
            }
        }
    }
}

proof fn lemma_scan_words_bounds(s: Seq<char>, min: int, max: int, i: int)
    requires
        0 <= i,
    ensures
        forall|t: int|
            0 <= t < scan_words(s, min, max, i).len() ==> 0 <= (#[trigger] scan_words(s, min, max, i)[t]).0
                <= scan_words(s, min, max, i)[t].1 <= s.len(),
    decreases s.len() - i,
{
    if i < s.len() {
        if !is_alpha(s[i]) {
            lemma_scan_words_bounds(s, min, max, i + 1);
            assert(scan_words(s, min, max, i) == scan_words(s, min, max, i + 1));
        } else {
            let j = run_end(s, i);
            let e = trim_quotes(s, i, j);
            lemma_tok_lo_bounds(s, i);
            lemma_run_end(s, i);
            lemma_trim_quotes(s, i, j);
            lemma_tok_hi_bounds(s, e);
            lemma_scan_words_bounds(s, min, max, j);
            if span_hits(s, i, e) || (i > 0 && s[i - 1] == '\\') {
                assert(scan_words(s, min, max, i) == scan_words(s, min, max, j));
            } else if is_junk(s.subrange(tok_lo(s, i), tok_hi(s, e)), max) {
                lemma_scan_words_bounds(s, min, max, tok_hi(s, e));
                assert(scan_words(s, min, max, i) == scan_words(s, min, max, tok_hi(s, e)));
            } else if plural_acronym(s.subrange(i, e)) {
                assert(scan_words(s, min, max, i) == scan_words(s, min, max, j));
            } else {
                let le = if possessive(s.subrange(i, e)) {
                    e - 2
                } else {
                    e
                };
                let r = s.subrange(i, le);
                lemma_case_words_bounds(r, i, min, 0);
                let first = case_words_from(r, i, min, 0);
                let rest = scan_words(s, min, max, j);
                assert(scan_words(s, min, max, i) == first + rest);
                assert forall|t: int| 0 <= t < (first + rest).len() implies 0 <= (#[trigger] (first + rest)[t]).0
                    <= (first + rest)[t].1 <= s.len() by {
                    if t >= first.len() {
                        assert((first + rest)[t] == rest[t - first.len()]);
                    }
                }
            }
        }
    }
}

/// The words of a line lie within it.
pub proof fn lemma_line_words_bounds(s: Seq<char>, opts: TokenizerOptions)
    ensures
        forall|t: int|
            0 <= t < line_words(s, opts).len() ==> 0 <= (#[trigger] line_words(s, opts)[t]).0
                <= line_words(s, opts)[t].1 <= s.len(),
{
    lemma_scan_words_bounds(s, opts.min_word_len as int, opts.max_token_len as int, 0);
}

fn is_plural_acronym(s: &[char], start: usize, end: usize) -> (b: bool)
    requires
        start <= end <= s@.len(),
    ensures
        b == plural_acronym(s@.subrange(start as int, end as int)),
{
    let ghost r = s@.subrange(start as int, end as int);
    if end - start < 3 || s[end - 1] != 's' {
        return false;
    }
    let mut k = start;
    while k < end - 1
        invariant
            start <= k <= end - 1,
            end <= s@.len(),
            r == s@.subrange(start as int, end as int),
            forall|j: int| 0 <= j < k - start ==> is_upper(#[trigger] r[j]),
        decreases end - k,
    {
        if !upper(s[k]) {
            assert(r[k - start] == s@[k as int]);
            return false;
        }
        k += 1;
    }
    true
}

fn is_possessive(s: &[char], start: usize, end: usize) -> (b: bool)
    requires
        start <= end <= s@.len(),
    ensures
        b == possessive(s@.subrange(start as int, end as int)),
{
    let ghost r = s@.subrange(start as int, end as int);
    if end - start <= 2 || s[end - 2] != '\'' || !(s[end - 1] == 's' || s[end - 1] == 'S') {
        return false;
    }
    let mut k = start;
    while k < end - 2
        invariant
            start <= k <= end - 2,
            end <= s@.len(),
            end - start > 2,
            s@[end - 2] == '\'',
            s@[end - 1] == 's' || s@[end - 1] == 'S',
            r == s@.subrange(start as int, end as int),
            forall|j: int| 0 <= j < k - start ==> !is_alpha(#[trigger] r[j]),
        decreases end - k,
    {
        if alpha(s[k]) {
            assert(r[k - start] == s@[k as int]);
            assert(is_alpha(r[k - start]));
            return true;
        }
        k += 1;
    }
    false
}

/// Extract checkable English words from one line.
#[verifier::spinoff_prover]
#[verifier::rlimit(40)]
pub fn words_in_line<'t>(line: &'t str, opts: &TokenizerOptions) -> (out: Vec<Word<'t>>)
    ensures
        out@.len() == line_words(line@, *opts).len(),
        forall|k: int|
            0 <= k < out@.len() ==> {
                &&& (#[trigger] out@[k]).text@ == line@.subrange(
                    line_words(line@, *opts)[k].0,
                    line_words(line@, *opts)[k].1,
                )
                &&& out@[k].start == byte_offset(line@, line_words(line@, *opts)[k].0)
            },
{
    let ghost min = opts.min_word_len as int;
    let ghost max = opts.max_token_len as int;
    let s = chars_of(line);
    let n = s.len();
    let total = str_byte_len(line);
    let offs = byte_offsets(s.as_slice());
    let skips = skip_spans(s.as_slice());
    let mut out: Vec<Word<'t>> = Vec::new();
    let ghost mut ranges: Seq<(int, int)> = seq![];
    let mut i: usize = 0;
    while i < n
        invariant
            s@ == line@,
            n == s@.len(),
            min == opts.min_word_len as int,
            max == opts.max_token_len as int,
            i <= n,
            offs@.len() == s@.len() + 1,
            forall|k: int| 0 <= k <= s@.len() ==> #[trigger] offs@[k] == byte_offset(s@, k),
            forall|k: int| 0 <= k < skips@.len() ==> #[trigger] marks_span(s@, skips@[k]),
            forall|p: int|
                #[trigger] is_skip_pos(s@, p) ==> exists|k: int|
                    0 <= k < skips@.len() && skips@[k].2 == p,
            ranges + scan_words(s@, min, max, i as int) == scan_words(s@, min, max, 0),
            total == byte_len(s@),
            out@.len() == ranges.len(),
            forall|k: int|
                0 <= k < out@.len() ==> {
                    &&& (#[trigger] out@[k]).text@ == line@.subrange(ranges[k].0, ranges[k].1)
                    &&& out@[k].start == byte_offset(line@, ranges[k].0)
                },
        decreases n - i,
    {
        if !alpha(s[i]) {
            i += 1;
            continue;
        }
        let start = i;
        proof {
            lemma_run_end(s@, start as int);
        }
        while i < n && (alpha(s[i]) || s[i] == '\'')
            invariant
                start <= i <= n,
                n == s@.len(),
                run_end(s@, i as int) == run_end(s@, start as int),
            decreases n - i,
        {
            i += 1;
        }
        let mut end = i;
        proof {
            lemma_run_end(s@, start as int);
            assert(i > start);
        }
        while end > start && s[end - 1] == '\''
            invariant
                start <= end <= i <= n,
                n == s@.len(),
                trim_quotes(s@, start as int, end as int) == trim_quotes(s@, start as int, i as int),
            decreases end,
        {
            end -= 1;
        }
        proof {
            lemma_trim_quotes(s@, start as int, i as int);
            lemma_tok_hi_bounds(s@, end as int);
        }
        let ghost before = scan_words(s@, min, max, start as int);
        if overlaps(s.as_slice(), &skips, start, end) {
            assert(before == scan_words(s@, min, max, i as int));
            continue;
        }
        if start > 0 && s[start - 1] == '\\' {
            assert(before == scan_words(s@, min, max, i as int));
            continue;
        }
        let (t0, t1) = token_bounds(s.as_slice(), start, end);
        if is_junk_token(s.as_slice(), t0, t1, opts.max_token_len) {
            assert(before == scan_words(s@, min, max, t1 as int));
            i = t1;
            continue;
        }
        if is_plural_acronym(s.as_slice(), start, end) {
            assert(before == scan_words(s@, min, max, i as int));
            continue;
        }
        let mut lexical_end = end;
        if is_possessive(s.as_slice(), start, end) {
            lexical_end = end - 2;
        }
        let ghost r = s@.subrange(start as int, lexical_end as int);
        assert(before == case_words_from(r, start as int, min, 0) + scan_words(s@, min, max, i as int));
        proof {
            assert(all_ascii(r)) by {
                assert forall|j: int| 0 <= j < r.len() implies (#[trigger] r[j] as u32) < 0x80 by {
                    lemma_run_word_chars(s@, start as int, j + start);
                }
            }
        }
        let run = substr(line, offs[start], offs[lexical_end], Ghost(start as int), Ghost(lexical_end as int));
        let parts = split_case(run);
        proof {
            lemma_case_starts_ordered(r);
        }
        let ghost ranges0 = ranges;
        assert(byte_len(s@) == total);
        let mut k: usize = 0;
        while k < parts.len()
            invariant
                s@ == line@,
                run@ == r,
                all_ascii(r),
                byte_len(s@) <= usize::MAX,
                start <= lexical_end <= n,
                n == s@.len(),
                r == s@.subrange(start as int, lexical_end as int),
                min == opts.min_word_len as int,
                offs@.len() == s@.len() + 1,
                forall|j: int| 0 <= j <= s@.len() ==> #[trigger] offs@[j] == byte_offset(s@, j),
                k <= parts@.len(),
                parts@.len() == case_starts(r).len(),
                forall|j: int|
                    0 <= j < parts@.len() ==> {
                        &&& (#[trigger] parts@[j]).0 == byte_offset(r, case_starts(r)[j])
                        &&& parts@[j].1@ == r.subrange(case_starts(r)[j], case_part_end(r, j))
                    },
                forall|j: int|
                    0 <= j < case_starts(r).len() ==> 0 <= #[trigger] case_starts(r)[j] < case_part_end(r, j) <= r.len()
                        || (r.len() == 0 && case_starts(r)[j] == 0),
                ranges0 + case_words_from(r, start as int, min, 0) == ranges + case_words_from(r, start as int, min, k as int),
                out@.len() == ranges.len(),
                forall|j: int|
                    0 <= j < out@.len() ==> {
                        &&& (#[trigger] out@[j]).text@ == line@.subrange(ranges[j].0, ranges[j].1)
                        &&& out@[j].start == byte_offset(line@, ranges[j].0)
                    },
            decreases parts@.len() - k,
        {
            let (off, sub) = parts[k];
            let ghost a = case_starts(r)[k as int];
            let ghost b = case_part_end(r, k as int);
            proof {
                assert(0 <= a <= b <= r.len());
                assert(r.take(a) =~= r.subrange(0, a));
                assert(all_ascii(r.take(a))) by {
                    assert forall|j: int| 0 <= j < r.take(a).len() implies (#[trigger] r.take(a)[j] as u32) < 0x80 by {
                        assert(r.take(a)[j] == r[j]);
                    }
                }
                lemma_ascii_byte_len(r.take(a));
                assert(all_ascii(sub@)) by {
                    assert forall|j: int| 0 <= j < sub@.len() implies (#[trigger] sub@[j] as u32) < 0x80 by {
                        assert(sub@[j] == r[a + j]);
                    }
                }
                lemma_ascii_byte_len(sub@);
                assert(all_ascii(s@.subrange(start as int, start + a))) by {
                    assert forall|j: int| 0 <= j < a implies (#[trigger] s@.subrange(start as int, start + a)[j] as u32) < 0x80 by {
                        assert(s@.subrange(start as int, start + a)[j] == r[j]);
                    }
                }
                lemma_ascii_offsets(s@, start as int, start + a);
                lemma_offset_mono(s@, start + a, s@.len() as int);
                assert(s@.take(s@.len() as int) =~= s@);
                assert(case_words_from(r, start as int, min, k as int) == (if b - a >= min {
                    seq![(start + a, start + b)]
                } else {
                    seq![]
                }) + case_words_from(r, start as int, min, k + 1));
            }
            let sl = str_byte_len(sub);
            if sl >= opts.min_word_len {
                out.push(Word { text: sub, start: offs[start] + off });
                proof {
                    let nr = ranges.push((start + a, start + b));
                    assert(nr + case_words_from(r, start as int, min, k + 1) =~= ranges
                        + case_words_from(r, start as int, min, k as int));
                    assert(sub@ =~= line@.subrange(start + a, start + b));
                    ranges = nr;
                }
            } else {
                proof {
                    assert(ranges + case_words_from(r, start as int, min, k + 1) =~= ranges
                        + case_words_from(r, start as int, min, k as int));
                }
            }
            k += 1;
        }
        proof {
            assert(case_words_from(r, start as int, min, k as int) == Seq::<(int, int)>::empty());
            assert(ranges0 + before =~= ranges + scan_words(s@, min, max, i as int));
        }
    }
    out
}

/// Every character of a word run is a letter or an apostrophe.
proof fn lemma_run_word_chars(s: Seq<char>, i: int, k: int)
    requires
        0 <= i <= k < run_end(s, i),
    ensures
        is_word_char(s[k]),
        (s[k] as u32) < 0x80,
    decreases k - i,
{
    if k > i {
        lemma_run_word_chars(s, i + 1, k);
    }
}

} // verus!
