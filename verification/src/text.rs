//! Character-level text model shared by every checker.
//!
//! Texts are handled as sequences of `char`s; positions reported to users are
//! UTF-8 byte offsets, i.e. the encoded length of the preceding characters.
use vstd::prelude::*;
use vstd::std_specs::iter::IteratorSpec;
use vstd::utf8::*;
use vstd::string::StringSliceAdditionalSpecFns;

verus! {

/// Number of bytes in the UTF-8 encoding of a character sequence.
pub open spec fn byte_len(s: Seq<char>) -> nat {
    encode_utf8(s).len()
}

/// Number of bytes in the UTF-8 encoding of one character.
pub open spec fn spec_width(c: char) -> nat {
    let u = c as u32;
    if u < 0x80 {
        1
    } else if u < 0x800 {
        2
    } else if u < 0x10000 {
        3
    } else {
        4
    }
}

/// Byte offset of character index `i` in `s`.
pub open spec fn byte_offset(s: Seq<char>, i: int) -> nat {
    byte_len(s.take(i))
}

pub proof fn lemma_scalar_width(c: char)
    ensures
        encode_scalar(c as u32).len() == spec_width(c),
{
    char_is_scalar(c);
}

pub proof fn lemma_encode_add(a: Seq<char>, b: Seq<char>)
    ensures
        encode_utf8(a + b) == encode_utf8(a) + encode_utf8(b),
    decreases a.len(),
{
    if a.len() == 0 {
        assert(a + b =~= b);
        assert(encode_utf8(a) + encode_utf8(b) =~= encode_utf8(b));
    } else {
        assert((a + b).drop_first() =~= a.drop_first() + b);
        lemma_encode_add(a.drop_first(), b);
        assert((a + b)[0] == a[0]);
        assert(encode_utf8(a + b) =~= encode_scalar(a[0] as u32) + encode_utf8(a.drop_first() + b));
        assert(encode_utf8(a) + encode_utf8(b) =~= encode_scalar(a[0] as u32) + (encode_utf8(
            a.drop_first(),
        ) + encode_utf8(b)));
    }
}

pub proof fn lemma_byte_len_add(a: Seq<char>, b: Seq<char>)
    ensures
        byte_len(a + b) == byte_len(a) + byte_len(b),
{
    lemma_encode_add(a, b);
}

pub proof fn lemma_byte_len_single(c: char)
    ensures
        byte_len(seq![c]) == spec_width(c),
{
    lemma_scalar_width(c);
    assert(seq![c].drop_first() =~= Seq::<char>::empty());
    assert(encode_utf8(seq![c].drop_first()) =~= Seq::<u8>::empty());
    assert(encode_utf8(seq![c]) =~= encode_scalar(c as u32));
}

pub proof fn lemma_byte_len_push(s: Seq<char>, c: char)
    ensures
        byte_len(s.push(c)) == byte_len(s) + spec_width(c),
{
    assert(s.push(c) =~= s + seq![c]);
    lemma_byte_len_add(s, seq![c]);
    lemma_byte_len_single(c);
}

/// Extending a prefix by one character adds that character's width.
pub proof fn lemma_offset_step(s: Seq<char>, i: int)
    requires
        0 <= i < s.len(),
    ensures
        byte_offset(s, i + 1) == byte_offset(s, i) + spec_width(s[i]),
{
    assert(s.take(i + 1) =~= s.take(i).push(s[i]));
    lemma_byte_len_push(s.take(i), s[i]);
}

/// Byte offsets grow with the character index.
pub proof fn lemma_offset_mono(s: Seq<char>, i: int, j: int)
    requires
        0 <= i <= j <= s.len(),
    ensures
        byte_offset(s, i) <= byte_offset(s, j),
        byte_offset(s, j) <= byte_len(s),
        byte_offset(s, j) - byte_offset(s, i) == byte_len(s.subrange(i, j)),
{
    assert(s.take(j) =~= s.take(i) + s.subrange(i, j));
    lemma_byte_len_add(s.take(i), s.subrange(i, j));
    assert(s =~= s.take(j) + s.subrange(j, s.len() as int));
    lemma_byte_len_add(s.take(j), s.subrange(j, s.len() as int));
}

/// An ASCII character occupies one byte.
pub proof fn lemma_ascii_width(c: char)
    requires
        (c as u32) < 0x80,
    ensures
        spec_width(c) == 1,
{
}

/// All characters of `s` are ASCII.
pub open spec fn all_ascii(s: Seq<char>) -> bool {
    forall|i: int| 0 <= i < s.len() ==> (#[trigger] s[i] as u32) < 0x80
}

/// An ASCII text has one byte per character.
pub proof fn lemma_ascii_byte_len(s: Seq<char>)
    requires
        all_ascii(s),
    ensures
        byte_len(s) == s.len(),
    decreases s.len(),
{
    if s.len() > 0 {
        let init = s.drop_last();
        assert(all_ascii(init)) by {
            assert forall|i: int| 0 <= i < init.len() implies (#[trigger] init[i] as u32) < 0x80 by {
                assert(init[i] == s[i]);
            }
        }
        lemma_ascii_byte_len(init);
        assert(s =~= init.push(s.last()));
        lemma_byte_len_push(init, s.last());
        assert((s[s.len() - 1] as u32) < 0x80);
    }
}

/// Inside an ASCII stretch, byte offsets advance one per character.
pub proof fn lemma_ascii_offsets(s: Seq<char>, a: int, b: int)
    requires
        0 <= a <= b <= s.len(),
        all_ascii(s.subrange(a, b)),
    ensures
        byte_offset(s, b) == byte_offset(s, a) + (b - a),
{
    lemma_offset_mono(s, a, b);
    lemma_ascii_byte_len(s.subrange(a, b));
}

/// Every position between encoded characters is a UTF-8 character boundary.
pub proof fn lemma_prefix_boundary(s: Seq<char>, i: int)
    requires
        0 <= i <= s.len(),
    ensures
        is_char_boundary(encode_utf8(s), byte_offset(s, i) as int),
    decreases s.len(),
{
    let bytes = encode_utf8(s);
    encode_utf8_valid_utf8(s);
    if i == 0 {
        assert(s.take(0) =~= Seq::<char>::empty());
    } else {
        encode_utf8_first_scalar(s);
        let rest = s.drop_first();
        assert(pop_first_scalar(bytes) =~= encode_utf8(rest));
        lemma_prefix_boundary(rest, i - 1);
        assert(s.take(i) =~= seq![s[0]] + rest.take(i - 1));
        lemma_byte_len_add(seq![s[0]], rest.take(i - 1));
        lemma_byte_len_single(s[0]);
        lemma_scalar_width(s[0]);
        lemma_offset_mono(s, i, s.len() as int);
        assert(s.take(s.len() as int) =~= s);
    }
}

/// The characters of a string, in order.
pub fn chars_of(s: &str) -> (v: Vec<char>)
    ensures
        v@ == s@,
{
    broadcast use vstd::string::group_string_axioms;

    let mut it = s.chars();
    let mut v: Vec<char> = Vec::new();
    loop
        invariant
            v@ + it.remaining() == s@,
            it.obeys_prophetic_iter_laws(),
        decreases s@.len() - v.len(),
    {
        match it.next() {
            Some(c) => {
                v.push(c);
            },
            None => {
                assert(v@ + it.remaining() =~= v@);
                return v;
            },
        }
    }
}

/// Number of bytes of `s` in UTF-8.
pub fn str_byte_len(s: &str) -> (n: usize)
    ensures
        n == byte_len(s@),
{
    let b = s.as_bytes();
    b.len()
}

/// The UTF-8 width of a character (std's `char::len_utf8`).
pub fn char_width(c: char) -> (w: usize)
    ensures
        w == spec_width(c),
        1 <= w <= 4,
{
    let u = c as u32;
    if u < 0x80 {
        1
    } else if u < 0x800 {
        2
    } else if u < 0x10000 {
        3
    } else {
        4
    }
}

/// Appends one character to a string (std's `String::push`).
#[verifier::external_body]
pub(crate) fn push_char(s: &mut String, c: char)
    ensures
        final(s)@ == old(s)@.push(c),
{
    s.push(c);
}

/// Appends a string slice (std's `String::push_str`).
#[verifier::external_body]
pub(crate) fn push_str(s: &mut String, t: &str)
    ensures
        final(s)@ == old(s)@ + t@,
{
    s.push_str(t);
}

/// An owned copy of a string slice.
pub fn to_owned(s: &str) -> (r: String)
    ensures
        r@ == s@,
{
    let mut r = String::new();
    push_str(&mut r, s);
    assert(r@ =~= s@);
    r
}

/// The characters `chars[start..end]` collected into a string.
pub fn string_from_range(chars: &[char], start: usize, end: usize) -> (r: String)
    requires
        start <= end <= chars@.len(),
    ensures
        r@ == chars@.subrange(start as int, end as int),
{
    let mut r = String::new();
    let mut i = start;
    while i < end
        invariant
            start <= i <= end <= chars@.len(),
            r@ == chars@.subrange(start as int, i as int),
        decreases end - i,
    {
        push_char(&mut r, chars[i]);
        assert(r@ =~= chars@.subrange(start as int, i + 1));
        i += 1;
    }
    r
}

/// All characters of a slice collected into a string.
pub fn string_from_chars(chars: &[char]) -> (r: String)
    ensures
        r@ == chars@,
{
    let r = string_from_range(chars, 0, chars.len());
    assert(chars@.subrange(0, chars@.len() as int) =~= chars@);
    r
}

/// Whether two strings hold the same characters.
pub fn str_eq(a: &str, b: &str) -> (r: bool)
    ensures
        r == (a@ == b@),
{
    let x = chars_of(a);
    let y = chars_of(b);
    if x.len() != y.len() {
        return false;
    }
    let mut i: usize = 0;
    while i < x.len()
        invariant
            x@ == a@,
            y@ == b@,
            x@.len() == y@.len(),
            0 <= i <= x@.len(),
            forall|k: int| 0 <= k < i ==> x@[k] == y@[k],
        decreases x@.len() - i,
    {
        if x[i] != y[i] {
            return false;
        }
        i += 1;
    }
    assert(x@ =~= y@);
    true
}


/// Unicode `White_Space` (std's `char::is_whitespace`).
pub open spec fn is_ws(c: char) -> bool {
    let u = c as u32;
    (0x09 <= u <= 0x0d) || u == 0x20 || u == 0x85 || u == 0xa0 || u == 0x1680 || (0x2000 <= u
        <= 0x200a) || u == 0x2028 || u == 0x2029 || u == 0x202f || u == 0x205f || u == 0x3000
}

pub fn is_whitespace(c: char) -> (r: bool)
    ensures
        r == is_ws(c),
{
    let u = c as u32;
    (0x09 <= u && u <= 0x0d) || u == 0x20 || u == 0x85 || u == 0xa0 || u == 0x1680 || (0x2000
        <= u && u <= 0x200a) || u == 0x2028 || u == 0x2029 || u == 0x202f || u == 0x205f || u
        == 0x3000
}

/// `s` without leading whitespace.
pub open spec fn trim_start(s: Seq<char>) -> Seq<char>
    decreases s.len(),
{
    if s.len() > 0 && is_ws(s[0]) {
        trim_start(s.drop_first())
    } else {
        s
    }
}

/// `s` without trailing whitespace.
pub open spec fn trim_end(s: Seq<char>) -> Seq<char>
    decreases s.len(),
{
    if s.len() > 0 && is_ws(s.last()) {
        trim_end(s.drop_last())
    } else {
        s
    }
}

/// `s` without leading or trailing whitespace (std's `str::trim`).
pub open spec fn trim(s: Seq<char>) -> Seq<char> {
    trim_end(trim_start(s))
}

/// The bounds of `s[a..b]` once trimmed: `s[r.0..r.1]` is the trimmed text.
pub fn trim_bounds(s: &[char], a: usize, b: usize) -> (r: (usize, usize))
    requires
        a <= b <= s@.len(),
    ensures
        a <= r.0 <= r.1 <= b,
        s@.subrange(r.0 as int, r.1 as int) == trim(s@.subrange(a as int, b as int)),
{
    let mut i = a;
    while i < b && is_whitespace(s[i])
        invariant
            a <= i <= b <= s@.len(),
            trim_start(s@.subrange(a as int, b as int)) == trim_start(s@.subrange(i as int, b as int)),
        decreases b - i,
    {
        assert(s@.subrange(i as int, b as int).drop_first() =~= s@.subrange(i + 1, b as int));
        i += 1;
    }
    let mut j = b;
    while j > i && is_whitespace(s[j - 1])
        invariant
            a <= i <= j <= b <= s@.len(),
            trim_end(s@.subrange(i as int, b as int)) == trim_end(s@.subrange(i as int, j as int)),
        decreases j - i,
    {
        assert(s@.subrange(i as int, j as int).drop_last() =~= s@.subrange(i as int, j - 1));
        j -= 1;
    }
    proof {
        let t = s@.subrange(i as int, b as int);
        if !(i < b && is_ws(s@[i as int])) {
            assert(t.len() == 0 || !is_ws(t[0]));
        }
        let u = s@.subrange(i as int, j as int);
        assert(u.len() == 0 || !is_ws(u.last()));
    }
    (i, j)
}

/// `l` without one trailing carriage return.
pub open spec fn strip_cr(l: Seq<char>) -> Seq<char> {
    if l.len() > 0 && l.last() == '\r' {
        l.drop_last()
    } else {
        l
    }
}

/// The lines of `s[start..]`, scanning from `i` (std's `str::lines`).
pub open spec fn lines_from(s: Seq<char>, start: int, i: int) -> Seq<Seq<char>>
    decreases s.len() - i,
{
    if i >= s.len() {
        if start < s.len() {
            seq![strip_cr(s.subrange(start, s.len() as int))]
        } else {
            Seq::empty()
        }
    } else if s[i] == '\n' {
        seq![strip_cr(s.subrange(start, i))] + lines_from(s, i + 1, i + 1)
    } else {
        lines_from(s, start, i + 1)
    }
}

/// The lines of a text: split at `\n`, a `\r` before it dropped, and no
/// empty line after a final `\n`.
pub open spec fn split_lines(s: Seq<char>) -> Seq<Seq<char>> {
    lines_from(s, 0, 0)
}

/// The lines of `s`, as character sequences.
pub fn lines(s: &[char]) -> (r: Vec<Vec<char>>)
    ensures
        r@.len() == split_lines(s@).len(),
        forall|k: int| 0 <= k < r@.len() ==> #[trigger] r@[k]@ == split_lines(s@)[k],
{
    let mut out: Vec<Vec<char>> = Vec::new();
    let ghost mut done: Seq<Seq<char>> = Seq::empty();
    let mut start: usize = 0;
    let mut i: usize = 0;
    while i < s.len()
        invariant
            start <= i <= s@.len(),
            out@.len() == done.len(),
            forall|k: int| 0 <= k < out@.len() ==> #[trigger] out@[k]@ == done[k],
            done + lines_from(s@, start as int, i as int) == split_lines(s@),
        decreases s@.len() - i,
    {
        if s[i] == '\n' {
            let mut stop = i;
            if stop > start && s[stop - 1] == '\r' {
                stop -= 1;
            }
            let line = slice_range(s, start, stop);
            proof {
                let l = s@.subrange(start as int, i as int);
                if l.len() > 0 && l.last() == '\r' {
                    assert(l.drop_last() =~= s@.subrange(start as int, stop as int));
                }
                assert(line@ == strip_cr(l));
                assert(done.push(line@) + lines_from(s@, i + 1, i + 1) =~= done + lines_from(
                    s@,
                    start as int,
                    i as int,
                ));
                done = done.push(line@);
            }
            out.push(line);
            start = i + 1;
        }
        i += 1;
    }
    if start < s.len() {
        let mut stop = s.len();
        if s[stop - 1] == '\r' {
            stop -= 1;
        }
        let line = slice_range(s, start, stop);
        proof {
            let l = s@.subrange(start as int, s@.len() as int);
            if l.len() > 0 && l.last() == '\r' {
                assert(l.drop_last() =~= s@.subrange(start as int, stop as int));
            }
            assert(done.push(line@) =~= done + lines_from(s@, start as int, i as int));
            done = done.push(line@);
        }
        out.push(line);
    } else {
        assert(done =~= done + lines_from(s@, start as int, i as int));
    }
    out
}

/// The characters `s[a..b]` as a vector.
pub fn slice_range(s: &[char], a: usize, b: usize) -> (r: Vec<char>)
    requires
        a <= b <= s@.len(),
    ensures
        r@ == s@.subrange(a as int, b as int),
{
    let mut r: Vec<char> = Vec::new();
    let mut i = a;
    while i < b
        invariant
            a <= i <= b <= s@.len(),
            r@ == s@.subrange(a as int, i as int),
        decreases b - i,
    {
        r.push(s[i]);
        assert(r@ =~= s@.subrange(a as int, i + 1));
        i += 1;
    }
    r
}

/// Index of the first `c` in `s` at or after `i`, or `s.len()`.
pub open spec fn find_char_from(s: Seq<char>, c: char, i: int) -> int
    decreases s.len() - i,
{
    if i >= s.len() || s[i] == c {
        i
    } else {
        find_char_from(s, c, i + 1)
    }
}

pub proof fn lemma_find_char_from(s: Seq<char>, c: char, i: int)
    requires
        0 <= i <= s.len(),
    ensures
        i <= find_char_from(s, c, i) <= s.len(),
        forall|k: int| i <= k < find_char_from(s, c, i) ==> s[k] != c,
        find_char_from(s, c, i) < s.len() ==> s[find_char_from(s, c, i)] == c,
    decreases s.len() - i,
{
    if i < s.len() && s[i] != c {
        lemma_find_char_from(s, c, i + 1);
    }
}

/// The first `c` in `s[a..b]`, as an index of `s`, or `b`.
pub fn find_char(s: &[char], c: char, a: usize, b: usize) -> (r: usize)
    requires
        a <= b <= s@.len(),
    ensures
        r == a + find_char_from(s@.subrange(a as int, b as int), c, 0),
{
    let ghost t = s@.subrange(a as int, b as int);
    let mut i = a;
    while i < b && s[i] != c
        invariant
            a <= i <= b <= s@.len(),
            t == s@.subrange(a as int, b as int),
            find_char_from(t, c, 0) == find_char_from(t, c, i - a),
        decreases b - i,
    {
        i += 1;
    }
    i
}

/// A `key<TAB>value` line: trimmed, skipped when empty or a `#` comment, and
/// split at its first tab.
pub open spec fn tab_pair(l: Seq<char>) -> Option<(Seq<char>, Seq<char>)> {
    let t = trim(l);
    let k = find_char_from(t, '\t', 0);
    if t.len() == 0 || t[0] == '#' || k >= t.len() {
        None
    } else {
        Some((t.take(k), t.skip(k + 1)))
    }
}

/// The pairs of every `key<TAB>value` line of a text, in order.
pub open spec fn tab_pairs(ls: Seq<Seq<char>>) -> Seq<(Seq<char>, Seq<char>)>
    decreases ls.len(),
{
    if ls.len() == 0 {
        Seq::empty()
    } else {
        let rest = tab_pairs(ls.drop_last());
        match tab_pair(ls.last()) {
            Some(p) => rest.push(p),
            None => rest,
        }
    }
}

/// Parse one `key<TAB>value` line.
pub fn parse_tab_pair(l: &[char]) -> (r: Option<(Vec<char>, Vec<char>)>)
    ensures
        match r {
            Some(p) => tab_pair(l@) == Some((p.0@, p.1@)),
            None => tab_pair(l@) is None,
        },
{
    let (a, b) = trim_bounds(l, 0, l.len());
    assert(l@.subrange(0, l@.len() as int) =~= l@);
    let ghost t = l@.subrange(a as int, b as int);
    if a == b || l[a] == '#' {
        return None;
    }
    let k = find_char(l, '\t', a, b);
    proof {
        lemma_find_char_from(t, '\t', 0);
    }
    if k >= b {
        return None;
    }
    let key = slice_range(l, a, k);
    let value = slice_range(l, k + 1, b);
    assert(key@ =~= t.take(k - a));
    assert(value@ =~= t.skip(k - a + 1));
    Some((key, value))
}

/// Every `key<TAB>value` pair of a text, in order.
pub fn parse_tab_pairs(text: &[char]) -> (r: Vec<(Vec<char>, Vec<char>)>)
    ensures
        r@.len() == tab_pairs(split_lines(text@)).len(),
        forall|k: int|
            0 <= k < r@.len() ==> (#[trigger] r@[k]).0@ == tab_pairs(split_lines(text@))[k].0
                && r@[k].1@ == tab_pairs(split_lines(text@))[k].1,
{
    let ls = lines(text);
    let ghost all = split_lines(text@);
    let mut out: Vec<(Vec<char>, Vec<char>)> = Vec::new();
    let mut i: usize = 0;
    while i < ls.len()
        invariant
            0 <= i <= ls@.len(),
            ls@.len() == all.len(),
            all == split_lines(text@),
            forall|k: int| 0 <= k < ls@.len() ==> #[trigger] ls@[k]@ == all[k],
            out@.len() == tab_pairs(all.take(i as int)).len(),
            forall|k: int|
                0 <= k < out@.len() ==> (#[trigger] out@[k]).0@ == tab_pairs(all.take(i as int))[k].0
                    && out@[k].1@ == tab_pairs(all.take(i as int))[k].1,
        decreases ls@.len() - i,
    {
        let p = parse_tab_pair(&ls[i]);
        proof {
            assert(all.take(i + 1).drop_last() =~= all.take(i as int));
            assert(all.take(i + 1).last() == ls@[i as int]@);
        }
        match p {
            Some(pair) => {
                out.push(pair);
            },
            None => {},
        }
        i += 1;
    }
    assert(all.take(ls@.len() as int) =~= all);
    out
}

/// Whether a path starts with a separator (`/` or `\`) or a drive letter
/// (`X:`): every path that some platform reads as absolute does.
pub open spec fn looks_rooted(p: Seq<char>) -> bool {
    p.len() > 0 && (p[0] == '/' || p[0] == '\\' || (p.len() >= 2 && p[1] == ':'))
}

/// A single relative path component: not empty, with no separator (`/`,
/// `\`) and no drive colon.
pub open spec fn plain_name(p: Seq<char>) -> bool {
    p.len() > 0 && !p.contains('/') && !p.contains('\\') && !p.contains(':')
}

/// A relative path that every platform reads alike: not empty, with `/`
/// as its only separator, no drive colon, and no leading `/`.
pub open spec fn rel_path(p: Seq<char>) -> bool {
    p.len() > 0 && !p.contains('\\') && !p.contains(':') && p[0] != '/'
}

/// A base path that `Path::join` extends by a separator and a plain name
/// the same way on every platform: not empty, not a Windows verbatim or
/// UNC path (no leading `\`), and not ending in a separator or a colon.
pub open spec fn plain_base(p: Seq<char>) -> bool {
    p.len() > 0 && p[0] != '\\' && p.last() != '/' && p.last() != '\\' && p.last() != ':'
}

/// `base`, one separator of some platform (`/` or `\`), and `name`.
pub open spec fn joined(base: Seq<char>, name: Seq<char>, r: Seq<char>) -> bool {
    r == base + seq!['/'] + name || r == base + seq!['\\'] + name
}

/// Whether `p` is an absolute path for `std::path::Path::is_absolute`.
/// What counts as absolute depends on the platform (a root on Unix, a
/// prefix and a root on Windows); claimed is only what holds on all of
/// them: an absolute path starts with a separator or a drive letter.
#[verifier::external_body]
pub(crate) fn is_absolute_path(p: &str) -> (r: bool)
    ensures
        r ==> looks_rooted(p@),
{
    std::path::Path::new(p).is_absolute()
}

/// `s` without the prefix `p`, if it starts with it.
pub open spec fn spec_strip_prefix(s: Seq<char>, p: Seq<char>) -> Option<Seq<char>> {
    if p.len() <= s.len() && s.take(p.len() as int) == p {
        Some(s.skip(p.len() as int))
    } else {
        None
    }
}

/// `str::strip_prefix` for a string prefix.
pub fn strip_prefix<'a>(s: &'a str, p: &str) -> (r: Option<&'a str>)
    ensures
        match r {
            Some(t) => spec_strip_prefix(s@, p@) == Some(t@),
            None => spec_strip_prefix(s@, p@) is None,
        },
{
    let _n = str_byte_len(s);
    let cs = chars_of(s);
    let ps = chars_of(p);
    if ps.len() > cs.len() {
        return None;
    }
    let mut i: usize = 0;
    while i < ps.len()
        invariant
            cs@ == s@,
            ps@ == p@,
            ps@.len() <= cs@.len(),
            0 <= i <= ps@.len(),
            forall|k: int| 0 <= k < i ==> cs@[k] == ps@[k],
        decreases ps@.len() - i,
    {
        if cs[i] != ps[i] {
            assert(s@.take(p@.len() as int)[i as int] != p@[i as int]);
            return None;
        }
        i += 1;
    }
    assert(s@.take(p@.len() as int) =~= p@);
    let offs = byte_offsets(cs.as_slice());
    let t = substr(s, offs[ps.len()], offs[cs.len()], Ghost(ps@.len() as int), Ghost(cs@.len() as int));
    assert(s@.subrange(p@.len() as int, s@.len() as int) =~= s@.skip(p@.len() as int));
    Some(t)
}

/// `base` joined with `rel` by `std::path::Path::join`, as a string. The
/// separator and what counts as absolute depend on the platform; claimed is
/// what std documents for every platform when `rel` is a relative path
/// separated by `/` only: an empty base gives `rel`, and a plain base gets
/// one separator and `rel` appended (`push` appends a relative path as it
/// is). Nothing is claimed of other paths.
#[verifier::external_body]
pub(crate) fn join_path(base: &str, rel: &str) -> (r: String)
    ensures
        rel_path(rel@) && base@.len() == 0 ==> r@ == rel@,
        rel_path(rel@) && plain_base(base@) ==> joined(base@, rel@, r@),
{
    std::path::Path::new(base).join(rel).to_string_lossy().into_owned()
}

/// The bytes offsets of every character index of `chars`, plus the total
/// length at the end: `result[i]` is the byte offset of character `i`.
pub fn byte_offsets(chars: &[char]) -> (r: Vec<usize>)
    requires
        byte_len(chars@) <= usize::MAX,
    ensures
        r@.len() == chars@.len() + 1,
        forall|i: int| 0 <= i <= chars@.len() ==> #[trigger] r@[i] == byte_offset(chars@, i),
{
    let mut r: Vec<usize> = Vec::new();
    let mut off: usize = 0;
    let mut i: usize = 0;
    assert(chars@.take(0) =~= Seq::<char>::empty());
    r.push(0);
    while i < chars.len()
        invariant
            0 <= i <= chars@.len(),
            byte_len(chars@) <= usize::MAX,
            off == byte_offset(chars@, i as int),
            r@.len() == i + 1,
            forall|k: int| 0 <= k <= i ==> #[trigger] r@[k] == byte_offset(chars@, k),
        decreases chars@.len() - i,
    {
        proof {
            lemma_offset_step(chars@, i as int);
            lemma_offset_mono(chars@, i + 1, chars@.len() as int);
            assert(chars@.take(chars@.len() as int) =~= chars@);
        }
        off = off + char_width(chars[i]);
        i += 1;
        r.push(off);
    }
    r
}

/// The substring of `s` holding characters `i..j`, where `b0` and `b1` are
/// their byte offsets.
pub fn substr<'a>(s: &'a str, b0: usize, b1: usize, Ghost(i): Ghost<int>, Ghost(j): Ghost<int>) -> (r: &'a str)
    requires
        0 <= i <= j <= s@.len(),
        b0 == byte_offset(s@, i),
        b1 == byte_offset(s@, j),
    ensures
        r@ == s@.subrange(i, j),
{
    proof {
        lemma_prefix_boundary(s@, j);
        lemma_prefix_boundary(s@.take(j), i);
        assert(s@.take(j).take(i) =~= s@.take(i));
        assert(s@ =~= s@.take(j) + s@.subrange(j, s@.len() as int));
        lemma_encode_add(s@.take(j), s@.subrange(j, s@.len() as int));
        assert(s@.take(j) =~= s@.take(i) + s@.subrange(i, j));
        lemma_encode_add(s@.take(i), s@.subrange(i, j));
    }
    let (head, _) = s.split_at(b1);
    proof {
        assert(head.spec_bytes() =~= encode_utf8(s@.take(j)));
        encode_utf8_decode_utf8(head@);
        encode_utf8_decode_utf8(s@.take(j));
        assert(head@ == s@.take(j));
    }
    let (_, tail) = head.split_at(b0);
    proof {
        assert(tail.spec_bytes() =~= encode_utf8(s@.subrange(i, j)));
        encode_utf8_decode_utf8(tail@);
        encode_utf8_decode_utf8(s@.subrange(i, j));
    }
    tail
}


/// Index of the first whitespace character of `s` at or after `i`, or
/// `s.len()`.
pub open spec fn find_first_ws(s: Seq<char>, i: int) -> int
    decreases s.len() - i,
{
    if i >= s.len() || is_ws(s[i]) {
        i
    } else {
        find_first_ws(s, i + 1)
    }
}

pub proof fn lemma_find_first_ws(s: Seq<char>, i: int)
    requires
        0 <= i <= s.len(),
    ensures
        i <= find_first_ws(s, i) <= s.len(),
        forall|k: int| i <= k < find_first_ws(s, i) ==> !is_ws(s[k]),
        find_first_ws(s, i) < s.len() ==> is_ws(s[find_first_ws(s, i)]),
    decreases s.len() - i,
{
    if i < s.len() && !is_ws(s[i]) {
        lemma_find_first_ws(s, i + 1);
    }
}

/// Searching a suffix finds the same whitespace, shifted.
pub proof fn lemma_find_ws_shift(s: Seq<char>, k: int)
    requires
        0 <= k <= s.len(),
    ensures
        find_first_ws(s.skip(k), 0) + k == find_first_ws(s, k),
{
    lemma_find_ws_shift_from(s, k, 0);
}

proof fn lemma_find_ws_shift_from(s: Seq<char>, k: int, j: int)
    requires
        0 <= k <= s.len(),
        0 <= j <= s.len() - k,
    ensures
        find_first_ws(s.skip(k), j) + k == find_first_ws(s, k + j),
    decreases s.len() - k - j,
{
    if j < s.len() - k {
        assert(s.skip(k)[j] == s[k + j]);
        lemma_find_ws_shift_from(s, k, j + 1);
    }
}

/// The first whitespace character at or after `i`, or the length.
pub fn find_ws(s: &[char], i: usize) -> (r: usize)
    requires
        i <= s@.len(),
    ensures
        r == find_first_ws(s@, i as int),
{
    let mut j = i;
    while j < s.len() && !is_whitespace(s[j])
        invariant
            i <= j <= s@.len(),
            find_first_ws(s@, i as int) == find_first_ws(s@, j as int),
        decreases s@.len() - j,
    {
        j += 1;
    }
    j
}

/// Whether a file's bytes look binary: a NUL byte among its first 8192.
pub fn looks_binary(bytes: &[u8]) -> (r: bool)
    ensures
        r == exists|i: int| 0 <= i < bytes@.len() && i < 8192 && bytes@[i] == 0,
{
    let n = if bytes.len() < 8192 {
        bytes.len()
    } else {
        8192
    };
    let mut i: usize = 0;
    while i < n
        invariant
            n <= bytes@.len(),
            n == bytes@.len() || n == 8192,
            n <= 8192,
            i <= n,
            forall|k: int| 0 <= k < i ==> bytes@[k] != 0,
        decreases n - i,
    {
        if bytes[i] == 0 {
            assert(bytes@[i as int] == 0);
            return true;
        }
        i += 1;
    }
    false
}

/// Whether a file of `size` bytes is over the size limit (`0` means no
/// limit).
pub fn over_size_limit(limit: u64, size: u64) -> (r: bool)
    ensures
        r == (limit > 0 && size > limit),
{
    limit > 0 && size > limit
}

} // verus!
