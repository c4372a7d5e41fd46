//! Text bookkeeping of the editor integration: UTF-16 positions, edits
//! sent by the editor, and the inline directives that quick fixes insert.
use vstd::prelude::*;

use crate::text::{
    byte_offset, byte_offsets, chars_of, find_char, find_char_from, lemma_find_char_from, push_str,
    str_byte_len, string_from_range, to_owned,
};
use crate::tokenizer::{ascii_lowercase, lower_seq};

verus! {

/// The number of UTF-16 code units of a character.
pub open spec fn utf16_width(c: char) -> int {
    if (c as u32) < 0x10000 {
        1
    } else {
        2
    }
}

/// The character index where line `line` (counted from 0) starts, searching
/// line breaks from index `from`; `None` when the text has fewer lines.
pub open spec fn line_begin(s: Seq<char>, line: nat, from: int) -> Option<int>
    decreases line,
{
    if line == 0 {
        Some(from)
    } else {
        let e = from + find_char_from(s.subrange(from, s.len() as int), '\n', 0);
        if e < s.len() {
            line_begin(s, (line - 1) as nat, e + 1)
        } else {
            None
        }
    }
}

/// The index in `s[i..end]` reached after `target - u` UTF-16 units, or
/// `None` when that falls inside a character or past the end.
pub open spec fn column_index(s: Seq<char>, i: int, end: int, u: int, target: int) -> Option<int>
    decreases end - i,
{
    if i >= end {
        if u == target {
            Some(end)
        } else {
            None
        }
    } else if u == target {
        Some(i)
    } else if u + utf16_width(s[i]) > target {
        None
    } else {
        column_index(s, i + 1, end, u + utf16_width(s[i]), target)
    }
}

/// The character index of an editor position (line, UTF-16 column): the
/// column counts within the line, whose end is its line break or the end of
/// the text.
pub open spec fn position_index(s: Seq<char>, line: u32, character: u32) -> Option<int> {
    match line_begin(s, line as nat, 0) {
        Some(b) => {
            let end = b + find_char_from(s.subrange(b, s.len() as int), '\n', 0);
            column_index(s, b, end, 0, character as int)
        },
        None => None,
    }
}

/// The character index of an editor position in a text.
fn position_index_of(cs: &Vec<char>, line: u32, character: u32) -> (r: Option<usize>)
    ensures
        match r {
            Some(i) => position_index(cs@, line, character) == Some(i as int) && i <= cs@.len(),
            None => position_index(cs@, line, character) is None,
        },
{
    let ghost s = cs@;
    let mut b: usize = 0;
    let mut k: u32 = 0;
    while k < line
        invariant
            s == cs@,
            0 <= k <= line,
            0 <= b <= s.len(),
            line_begin(s, line as nat, 0) == line_begin(s, (line - k) as nat, b as int),
        decreases line - k,
    {
        let e = find_char(cs.as_slice(), '\n', b, cs.len());
        proof {
            lemma_find_char_from(s.subrange(b as int, s.len() as int), '\n', 0);
        }
        if e >= cs.len() {
            return None;
        }
        b = e + 1;
        k += 1;
    }
    let end = find_char(cs.as_slice(), '\n', b, cs.len());
    proof {
        lemma_find_char_from(s.subrange(b as int, s.len() as int), '\n', 0);
    }
    let target = character as u64;
    let mut i = b;
    let mut u: u64 = 0;
    while i < end
        invariant
            s == cs@,
            b <= i <= end <= s.len(),
            u <= target,
            target == character,
            position_index(s, line, character) == column_index(s, i as int, end as int, u as int, target as int),
        decreases end - i,
    {
        if u == target {
            return Some(i);
        }
        let w: u64 = if (cs[i] as u32) < 0x10000 {
            1
        } else {
            2
        };
        if u + w > target {
            return None;
        }
        u = u + w;
        i += 1;
    }
    if u == target {
        Some(end)
    } else {
        None
    }
}

/// The byte offset of an editor position (line, UTF-16 column), if the
/// position is inside the text and not inside a character.
pub fn position_to_offset(text: &str, line: u32, character: u32) -> (r: Option<usize>)
    ensures
        match position_index(text@, line, character) {
            Some(i) => r == Some(byte_offset(text@, i) as usize),
            None => r is None,
        },
{
    let _n = str_byte_len(text);
    let cs = chars_of(text);
    let offs = byte_offsets(cs.as_slice());
    match position_index_of(&cs, line, character) {
        Some(i) => Some(offs[i]),
        None => None,
    }
}

/// A range of an editor edit: start and end positions (line, UTF-16
/// column).
#[derive(Clone, Copy, PartialEq, Eq, Structural, Debug)]
pub struct TextRange {
    pub start_line: u32,
    pub start_character: u32,
    pub end_line: u32,
    pub end_character: u32,
}

/// One change of an editor document: a replacement of a range, or of the
/// whole text when there is no range.
pub struct ContentChange {
    pub range: Option<TextRange>,
    pub text: String,
}

pub open spec fn change_view(c: ContentChange) -> (Option<TextRange>, Seq<char>) {
    (c.range, c.text@)
}

/// The text after one change, or the error that refuses it.
pub open spec fn change_result(s: Seq<char>, c: (Option<TextRange>, Seq<char>)) -> Result<Seq<char>, Seq<char>> {
    match c.0 {
        None => Ok(c.1),
        Some(r) => match position_index(s, r.start_line, r.start_character) {
            None => Err("incremental edit start is outside the document"@),
            Some(a) => match position_index(s, r.end_line, r.end_character) {
                None => Err("incremental edit end is outside the document"@),
                Some(b) => if a <= b {
                    Ok(s.take(a) + c.1 + s.skip(b))
                } else {
                    Err("incremental edit range is reversed"@)
                },
            },
        },
    }
}

/// The text after the first `n` changes, and the error that stopped them.
pub open spec fn apply_upto(s: Seq<char>, cs: Seq<(Option<TextRange>, Seq<char>)>, n: int) -> (Seq<char>, Option<Seq<char>>)
    decreases n,
{
    if n <= 0 {
        (s, None)
    } else {
        let (t, e) = apply_upto(s, cs, n - 1);
        if e is Some {
            (t, e)
        } else {
            match change_result(t, cs[n - 1]) {
                Ok(u) => (u, None),
                Err(m) => (t, Some(m)),
            }
        }
    }
}

/// Apply one change.
fn apply_change(text: &String, change: &ContentChange) -> (r: Result<String, String>)
    ensures
        match r {
            Ok(t) => change_result(text@, change_view(*change)) == Ok::<Seq<char>, Seq<char>>(t@),
            Err(e) => change_result(text@, change_view(*change)) == Err::<Seq<char>, Seq<char>>(e@),
        },
{
    match change.range {
        None => Ok(to_owned(change.text.as_str())),
        Some(range) => {
            let cs = chars_of(text.as_str());
            let a = match position_index_of(&cs, range.start_line, range.start_character) {
                Some(a) => a,
                None => {
                    return Err(to_owned("incremental edit start is outside the document"));
                },
            };
            let b = match position_index_of(&cs, range.end_line, range.end_character) {
                Some(b) => b,
                None => {
                    return Err(to_owned("incremental edit end is outside the document"));
                },
            };
            if a > b {
                return Err(to_owned("incremental edit range is reversed"));
            }
            let mut out = string_from_range(cs.as_slice(), 0, a);
            push_str(&mut out, change.text.as_str());
            let tail = string_from_range(cs.as_slice(), b, cs.len());
            push_str(&mut out, tail.as_str());
            assert(cs@.subrange(0, a as int) =~= cs@.take(a as int));
            assert(cs@.subrange(b as int, cs@.len() as int) =~= cs@.skip(b as int));
            Ok(out)
        },
    }
}

/// Apply the changes of an editor notification in order. An invalid range
/// stops with an error; the changes before it stay applied.
pub fn apply_content_changes(text: &mut String, changes: Vec<ContentChange>) -> (r: Result<(), String>)
    ensures
        ({
            let (t, e) = apply_upto(old(text)@, changes@.map_values(|c: ContentChange| change_view(c)), changes@.len() as int);
            &&& final(text)@ == t
            &&& match r {
                Ok(_) => e is None,
                Err(m) => e == Some(m@),
            }
        }),
{
    let ghost views = changes@.map_values(|c: ContentChange| change_view(c));
    let mut i: usize = 0;
    while i < changes.len()
        invariant
            0 <= i <= changes@.len(),
            views == changes@.map_values(|c: ContentChange| change_view(c)),
            apply_upto(old(text)@, views, i as int) == (text@, None::<Seq<char>>),
        decreases changes@.len() - i,
    {
        assert(views[i as int] == change_view(changes@[i as int]));
        match apply_change(text, &changes[i]) {
            Ok(t) => {
                *text = t;
            },
            Err(e) => {
                proof {
                    assert(apply_upto(old(text)@, views, i + 1) == (text@, Some(e@)));
                    lemma_apply_stopped(old(text)@, views, i + 1, changes@.len() as int);
                }
                return Err(e);
            },
        }
        i += 1;
    }
    Ok(())
}

proof fn lemma_apply_stopped(s: Seq<char>, cs: Seq<(Option<TextRange>, Seq<char>)>, m: int, n: int)
    requires
        0 < m <= n,
        apply_upto(s, cs, m).1 is Some,
    ensures
        apply_upto(s, cs, n) == apply_upto(s, cs, m),
    decreases n - m,
{
    if n > m {
        lemma_apply_stopped(s, cs, m, n - 1);
    }
}

/// How a file's comments are written, for inserted directives.
#[derive(Clone, Copy, PartialEq, Eq, Structural, Debug)]
pub enum CommentStyle {
    /// `<!-- … -->`
    Html,
    /// `# …`
    Hash,
    /// `// …`
    Slash,
}

/// What follows the last `c` among `s[..j]`, if there is one.
pub open spec fn after_last(s: Seq<char>, c: char, j: int) -> Option<Seq<char>>
    decreases j,
{
    if j <= 0 {
        None
    } else if s[j - 1] == c {
        Some(s.skip(j))
    } else {
        after_last(s, c, j - 1)
    }
}

pub open spec fn html_extensions() -> Seq<Seq<char>> {
    seq!["md"@, "mdx"@, "html"@, "xml"@]
}

pub open spec fn hash_extensions() -> Seq<Seq<char>> {
    seq!["py"@, "rb"@, "sh"@, "bash"@, "zsh"@, "yaml"@, "yml"@, "toml"@]
}

/// The comment style of a document path: by what follows its last `.`,
/// ASCII case ignored.
pub open spec fn spec_comment_style(path: Seq<char>) -> CommentStyle {
    match after_last(path, '.', path.len() as int) {
        Some(e) => if html_extensions().contains(lower_seq(e)) {
            CommentStyle::Html
        } else if hash_extensions().contains(lower_seq(e)) {
            CommentStyle::Hash
        } else {
            CommentStyle::Slash
        },
        None => CommentStyle::Slash,
    }
}

fn in_list(e: &str, names: &[&str]) -> (r: bool)
    ensures
        r == names@.map_values(|n: &str| n@).contains(e@),
{
    let ghost ns = names@.map_values(|n: &str| n@);
    let mut i: usize = 0;
    while i < names.len()
        invariant
            0 <= i <= names@.len(),
            ns == names@.map_values(|n: &str| n@),
            forall|k: int| 0 <= k < i ==> ns[k] != e@,
        decreases names@.len() - i,
    {
        if crate::text::str_eq(names[i], e) {
            assert(ns[i as int] == e@);
            return true;
        }
        i += 1;
    }
    false
}

/// The comment style of a document path.
pub fn comment_style(path: &str) -> (r: CommentStyle)
    ensures
        r == spec_comment_style(path@),
{
    let cs = chars_of(path);
    let mut j = cs.len();
    while j > 0 && cs[j - 1] != '.'
        invariant
            j <= cs@.len(),
            cs@ == path@,
            after_last(cs@, '.', cs@.len() as int) == after_last(cs@, '.', j as int),
        decreases j,
    {
        j -= 1;
    }
    if j == 0 {
        return CommentStyle::Slash;
    }
    let ext = string_from_range(cs.as_slice(), j, cs.len());
    assert(cs@.subrange(j as int, cs@.len() as int) =~= cs@.skip(j as int));
    let e = ascii_lowercase(ext.as_str());
    let html = ["md", "mdx", "html", "xml"];
    let hash = ["py", "rb", "sh", "bash", "zsh", "yaml", "yml", "toml"];
    assert(html@.map_values(|n: &str| n@) =~= html_extensions());
    assert(hash@.map_values(|n: &str| n@) =~= hash_extensions());
    if in_list(e.as_str(), &html) {
        CommentStyle::Html
    } else if in_list(e.as_str(), &hash) {
        CommentStyle::Hash
    } else {
        CommentStyle::Slash
    }
}

/// A line holding `directive` as a comment of the document's style.
pub fn directive_line(path: &str, directive: &str) -> (r: String)
    ensures
        r@ == match spec_comment_style(path@) {
            CommentStyle::Html => "<!-- "@ + directive@ + " -->\n"@,
            CommentStyle::Hash => "# "@ + directive@ + "\n"@,
            CommentStyle::Slash => "// "@ + directive@ + "\n"@,
        },
{
    let (open, close) = match comment_style(path) {
        CommentStyle::Html => ("<!-- ", " -->\n"),
        CommentStyle::Hash => ("# ", "\n"),
        CommentStyle::Slash => ("// ", "\n"),
    };
    let mut s = to_owned(open);
    push_str(&mut s, directive);
    push_str(&mut s, close);
    s
}

/// The comment that makes a line ignored, to append to it.
pub fn directive_suffix(path: &str) -> (r: &'static str)
    ensures
        r@ == match spec_comment_style(path@) {
            CommentStyle::Html => " <!-- ayame-spell:ignore-line -->"@,
            CommentStyle::Hash => " # ayame-spell:ignore-line"@,
            CommentStyle::Slash => " // ayame-spell:ignore-line"@,
        },
{
    match comment_style(path) {
        CommentStyle::Html => " <!-- ayame-spell:ignore-line -->",
        CommentStyle::Hash => " # ayame-spell:ignore-line",
        CommentStyle::Slash => " // ayame-spell:ignore-line",
    }
}

} // verus!
