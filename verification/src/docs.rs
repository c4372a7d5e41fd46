//! Text transformations behind the generated documentation: command help
//! pages, the roff manual page and Markdown tables.
use vstd::prelude::*;

use crate::text::{
    byte_len, char_width, chars_of, is_whitespace, is_ws, lemma_byte_len_add, lemma_offset_step,
    lines, push_char, split_lines, string_from_chars, trim_end, trim_start, byte_offset,
};

verus! {

/// Lines joined with `\n` between them.
pub open spec fn join_lines(ls: Seq<Seq<char>>) -> Seq<char>
    decreases ls.len(),
{
    if ls.len() == 0 {
        Seq::empty()
    } else if ls.len() == 1 {
        ls[0]
    } else {
        join_lines(ls.drop_last()) + seq!['\n'] + ls.last()
    }
}

/// The contents of character vectors.
pub open spec fn char_vecs(v: Seq<Vec<char>>) -> Seq<Seq<char>> {
    v.map_values(|l: Vec<char>| l@)
}

fn push_chars(out: &mut String, cs: &Vec<char>)
    ensures
        final(out)@ == old(out)@ + cs@,
{
    let mut i: usize = 0;
    while i < cs.len()
        invariant
            0 <= i <= cs@.len(),
            out@ == old(out)@ + cs@.take(i as int),
        decreases cs@.len() - i,
    {
        push_char(out, cs[i]);
        assert(cs@.take(i + 1) =~= cs@.take(i as int).push(cs@[i as int]));
        assert(out@ =~= old(out)@ + cs@.take(i + 1));
        i += 1;
    }
    assert(cs@.take(cs@.len() as int) =~= cs@);
}

/// Lines joined with `\n` between them.
fn join_with_newlines(ls: &Vec<Vec<char>>) -> (r: String)
    ensures
        r@ == join_lines(char_vecs(ls@)),
{
    let ghost all = char_vecs(ls@);
    let mut out = String::new();
    let mut i: usize = 0;
    assert(all.take(0) =~= Seq::<Seq<char>>::empty());
    while i < ls.len()
        invariant
            0 <= i <= ls@.len(),
            all == char_vecs(ls@),
            out@ == join_lines(all.take(i as int)),
        decreases ls@.len() - i,
    {
        let ghost before = out@;
        if i > 0 {
            push_char(&mut out, '\n');
        }
        push_chars(&mut out, &ls[i]);
        proof {
            let t = all.take(i + 1);
            assert(t.drop_last() =~= all.take(i as int));
            assert(t.last() == ls@[i as int]@);
            if i == 0 {
                assert(out@ =~= t[0]);
            } else {
                assert(out@ =~= join_lines(t.drop_last()) + seq!['\n'] + t.last());
            }
        }
        i += 1;
    }
    assert(all.take(ls@.len() as int) =~= all);
    out
}

/// Help text with trailing whitespace removed from every line and a final
/// line break.
pub open spec fn spec_normalize_help(help: Seq<char>) -> Seq<char> {
    join_lines(split_lines(help).map_values(|l: Seq<char>| trim_end(l))) + seq!['\n']
}

/// The trimmed-end copy of a line.
fn trim_end_chars(l: &Vec<char>) -> (r: Vec<char>)
    ensures
        r@ == trim_end(l@),
{
    let mut j = l.len();
    assert(l@.take(j as int) =~= l@);
    while j > 0 && is_whitespace(l[j - 1])
        invariant
            j <= l@.len(),
            trim_end(l@) == trim_end(l@.take(j as int)),
        decreases j,
    {
        assert(l@.take(j as int).drop_last() =~= l@.take(j - 1));
        j -= 1;
    }
    let r = crate::text::slice_range(l.as_slice(), 0, j);
    assert(r@ =~= l@.take(j as int));
    r
}

/// Trailing whitespace removed from every line of generated help, which
/// ends with one line break.
pub fn normalize_help(help: &str) -> (r: String)
    ensures
        r@ == spec_normalize_help(help@),
{
    let cs = chars_of(help);
    let ls = lines(cs.as_slice());
    let mut trimmed: Vec<Vec<char>> = Vec::new();
    let ghost target = split_lines(help@).map_values(|l: Seq<char>| trim_end(l));
    let mut i: usize = 0;
    while i < ls.len()
        invariant
            0 <= i <= ls@.len(),
            cs@ == help@,
            ls@.len() == split_lines(help@).len(),
            forall|k: int| 0 <= k < ls@.len() ==> #[trigger] ls@[k]@ == split_lines(help@)[k],
            target == split_lines(help@).map_values(|l: Seq<char>| trim_end(l)),
            trimmed@.len() == i,
            target.len() == ls@.len(),
            char_vecs(trimmed@) == target.take(i as int),
        decreases ls@.len() - i,
    {
        let t = trim_end_chars(&ls[i]);
        let ghost before = trimmed@;
        trimmed.push(t);
        proof {
            assert(target[i as int] == trim_end(split_lines(help@)[i as int]));
            assert(trimmed@ == before.push(t));
            assert(char_vecs(trimmed@).len() == i + 1);
            assert(target.take(i + 1).len() == i + 1);
            assert(char_vecs(trimmed@)[i as int] == trimmed@[i as int]@);
            assert(trimmed@[i as int]@ == trim_end(ls@[i as int]@));
            assert forall|k: int| 0 <= k < i + 1 implies #[trigger] char_vecs(trimmed@)[k] == target.take(i + 1)[k] by {
                if k < i {
                    assert(char_vecs(before)[k] == target.take(i as int)[k]);
                }
            }
            assert(char_vecs(trimmed@) =~= target.take(i + 1));
        }
        i += 1;
    }
    assert(target.take(ls@.len() as int) =~= target);
    let mut out = join_with_newlines(&trimmed);
    push_char(&mut out, '\n');
    out
}

/// The first whitespace-separated word of a text without leading
/// whitespace.
pub open spec fn first_word(t: Seq<char>) -> Option<Seq<char>> {
    if t.len() == 0 {
        None
    } else {
        Some(t.take(crate::text::find_first_ws(t, 0)))
    }
}

/// The subcommand names listed under `Commands:` in a help text, from `i`
/// on: lines indented by two bytes name one (`help` left out); an
/// unindented line ends the list.
pub open spec fn subcommands_from(ls: Seq<Seq<char>>, i: int, in_commands: bool) -> Seq<Seq<char>>
    decreases ls.len() - i,
{
    if i < 0 || i >= ls.len() {
        Seq::empty()
    } else {
        let l = ls[i];
        if l == "Commands:"@ {
            subcommands_from(ls, i + 1, true)
        } else if !in_commands || l.len() == 0 {
            subcommands_from(ls, i + 1, in_commands)
        } else {
            let t = trim_start(l);
            let indent = byte_len(l) - byte_len(t);
            if indent == 0 {
                Seq::empty()
            } else if indent == 2 {
                match first_word(t) {
                    Some(name) => if name != "help"@ {
                        seq![name] + subcommands_from(ls, i + 1, in_commands)
                    } else {
                        subcommands_from(ls, i + 1, in_commands)
                    },
                    None => subcommands_from(ls, i + 1, in_commands),
                }
            } else {
                subcommands_from(ls, i + 1, in_commands)
            }
        }
    }
}

/// The leading-whitespace count of a line, and the byte width of that
/// whitespace capped at 3.
fn leading_ws(l: &Vec<char>) -> (r: (usize, usize))
    ensures
        r.0 <= l@.len(),
        trim_start(l@) == l@.skip(r.0 as int),
        r.1 as int == if byte_len(l@) - byte_len(trim_start(l@)) < 3 {
            byte_len(l@) - byte_len(trim_start(l@))
        } else {
            3
        },
{
    let mut k: usize = 0;
    let mut w: usize = 0;
    assert(l@.take(0) =~= Seq::<char>::empty());
    assert(l@.skip(0) =~= l@);
    while k < l.len() && is_whitespace(l[k])
        invariant
            k <= l@.len(),
            trim_start(l@) == trim_start(l@.skip(k as int)),
            w as int == if byte_offset(l@, k as int) < 3 {
                byte_offset(l@, k as int) as int
            } else {
                3
            },
        decreases l@.len() - k,
    {
        proof {
            lemma_offset_step(l@, k as int);
            assert(l@.skip(k as int).drop_first() =~= l@.skip(k + 1));
        }
        let cw = char_width(l[k]);
        w = if w + cw > 3 {
            3
        } else {
            w + cw
        };
        k += 1;
    }
    proof {
        let t = l@.skip(k as int);
        assert(t.len() == 0 || !is_ws(t[0]));
        assert(l@ =~= l@.take(k as int) + t);
        lemma_byte_len_add(l@.take(k as int), t);
    }
    (k, w)
}

/// The subcommands a clap help text lists under `Commands:`, `help`
/// excepted.
pub fn help_subcommands(help: &str) -> (r: Vec<String>)
    ensures
        r.deep_view() == subcommands_from(split_lines(help@), 0, false),
{
    let cs = chars_of(help);
    let ls = lines(cs.as_slice());
    let ghost all = split_lines(help@);
    let mut commands: Vec<String> = Vec::new();
    let mut in_commands = false;
    let mut i: usize = 0;
    let ghost total = subcommands_from(all, 0, false);
    assert(commands.deep_view() =~= Seq::<Seq<char>>::empty());
    while i < ls.len()
        invariant
            0 <= i <= ls@.len(),
            cs@ == help@,
            all == split_lines(help@),
            ls@.len() == all.len(),
            forall|k: int| 0 <= k < ls@.len() ==> #[trigger] ls@[k]@ == all[k],
            total == subcommands_from(all, 0, false),
            total == commands.deep_view() + subcommands_from(all, i as int, in_commands),
        decreases ls@.len() - i,
    {
        let l = &ls[i];
        let ghost lv = all[i as int];
        assert(l@ == lv);
        let s = string_from_chars(l.as_slice());
        if crate::text::str_eq(s.as_str(), "Commands:") {
            in_commands = true;
            i += 1;
            continue;
        }
        if !in_commands || l.len() == 0 {
            i += 1;
            continue;
        }
        let (k, indent) = leading_ws(l);
        if indent == 0 {
            assert(lv != "Commands:"@);
            assert(in_commands && lv.len() != 0);
            assert(byte_len(lv) - byte_len(trim_start(lv)) == 0);
            assert(subcommands_from(all, i as int, in_commands) =~= Seq::<Seq<char>>::empty());
            assert(commands.deep_view() + Seq::<Seq<char>>::empty() =~= commands.deep_view());
            return commands;
        }
        if indent == 2 && k < l.len() {
            let e = crate::text::find_ws(l.as_slice(), k);
            proof {
                let t = l@.skip(k as int);
                crate::text::lemma_find_first_ws(t, 0);
                crate::text::lemma_find_ws_shift(l@, k as int);
                assert(t.take(crate::text::find_first_ws(t, 0)) =~= l@.subrange(k as int, e as int));
            }
            let name = crate::text::string_from_range(l.as_slice(), k, e);
            if !crate::text::str_eq(name.as_str(), "help") {
                let ghost before = commands.deep_view();
                commands.push(name);
                assert(commands.deep_view() =~= before.push(name@));
                assert(before.push(name@) + subcommands_from(all, i + 1, in_commands) =~= before + (seq![name@]
                    + subcommands_from(all, i + 1, in_commands)));
            }
        }
        i += 1;
    }
    assert(commands.deep_view() + Seq::<Seq<char>>::empty() =~= commands.deep_view());
    commands
}

/// A line escaped for roff: backslashes doubled as `\e`, and a leading `.`
/// or `'` protected by `\&`.
pub open spec fn roff_line(l: Seq<char>) -> Seq<char> {
    let e = escape_backslashes(l);
    if e.len() > 0 && (e[0] == '.' || e[0] == '\'') {
        seq!['\\', '&'] + e
    } else {
        e
    }
}

/// Every `\` replaced by `\e`.
pub open spec fn escape_backslashes(l: Seq<char>) -> Seq<char>
    decreases l.len(),
{
    if l.len() == 0 {
        Seq::empty()
    } else {
        escape_backslashes(l.drop_last()) + if l.last() == '\\' {
            seq!['\\', 'e']
        } else {
            seq![l.last()]
        }
    }
}

/// The text escaped for a roff literal block, line by line.
pub open spec fn spec_roff_literal(text: Seq<char>) -> Seq<char> {
    join_lines(split_lines(text).map_values(|l: Seq<char>| roff_line(l)))
}

fn roff_line_chars(l: &Vec<char>) -> (r: Vec<char>)
    ensures
        r@ == roff_line(l@),
{
    let mut e: Vec<char> = Vec::new();
    let mut i: usize = 0;
    assert(l@.take(0) =~= Seq::<char>::empty());
    while i < l.len()
        invariant
            0 <= i <= l@.len(),
            e@ == escape_backslashes(l@.take(i as int)),
        decreases l@.len() - i,
    {
        let ghost before = e@;
        if l[i] == '\\' {
            e.push('\\');
            e.push('e');
        } else {
            e.push(l[i]);
        }
        proof {
            let t = l@.take(i + 1);
            assert(t.drop_last() =~= l@.take(i as int));
            assert(e@ =~= before + if t.last() == '\\' {
                seq!['\\', 'e']
            } else {
                seq![t.last()]
            });
        }
        i += 1;
    }
    assert(l@.take(l@.len() as int) =~= l@);
    if e.len() > 0 && (e[0] == '.' || e[0] == '\'') {
        let mut r: Vec<char> = Vec::new();
        r.push('\\');
        r.push('&');
        let mut k: usize = 0;
        while k < e.len()
            invariant
                0 <= k <= e@.len(),
                r@ == seq!['\\', '&'] + e@.take(k as int),
            decreases e@.len() - k,
        {
            r.push(e[k]);
            assert(e@.take(k + 1) =~= e@.take(k as int).push(e@[k as int]));
            assert(r@ =~= seq!['\\', '&'] + e@.take(k + 1));
            k += 1;
        }
        assert(e@.take(e@.len() as int) =~= e@);
        r
    } else {
        e
    }
}

/// A text escaped for a roff literal block: `\` becomes `\e`, and lines
/// starting with a control character (`.` or `'`) get a `\&` guard.
pub fn roff_literal(text: &str) -> (r: String)
    ensures
        r@ == spec_roff_literal(text@),
{
    let cs = chars_of(text);
    let ls = lines(cs.as_slice());
    let ghost target = split_lines(text@).map_values(|l: Seq<char>| roff_line(l));
    let mut escaped: Vec<Vec<char>> = Vec::new();
    let mut i: usize = 0;
    while i < ls.len()
        invariant
            0 <= i <= ls@.len(),
            ls@.len() == split_lines(text@).len(),
            forall|k: int| 0 <= k < ls@.len() ==> #[trigger] ls@[k]@ == split_lines(text@)[k],
            target == split_lines(text@).map_values(|l: Seq<char>| roff_line(l)),
            escaped@.len() == i,
            target.len() == ls@.len(),
            char_vecs(escaped@) == target.take(i as int),
        decreases ls@.len() - i,
    {
        let x = roff_line_chars(&ls[i]);
        let ghost before = escaped@;
        escaped.push(x);
        proof {
            assert(target[i as int] == roff_line(split_lines(text@)[i as int]));
            assert(escaped@ == before.push(x));
            assert forall|k: int| 0 <= k < i + 1 implies #[trigger] char_vecs(escaped@)[k] == target.take(i + 1)[k] by {
                if k < i {
                    assert(char_vecs(before)[k] == target.take(i as int)[k]);
                }
            }
            assert(char_vecs(escaped@) =~= target.take(i + 1));
        }
        i += 1;
    }
    assert(target.take(ls@.len() as int) =~= target);
    join_with_newlines(&escaped)
}

/// A value escaped for a Markdown table cell: `|` becomes `\|` and line
/// breaks become spaces.
pub open spec fn spec_markdown_cell(v: Seq<char>) -> Seq<char>
    decreases v.len(),
{
    if v.len() == 0 {
        Seq::empty()
    } else {
        spec_markdown_cell(v.drop_last()) + if v.last() == '|' {
            seq!['\\', '|']
        } else if v.last() == '\n' {
            seq![' ']
        } else {
            seq![v.last()]
        }
    }
}

/// A value escaped for a Markdown table cell.
pub fn markdown_cell(value: &str) -> (r: String)
    ensures
        r@ == spec_markdown_cell(value@),
{
    let cs = chars_of(value);
    let mut out = String::new();
    let mut i: usize = 0;
    assert(cs@.take(0) =~= Seq::<char>::empty());
    while i < cs.len()
        invariant
            0 <= i <= cs@.len(),
            cs@ == value@,
            out@ == spec_markdown_cell(cs@.take(i as int)),
        decreases cs@.len() - i,
    {
        let ghost before = out@;
        let c = cs[i];
        if c == '|' {
            push_char(&mut out, '\\');
            push_char(&mut out, '|');
        } else if c == '\n' {
            push_char(&mut out, ' ');
        } else {
            push_char(&mut out, c);
        }
        proof {
            let t = cs@.take(i + 1);
            assert(t.drop_last() =~= cs@.take(i as int));
            assert(t.last() == c);
            assert(out@ =~= spec_markdown_cell(t));
        }
        i += 1;
    }
    assert(cs@.take(cs@.len() as int) =~= cs@);
    out
}

} // verus!
