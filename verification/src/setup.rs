//! Project setup: the registry dictionaries a project's files suggest, and
//! the exclude globs typed at the setup prompt.
use vstd::prelude::*;

use crate::text::{chars_of, trim, trim_bounds};

verus! {

/// The dictionaries suggested by a project's files, in name order: `python`
/// for a Python project (`pyproject.toml`, `requirements.txt` or
/// `setup.py`), `rust` for a `Cargo.toml`, `web` for a `package.json`.
pub open spec fn spec_detected(cargo: bool, package_json: bool, python: bool) -> Seq<Seq<char>> {
    let a: Seq<Seq<char>> = if python { seq!["python"@] } else { Seq::empty() };
    let b: Seq<Seq<char>> = if cargo { seq!["rust"@] } else { Seq::empty() };
    let c: Seq<Seq<char>> = if package_json { seq!["web"@] } else { Seq::empty() };
    a + b + c
}

/// The dictionaries suggested by which project files exist.
pub fn detected_dictionaries(cargo: bool, package_json: bool, python: bool) -> (r: Vec<&'static str>)
    ensures
        r@.map_values(|s: &str| s@) == spec_detected(cargo, package_json, python),
{
    let mut names: Vec<&'static str> = Vec::new();
    if python {
        names.push("python");
    }
    if cargo {
        names.push("rust");
    }
    if package_json {
        names.push("web");
    }
    assert(names@.map_values(|s: &str| s@) =~= spec_detected(cargo, package_json, python));
    names
}

/// The pieces of `s[start..]` between commas, scanning from `i`.
pub open spec fn comma_pieces(s: Seq<char>, start: int, i: int) -> Seq<Seq<char>>
    decreases s.len() - i,
{
    if i >= s.len() {
        seq![s.subrange(start, s.len() as int)]
    } else if s[i] == ',' {
        seq![s.subrange(start, i)] + comma_pieces(s, i + 1, i + 1)
    } else {
        comma_pieces(s, start, i + 1)
    }
}

/// The pieces trimmed, blank ones left out.
pub open spec fn nonblank_trimmed(ps: Seq<Seq<char>>) -> Seq<Seq<char>>
    decreases ps.len(),
{
    if ps.len() == 0 {
        Seq::empty()
    } else {
        let r = nonblank_trimmed(ps.drop_last());
        let t = trim(ps.last());
        if t.len() > 0 {
            r.push(t)
        } else {
            r
        }
    }
}

/// The globs of a comma-separated list: each trimmed, blank ones left out.
pub open spec fn spec_exclude_globs(text: Seq<char>) -> Seq<Seq<char>> {
    nonblank_trimmed(comma_pieces(text, 0, 0))
}

/// Add the trimmed piece `cs[start..end]` unless it is blank.
fn push_piece(out: &mut Vec<String>, cs: &Vec<char>, start: usize, end: usize)
    requires
        start <= end <= cs@.len(),
    ensures
        final(out).deep_view() == if trim(cs@.subrange(start as int, end as int)).len() > 0 {
            old(out).deep_view().push(trim(cs@.subrange(start as int, end as int)))
        } else {
            old(out).deep_view()
        },
{
    let (a, b) = trim_bounds(cs.as_slice(), start, end);
    if a < b {
        let ghost before = out.deep_view();
        let t = crate::text::string_from_range(cs.as_slice(), a, b);
        out.push(t);
        assert(out.deep_view() =~= before.push(t@));
    }
}

/// The globs of a comma-separated list: each trimmed, blank ones left out.
pub fn exclude_globs(text: &str) -> (r: Vec<String>)
    ensures
        r.deep_view() == spec_exclude_globs(text@),
{
    let cs = chars_of(text);
    let ghost s = cs@;
    let mut out: Vec<String> = Vec::new();
    let ghost mut done: Seq<Seq<char>> = Seq::empty();
    let mut start: usize = 0;
    let mut i: usize = 0;
    assert(out.deep_view() =~= nonblank_trimmed(done));
    while i < cs.len()
        invariant
            s == cs@,
            s == text@,
            start <= i <= s.len(),
            out.deep_view() == nonblank_trimmed(done),
            done + comma_pieces(s, start as int, i as int) == comma_pieces(s, 0, 0),
        decreases s.len() - i,
    {
        if cs[i] == ',' {
            push_piece(&mut out, &cs, start, i);
            proof {
                let piece = s.subrange(start as int, i as int);
                assert(done.push(piece).drop_last() =~= done);
                assert(done.push(piece) + comma_pieces(s, i + 1, i + 1) =~= done + comma_pieces(
                    s,
                    start as int,
                    i as int,
                ));
                done = done.push(piece);
            }
            start = i + 1;
        }
        i += 1;
    }
    push_piece(&mut out, &cs, start, cs.len());
    proof {
        let piece = s.subrange(start as int, s.len() as int);
        assert(done.push(piece).drop_last() =~= done);
        assert(done.push(piece) =~= done + comma_pieces(s, start as int, i as int));
    }
    out
}

} // verus!
