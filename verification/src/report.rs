//! What the command line reports: finding lines, the run summary, rule
//! explanations and the exit status.
use vstd::prelude::*;

use crate::issue::{Issue, IssueKind, IssueView};
use crate::text::{byte_offset, byte_offsets, chars_of, push_char, push_str, str_byte_len, to_owned};

verus! {

/// Output formats of a check.
#[derive(Clone, Copy, PartialEq, Eq, Structural, Debug)]
pub enum Format {
    Human,
    Brief,
    Json,
    Github,
    Sarif,
}

/// When to color human output.
#[derive(Clone, Copy, PartialEq, Eq, Structural, Debug)]
pub enum ColorChoice {
    Auto,
    Always,
    Never,
}

/// One finding with the text of its line, for display.
pub struct Item {
    pub issue: Issue,
    pub line_text: String,
}

/// The findings of one file.
pub struct FileReport {
    /// Path relative to the invocation directory (for display).
    pub path: String,
    pub items: Vec<Item>,
    pub fixed: usize,
}

/// Counts of the files a run looked at.
pub struct Stats {
    pub checked: usize,
    pub skipped_binary: usize,
    pub skipped_large: usize,
}

impl Default for Stats {
    fn default() -> (r: Self)
        ensures
            r.checked == 0 && r.skipped_binary == 0 && r.skipped_large == 0,
    {
        Stats { checked: 0, skipped_binary: 0, skipped_large: 0 }
    }
}

/// The format of a run: the one asked for, else GitHub annotations inside
/// GitHub Actions, else human.
pub fn resolve_format(format: Option<Format>, in_github_actions: bool) -> (r: Format)
    ensures
        r == match format {
            Some(f) => f,
            None => if in_github_actions {
                Format::Github
            } else {
                Format::Human
            },
        },
{
    match format {
        Some(f) => f,
        None => if in_github_actions {
            Format::Github
        } else {
            Format::Human
        },
    }
}

/// Whether messages are shown in Japanese: as asked, else when the locale
/// (`LANG`) starts with `ja`, ASCII case ignored.
pub fn output_japanese(japanese: Option<bool>, lang: Option<&str>) -> (r: bool)
    ensures
        r == match japanese {
            Some(j) => j,
            None => match lang {
                Some(l) => {
                    let v = crate::tokenizer::lower_seq(l@);
                    v.len() >= 2 && v[0] == 'j' && v[1] == 'a'
                },
                None => false,
            },
        },
{
    match japanese {
        Some(j) => j,
        None => match lang {
            Some(l) => {
                let v = crate::tokenizer::ascii_lowercase(l);
                let cs = chars_of(v.as_str());
                cs.len() >= 2 && cs[0] == 'j' && cs[1] == 'a'
            },
            None => false,
        },
    }
}

/// The exit status of a check: 1 when something was reported, else 0.
pub fn exit_status(issue_count: usize) -> (r: i32)
    ensures
        r == if issue_count > 0 {
            1i32
        } else {
            0i32
        },
{
    if issue_count > 0 {
        1
    } else {
        0
    }
}

/// The decimal digits of a number.
pub open spec fn decimal(n: nat) -> Seq<char>
    decreases n,
{
    if n < 10 {
        seq![digit_char(n)]
    } else {
        decimal(n / 10).push(digit_char(n % 10))
    }
}

pub open spec fn digit_char(d: nat) -> char {
    if d == 0 {
        '0'
    } else if d == 1 {
        '1'
    } else if d == 2 {
        '2'
    } else if d == 3 {
        '3'
    } else if d == 4 {
        '4'
    } else if d == 5 {
        '5'
    } else if d == 6 {
        '6'
    } else if d == 7 {
        '7'
    } else if d == 8 {
        '8'
    } else {
        '9'
    }
}

fn digit(d: usize) -> (c: char)
    requires
        d < 10,
    ensures
        c == digit_char(d as nat),
{
    if d == 0 {
        '0'
    } else if d == 1 {
        '1'
    } else if d == 2 {
        '2'
    } else if d == 3 {
        '3'
    } else if d == 4 {
        '4'
    } else if d == 5 {
        '5'
    } else if d == 6 {
        '6'
    } else if d == 7 {
        '7'
    } else if d == 8 {
        '8'
    } else {
        '9'
    }
}

/// Append the decimal digits of `n`.
fn push_decimal(out: &mut String, n: usize)
    ensures
        final(out)@ == old(out)@ + decimal(n as nat),
    decreases n,
{
    if n < 10 {
        push_char(out, digit(n));
        assert(decimal(n as nat) =~= seq![digit_char(n as nat)]);
    } else {
        push_decimal(out, n / 10);
        push_char(out, digit(n % 10));
        assert(old(out)@ + decimal((n / 10) as nat) + seq![digit_char((n % 10) as nat)] =~= old(out)@ + decimal(n as nat));
    }
}

/// The decimal form of a number.
pub fn decimal_string(n: usize) -> (r: String)
    ensures
        r@ == decimal(n as nat),
{
    let mut s = String::new();
    push_decimal(&mut s, n);
    s
}

/// The 1-based character column of byte column `col` of a line; when `col`
/// is no character boundary of the line, the byte column plus one.
pub open spec fn display_column(line: Seq<char>, col: int) -> int {
    if exists|i: int| 0 <= i <= line.len() && #[trigger] byte_offset(line, i) == col {
        (choose|i: int| 0 <= i <= line.len() && #[trigger] byte_offset(line, i) == col) + 1
    } else {
        col + 1
    }
}

/// The 1-based character column shown for a finding.
pub fn column_of(line_text: &str, col: usize) -> (r: usize)
    requires
        col < usize::MAX,
    ensures
        r == display_column(line_text@, col as int),
{
    let _n = str_byte_len(line_text);
    let cs = chars_of(line_text);
    let offs = byte_offsets(cs.as_slice());
    let total = offs.len();
    let mut i: usize = 0;
    while i <= cs.len()
        invariant
            total == offs@.len(),
            0 <= i <= cs@.len() + 1,
            cs@ == line_text@,
            offs@.len() == cs@.len() + 1,
            forall|k: int| 0 <= k <= cs@.len() ==> #[trigger] offs@[k] == byte_offset(cs@, k),
            forall|k: int| 0 <= k < i ==> byte_offset(cs@, k) != col,
        decreases cs@.len() + 1 - i,
    {
        if offs[i] == col {
            proof {
                let c = choose|k: int| 0 <= k <= line_text@.len() && #[trigger] byte_offset(line_text@, k) == col;
                if c < i {
                    crate::fixes::lemma_offset_strict(line_text@, c, i as int);
                } else if i < c {
                    crate::fixes::lemma_offset_strict(line_text@, i as int, c);
                }
            }
            return i + 1;
        }
        i += 1;
    }
    col + 1
}

/// The path, line and column prefix of a finding line.
pub open spec fn location(path: Seq<char>, line: u32, column: nat) -> Seq<char> {
    path + ":"@ + decimal(line as nat) + ":"@ + decimal(column) + ":"@
}

/// Suggestions joined by `sep`.
pub open spec fn joined(s: Seq<Seq<char>>, sep: Seq<char>) -> Seq<char>
    decreases s.len(),
{
    if s.len() == 0 {
        Seq::empty()
    } else if s.len() == 1 {
        s[0]
    } else {
        joined(s.drop_last(), sep) + sep + s.last()
    }
}

fn join_strings(s: &Vec<String>, sep: &str) -> (r: String)
    ensures
        r@ == joined(s.deep_view(), sep@),
{
    let ghost all = s.deep_view();
    let mut out = String::new();
    let mut i: usize = 0;
    assert(all.take(0) =~= Seq::<Seq<char>>::empty());
    while i < s.len()
        invariant
            0 <= i <= s@.len(),
            all == s.deep_view(),
            out@ == joined(all.take(i as int), sep@),
        decreases s@.len() - i,
    {
        if i > 0 {
            push_str(&mut out, sep);
        }
        push_str(&mut out, s[i].as_str());
        proof {
            let t = all.take(i + 1);
            assert(t.drop_last() =~= all.take(i as int));
            assert(t.last() == s@[i as int]@);
            if i == 0 {
                assert(out@ =~= t[0]);
            }
        }
        i += 1;
    }
    assert(all.take(s@.len() as int) =~= all);
    out
}

/// A finding in the brief format: `path:line:column: word -> fixes`.
pub open spec fn spec_brief_line(path: Seq<char>, line_text: Seq<char>, x: IssueView) -> Seq<char> {
    location(path, x.line, display_column(line_text, x.col as int) as nat) + " "@ + x.word + " -> "@
        + joined(x.suggestions, ","@)
}

/// The location prefix of a finding line, followed by a space.
fn location_prefix(path: &str, line: u32, line_text: &str, col: usize) -> (r: String)
    requires
        col < usize::MAX,
    ensures
        r@ == location(path@, line, display_column(line_text@, col as int) as nat) + " "@,
{
    let column = column_of(line_text, col);
    let mut s = to_owned(path);
    push_char(&mut s, ':');
    let ln = decimal_string(line as usize);
    push_str(&mut s, ln.as_str());
    push_char(&mut s, ':');
    let c = decimal_string(column);
    push_str(&mut s, c.as_str());
    push_str(&mut s, ": ");
    proof {
        reveal_strlit(":");
        reveal_strlit(": ");
        reveal_strlit(" ");
        assert(s@ =~= location(path@, line, display_column(line_text@, col as int) as nat) + " "@);
    }
    s
}

/// A finding in the brief format.
pub fn brief_line(path: &str, item: &Item) -> (r: String)
    requires
        item.issue.col < usize::MAX,
    ensures
        r@ == spec_brief_line(path@, item.line_text@, item.issue@),
{
    let issue = &item.issue;
    let mut s = location_prefix(path, issue.line, item.line_text.as_str(), issue.col);
    push_str(&mut s, issue.word.as_str());
    push_str(&mut s, " -> ");
    let fixes = join_strings(&issue.suggestions, ",");
    push_str(&mut s, fixes.as_str());
    assert(s@ =~= spec_brief_line(path@, item.line_text@, issue@));
    s
}

/// A finding in the human format, with the given color escapes (empty for
/// none): `path:line:column: word → fixes [code]`.
pub open spec fn spec_human_line(
    path: Seq<char>,
    line_text: Seq<char>,
    x: IssueView,
    red: Seq<char>,
    green: Seq<char>,
    dim: Seq<char>,
    reset: Seq<char>,
) -> Seq<char> {
    let suggestion = if x.suggestions.len() == 0 {
        Seq::empty()
    } else {
        " → "@ + green + joined(x.suggestions, reset + ", "@ + green) + reset
    };
    location(path, x.line, display_column(line_text, x.col as int) as nat) + " "@ + red + x.word + reset
        + suggestion + " "@ + dim + "["@ + crate::issue::spec_code(x.kind) + "]"@ + reset
}

fn suggestion_part(x: &Vec<String>, green: &str, reset: &str) -> (r: String)
    ensures
        r@ == if x@.len() == 0 {
            Seq::<char>::empty()
        } else {
            " → "@ + green@ + joined(x.deep_view(), reset@ + ", "@ + green@) + reset@
        },
{
    if x.len() == 0 {
        return String::new();
    }
    let mut s = to_owned(" → ");
    push_str(&mut s, green);
    let mut sep = to_owned(reset);
    push_str(&mut sep, ", ");
    push_str(&mut sep, green);
    let fixes = join_strings(x, sep.as_str());
    push_str(&mut s, fixes.as_str());
    push_str(&mut s, reset);
    s
}

/// A finding in the human format, with the given color escapes.
fn human_line_with(path: &str, item: &Item, red: &str, green: &str, dim: &str, reset: &str) -> (r: String)
    requires
        item.issue.col < usize::MAX,
    ensures
        r@ == spec_human_line(path@, item.line_text@, item.issue@, red@, green@, dim@, reset@),
{
    let issue = &item.issue;
    let mut s = location_prefix(path, issue.line, item.line_text.as_str(), issue.col);
    push_str(&mut s, red);
    push_str(&mut s, issue.word.as_str());
    push_str(&mut s, reset);
    let sg = suggestion_part(&issue.suggestions, green, reset);
    push_str(&mut s, sg.as_str());
    push_str(&mut s, " ");
    push_str(&mut s, dim);
    push_str(&mut s, "[");
    push_str(&mut s, issue.kind.code());
    push_str(&mut s, "]");
    push_str(&mut s, reset);
    assert(s@ =~= spec_human_line(path@, item.line_text@, issue@, red@, green@, dim@, reset@));
    s
}

/// A finding in the human format, colored when `color` holds.
pub fn human_line(path: &str, item: &Item, color: bool) -> (r: String)
    requires
        item.issue.col < usize::MAX,
    ensures
        r@ == if color {
            spec_human_line(path@, item.line_text@, item.issue@, "\x1b[31m"@, "\x1b[32m"@, "\x1b[2m"@, "\x1b[0m"@)
        } else {
            spec_human_line(path@, item.line_text@, item.issue@, ""@, ""@, ""@, ""@)
        },
{
    if color {
        human_line_with(path, item, "\x1b[31m", "\x1b[32m", "\x1b[2m", "\x1b[0m")
    } else {
        human_line_with(path, item, "", "", "", "")
    }
}

/// The summary line of a human or brief run.
pub open spec fn spec_summary(
    issues: nat,
    files_with_issues: nat,
    checked: nat,
    fix: bool,
    fixed: nat,
    skipped_binary: nat,
    skipped_large: nat,
) -> Seq<char> {
    decimal(issues) + " issue(s) in "@ + decimal(files_with_issues) + " file(s) — "@ + decimal(checked)
        + " file(s) checked"@ + (if fix {
        ", "@ + decimal(fixed) + " fixed"@
    } else {
        Seq::empty()
    }) + (if skipped_binary > 0 {
        ", "@ + decimal(skipped_binary) + " binary file(s) skipped"@
    } else {
        Seq::empty()
    }) + (if skipped_large > 0 {
        ", "@ + decimal(skipped_large) + " file(s) over max-file-size skipped"@
    } else {
        Seq::empty()
    })
}

/// The summary line of a run.
pub fn summary_line(issues: usize, files_with_issues: usize, stats: &Stats, fix: bool, fixed: usize) -> (r: String)
    ensures
        r@ == spec_summary(
            issues as nat,
            files_with_issues as nat,
            stats.checked as nat,
            fix,
            fixed as nat,
            stats.skipped_binary as nat,
            stats.skipped_large as nat,
        ),
{
    let mut s = decimal_string(issues);
    push_str(&mut s, " issue(s) in ");
    let f = decimal_string(files_with_issues);
    push_str(&mut s, f.as_str());
    push_str(&mut s, " file(s) — ");
    let c = decimal_string(stats.checked);
    push_str(&mut s, c.as_str());
    push_str(&mut s, " file(s) checked");
    let ghost a = s@;
    if fix {
        push_str(&mut s, ", ");
        let x = decimal_string(fixed);
        push_str(&mut s, x.as_str());
        push_str(&mut s, " fixed");
    }
    let ghost b = s@;
    if stats.skipped_binary > 0 {
        push_str(&mut s, ", ");
        let x = decimal_string(stats.skipped_binary);
        push_str(&mut s, x.as_str());
        push_str(&mut s, " binary file(s) skipped");
    }
    let ghost c2 = s@;
    if stats.skipped_large > 0 {
        push_str(&mut s, ", ");
        let x = decimal_string(stats.skipped_large);
        push_str(&mut s, x.as_str());
        push_str(&mut s, " file(s) over max-file-size skipped");
    }
    proof {
        assert(s@ =~= spec_summary(
            issues as nat,
            files_with_issues as nat,
            stats.checked as nat,
            fix,
            fixed as nat,
            stats.skipped_binary as nat,
            stats.skipped_large as nat,
        ));
    }
    s
}

/// The explanation of a rule, in English or Japanese; an unknown code is
/// an error that names it.
pub open spec fn spec_explain(code: Seq<char>, japanese: bool) -> Result<Seq<char>, Seq<char>> {
    match crate::issue::spec_from_code(code) {
        Some(kind) => {
            let info = crate::issue::rule_info(kind, japanese);
            if japanese {
                Ok(crate::issue::spec_code(kind) + " — "@ + info.title@ + "\n\n"@ + info.explanation@
                    + "\n\n設定: "@ + info.config_key@ + "\n例: "@ + info.example@ + "\n無視する方法: "@
                    + info.silence@)
            } else {
                Ok(crate::issue::spec_code(kind) + " — "@ + info.title@ + "\n\n"@ + info.explanation@
                    + "\n\nConfiguration: "@ + info.config_key@ + "\nExample: "@ + info.example@
                    + "\nHow to silence: "@ + info.silence@)
            }
        },
        None => Err("unknown issue code `"@ + code + "`; run `ayame-spell rules`"@),
    }
}

/// The text `explain` prints for a rule code.
pub fn explain_text(code: &str, japanese: bool) -> (r: Result<String, String>)
    ensures
        match r {
            Ok(t) => spec_explain(code@, japanese) == Ok::<Seq<char>, Seq<char>>(t@),
            Err(e) => spec_explain(code@, japanese) == Err::<Seq<char>, Seq<char>>(e@),
        },
{
    match IssueKind::from_code(code) {
        Some(kind) => {
            let info = kind.info(japanese);
            let mut s = to_owned(kind.code());
            push_str(&mut s, " — ");
            push_str(&mut s, info.title);
            push_str(&mut s, "\n\n");
            push_str(&mut s, info.explanation);
            if japanese {
                push_str(&mut s, "\n\n設定: ");
                push_str(&mut s, info.config_key);
                push_str(&mut s, "\n例: ");
                push_str(&mut s, info.example);
                push_str(&mut s, "\n無視する方法: ");
            } else {
                push_str(&mut s, "\n\nConfiguration: ");
                push_str(&mut s, info.config_key);
                push_str(&mut s, "\nExample: ");
                push_str(&mut s, info.example);
                push_str(&mut s, "\nHow to silence: ");
            }
            push_str(&mut s, info.silence);
            Ok(s)
        },
        None => {
            let mut e = to_owned("unknown issue code `");
            push_str(&mut e, code);
            push_str(&mut e, "`; run `ayame-spell rules`");
            Err(e)
        },
    }
}

} // verus!
