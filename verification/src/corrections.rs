//! Known-misspelling correction tables (typos-style checking).
//!
//! The built-in English table comes from the `typos-dict` crate. Users can
//! extend it with inline configuration entries and TSV files, and can
//! whitelist a word by mapping it to itself.
use vstd::prelude::*;
use vstd::hash_map::StringHashMap;

use crate::text::{
    chars_of, find_char_from, lemma_find_char_from, lines, parse_tab_pair, slice_range,
    split_lines, string_from_chars, tab_pair, trim, trim_bounds,
};
use crate::tokenizer::{ascii_lowercase, lower_seq, match_case, spec_match_case};

verus! {

/// Result of looking a word up in the correction tables.
#[derive(Debug, PartialEq, Eq)]
pub enum Verdict {
    /// The word is explicitly whitelisted (entry maps to itself).
    Allowed,
    /// The word is a known misspelling; case-adjusted fixes, best first.
    Typo(Vec<String>),
}

/// The plain content of a [`Verdict`].
pub enum VerdictView {
    Allowed,
    Typo(Seq<Seq<char>>),
}

impl View for Verdict {
    type V = VerdictView;

    open spec fn view(&self) -> VerdictView {
        match self {
            Verdict::Allowed => VerdictView::Allowed,
            Verdict::Typo(fixes) => VerdictView::Typo(fixes.deep_view()),
        }
    }
}

enum Entry {
    Allow,
    Fix(Vec<String>),
}

/// Words the upstream corrections data flags but that are everyday
/// identifiers in real code (serde's `ser`, the flate2 crate, the
/// misspelled-by-standard HTTP `Referer` header).
pub open spec fn builtin_allow() -> Seq<Seq<char>> {
    seq!["ser"@, "flate"@, "referer"@]
}

/// The built-in correction table (`typos_dict::WORD`): the fixes listed for
/// a word, matched case-insensitively, if the word is listed. It is looked
/// up with the word's lowercase form.
pub uninterp spec fn typo_table(word: Seq<char>) -> Option<Seq<Seq<char>>>;

/// Looks a word up in `typos_dict::WORD` with a case-insensitive key.
/// Claims that the fixes handed back are the table's entry for the word.
#[verifier::external_body]
fn builtin_lookup(word: &str) -> (r: Option<Vec<String>>)
    ensures
        match r {
            Some(v) => typo_table(word@) == Some(v.deep_view()),
            None => typo_table(word@) is None,
        },
{
    typos_dict::WORD.find(&unicase::UniCase::new(word)).map(|fixes| fixes.iter().map(|f| f.to_string()).collect())
}

/// The plain content of the tables: lowercased custom words (an absent
/// list whitelists the word) and whether the built-in table is on.
pub struct CorrectionsView {
    pub custom: Map<Seq<char>, Option<Seq<Seq<char>>>>,
    pub builtin: bool,
}

pub struct Corrections {
    custom: StringHashMap<Entry>,
    builtin: bool,
}

/// The entry a custom correction makes: a single fix equal to the typo
/// (ASCII case-insensitively) whitelists it.
pub open spec fn entry_for(typo: Seq<char>, fixes: Seq<Seq<char>>) -> Option<Seq<Seq<char>>> {
    if fixes.len() == 1 && lower_seq(fixes[0]) == lower_seq(typo) {
        None
    } else {
        Some(fixes)
    }
}

/// The fixes re-cased after the looked-up word.
pub open spec fn recased(word: Seq<char>, fixes: Seq<Seq<char>>) -> Seq<Seq<char>> {
    fixes.map_values(|f: Seq<char>| spec_match_case(word, f))
}

/// What the tables say of a word.
pub open spec fn spec_check(c: CorrectionsView, word: Seq<char>) -> Option<VerdictView> {
    let lower = lower_seq(word);
    if c.custom.contains_key(lower) {
        match c.custom[lower] {
            None => Some(VerdictView::Allowed),
            Some(fixes) => Some(VerdictView::Typo(recased(word, fixes))),
        }
    } else if c.builtin && builtin_allow().contains(lower) {
        Some(VerdictView::Allowed)
    } else if c.builtin && typo_table(lower) is Some {
        Some(VerdictView::Typo(recased(word, typo_table(lower)->0)))
    } else {
        None
    }
}

/// What the tables say of a lowercased word, before the fixes are
/// re-cased.
pub open spec fn base_verdict(c: CorrectionsView, lower: Seq<char>) -> Option<VerdictView> {
    if c.custom.contains_key(lower) {
        match c.custom[lower] {
            None => Some(VerdictView::Allowed),
            Some(fixes) => Some(VerdictView::Typo(fixes)),
        }
    } else if c.builtin && builtin_allow().contains(lower) {
        Some(VerdictView::Allowed)
    } else if c.builtin && typo_table(lower) is Some {
        Some(VerdictView::Typo(typo_table(lower)->0))
    } else {
        None
    }
}

/// A verdict with its fixes re-cased after `word`.
pub open spec fn recase_verdict(word: Seq<char>, v: Option<VerdictView>) -> Option<VerdictView> {
    match v {
        Some(VerdictView::Typo(fixes)) => Some(VerdictView::Typo(recased(word, fixes))),
        other => other,
    }
}

/// Matching is case-insensitive and fixes preserve case: what the tables
/// say of a word is what they say of its lowercase form, with the fixes
/// re-cased after the word (`Teh` → `The`, `TEH` → `THE`).
pub proof fn law_matching_ignores_case(c: CorrectionsView, word: Seq<char>)
    ensures
        spec_check(c, word) == recase_verdict(word, base_verdict(c, lower_seq(word))),
{
}

impl View for Corrections {
    type V = CorrectionsView;

    closed spec fn view(&self) -> CorrectionsView {
        CorrectionsView {
            custom: self.custom@.map_values(
                |e: Entry|
                    match e {
                        Entry::Allow => None,
                        Entry::Fix(v) => Some(v.deep_view()),
                    },
            ),
            builtin: self.builtin,
        }
    }
}

pub(crate) fn eq_ignore_ascii_case(a: &str, b: &str) -> (r: bool)
    ensures
        r == (lower_seq(a@) == lower_seq(b@)),
{
    let x = ascii_lowercase(a);
    let y = ascii_lowercase(b);
    x == y
}

fn clone_strings(v: &[String]) -> (r: Vec<String>)
    ensures
        r.deep_view() == v@.map_values(|s: String| s@),
{
    let mut r: Vec<String> = Vec::new();
    let mut i: usize = 0;
    while i < v.len()
        invariant
            0 <= i <= v@.len(),
            r.deep_view() == v@.take(i as int).map_values(|s: String| s@),
        decreases v@.len() - i,
    {
        let s = crate::text::to_owned(v[i].as_str());
        let ghost before = r.deep_view();
        r.push(s);
        proof {
            assert(r.deep_view() =~= before.push(s@));
            assert(v@.take(i + 1).map_values(|s: String| s@) =~= v@.take(i as int).map_values(|s: String| s@).push(v@[i as int]@));
        }
        i += 1;
    }
    assert(v@.take(v@.len() as int) =~= v@);
    r
}

fn recase_all(word: &str, fixes: &[String]) -> (r: Vec<String>)
    ensures
        r.deep_view() == recased(word@, fixes@.map_values(|s: String| s@)),
{
    let mut r: Vec<String> = Vec::new();
    let mut i: usize = 0;
    while i < fixes.len()
        invariant
            0 <= i <= fixes@.len(),
            r.deep_view() == recased(word@, fixes@.take(i as int).map_values(|s: String| s@)),
        decreases fixes@.len() - i,
    {
        let f = match_case(word, fixes[i].as_str());
        let ghost before = r.deep_view();
        r.push(f);
        proof {
            assert(r.deep_view() =~= before.push(f@));
            assert(fixes@.take(i + 1).map_values(|s: String| s@) =~= fixes@.take(i as int).map_values(|s: String| s@).push(fixes@[i as int]@));
            assert(recased(word@, fixes@.take(i + 1).map_values(|s: String| s@)) =~= recased(word@, fixes@.take(i as int).map_values(|s: String| s@)).push(spec_match_case(word@, fixes@[i as int]@)));
        }
        i += 1;
    }
    assert(fixes@.take(fixes@.len() as int) =~= fixes@);
    r
}

impl Corrections {
    pub fn new(builtin: bool) -> (r: Self)
        ensures
            r@.custom == Map::<Seq<char>, Option<Seq<Seq<char>>>>::empty(),
            r@.builtin == builtin,
    {
        let r = Corrections { custom: StringHashMap::new(), builtin };
        assert(r@.custom =~= Map::<Seq<char>, Option<Seq<Seq<char>>>>::empty());
        r
    }

    /// Register a custom correction. A fix equal to the typo itself (case
    /// insensitively) whitelists the word instead.
    pub fn insert(&mut self, typo: &str, fixes: &[String])
        ensures
            final(self)@.custom == old(self)@.custom.insert(
                lower_seq(typo@),
                entry_for(typo@, fixes@.map_values(|s: String| s@)),
            ),
            final(self)@.builtin == old(self)@.builtin,
    {
        let key = ascii_lowercase(typo);
        let entry = if fixes.len() == 1 && eq_ignore_ascii_case(fixes[0].as_str(), typo) {
            Entry::Allow
        } else {
            Entry::Fix(clone_strings(fixes))
        };
        let ghost e = entry;
        self.custom.insert(key, entry);
        proof {
            let fv = fixes@.map_values(|s: String| s@);
            assert(fixes@.len() == 1 ==> fv[0] == fixes@[0]@);
            assert(self@.custom =~= old(self)@.custom.insert(lower_seq(typo@), entry_for(typo@, fv)));
        }
    }

    /// Look a word up. `None` means the tables have no opinion.
    pub fn check(&self, word: &str) -> (r: Option<Verdict>)
        ensures
            match r {
                Some(v) => spec_check(self@, word@) == Some(v@),
                None => spec_check(self@, word@) is None,
            },
    {
        let lower = ascii_lowercase(word);
        match self.custom.get(lower.as_str()) {
            Some(Entry::Allow) => {
                return Some(Verdict::Allowed);
            },
            Some(Entry::Fix(fixes)) => {
                assert(fixes.deep_view() =~= fixes@.map_values(|s: String| s@));
                return Some(Verdict::Typo(recase_all(word, fixes.as_slice())));
            },
            None => {},
        }
        if self.builtin {
            proof {
                reveal_strlit("ser");
                reveal_strlit("flate");
                reveal_strlit("referer");
            }
            let allow = ["ser", "flate", "referer"];
            let mut k: usize = 0;
            while k < 3
                invariant
                    0 <= k <= 3,
                    allow@ == seq!["ser", "flate", "referer"],
                    !self@.custom.contains_key(lower@),
                    self@.builtin,
                    lower@ == lower_seq(word@),
                    forall|j: int| 0 <= j < k ==> allow@[j]@ != lower@,
                decreases 3 - k,
            {
                if crate::text::str_eq(allow[k], lower.as_str()) {
                    assert(builtin_allow()[k as int] == allow@[k as int]@);
                    assert(builtin_allow()[k as int] == lower@);
                    assert(builtin_allow().contains(lower@));
                    return Some(Verdict::Allowed);
                }
                k += 1;
            }
            proof {
                assert forall|j: int| 0 <= j < 3 implies builtin_allow()[j] != lower@ by {
                    assert(builtin_allow()[j] == allow@[j]@);
                }
            }
            match builtin_lookup(lower.as_str()) {
                Some(fixes) => {
                    assert(fixes.deep_view() =~= fixes@.map_values(|s: String| s@));
                    return Some(Verdict::Typo(recase_all(word, fixes.as_slice())));
                },
                None => {},
            }
        }
        None
    }
}


/// The pieces of `s[start..]` between commas, scanning from `i`
/// (std's `str::split(',')`).
pub open spec fn comma_pieces(s: Seq<char>, start: int, i: int) -> Seq<Seq<char>>
    decreases s.len() - i,
{
    if i >= s.len() {
        seq![s.subrange(start, s.len() as int)]
    } else if s[i] == ',' {
        seq![s.subrange(start, i)] + comma_pieces(s, i + 1, i + 1)
    } else {
        comma_pieces(s, start, i + 1)
    }
}

/// The trimmed, non-empty pieces of a list.
pub open spec fn clean_pieces(ps: Seq<Seq<char>>) -> Seq<Seq<char>>
    decreases ps.len(),
{
    if ps.len() == 0 {
        Seq::empty()
    } else {
        let rest = clean_pieces(ps.drop_last());
        if trim(ps.last()).len() > 0 {
            rest.push(trim(ps.last()))
        } else {
            rest
        }
    }
}

/// The fixes listed after the tab of a TSV line.
pub open spec fn fixes_of(v: Seq<char>) -> Seq<Seq<char>> {
    clean_pieces(comma_pieces(v, 0, 0))
}

/// The (typo, fixes) entries of TSV lines, in order.
pub open spec fn tsv_entries(ls: Seq<Seq<char>>) -> Seq<(Seq<char>, Seq<Seq<char>>)>
    decreases ls.len(),
{
    if ls.len() == 0 {
        Seq::empty()
    } else {
        let rest = tsv_entries(ls.drop_last());
        match tab_pair(ls.last()) {
            Some(p) => if fixes_of(p.1).len() > 0 {
                rest.push((trim(p.0), fixes_of(p.1)))
            } else {
                rest
            },
            None => rest,
        }
    }
}

/// The custom table after inserting entries in order.
pub open spec fn with_entries(
    m: Map<Seq<char>, Option<Seq<Seq<char>>>>,
    es: Seq<(Seq<char>, Seq<Seq<char>>)>,
) -> Map<Seq<char>, Option<Seq<Seq<char>>>>
    decreases es.len(),
{
    if es.len() == 0 {
        m
    } else {
        with_entries(m, es.drop_last()).insert(lower_seq(es.last().0), entry_for(es.last().0, es.last().1))
    }
}

fn push_piece(v: &Vec<char>, start: usize, end: usize, out: &mut Vec<String>)
    requires
        start <= end <= v@.len(),
    ensures
        final(out).deep_view() == if trim(v@.subrange(start as int, end as int)).len() > 0 {
            old(out).deep_view().push(trim(v@.subrange(start as int, end as int)))
        } else {
            old(out).deep_view()
        },
{
    let (a, b) = trim_bounds(v.as_slice(), start, end);
    let ghost before = out.deep_view();
    if a < b {
        let s = string_from_chars(slice_range(v.as_slice(), a, b).as_slice());
        out.push(s);
        assert(out.deep_view() =~= before.push(trim(v@.subrange(start as int, end as int))));
    }
}

fn fixes_in(v: &Vec<char>) -> (r: Vec<String>)
    ensures
        r.deep_view() == fixes_of(v@),
{
    let mut out: Vec<String> = Vec::new();
    let ghost mut pieces: Seq<Seq<char>> = Seq::empty();
    let mut start: usize = 0;
    let mut i: usize = 0;
    let n = v.len();
    assert(out.deep_view() =~= clean_pieces(pieces));
    while i < n
        invariant
            n == v@.len(),
            start <= i <= n,
            pieces + comma_pieces(v@, start as int, i as int) == comma_pieces(v@, 0, 0),
            out.deep_view() == clean_pieces(pieces),
        decreases n - i,
    {
        if v[i] == ',' {
            let ghost piece = v@.subrange(start as int, i as int);
            push_piece(v, start, i, &mut out);
            proof {
                assert(pieces.push(piece).drop_last() =~= pieces);
                assert(clean_pieces(pieces.push(piece)) =~= out.deep_view());
                assert(pieces.push(piece) + comma_pieces(v@, i + 1, i + 1) =~= pieces + comma_pieces(v@, start as int, i as int));
                pieces = pieces.push(piece);
            }
            start = i + 1;
        }
        i += 1;
    }
    let ghost piece = v@.subrange(start as int, n as int);
    push_piece(v, start, n, &mut out);
    proof {
        assert(pieces.push(piece).drop_last() =~= pieces);
        assert(clean_pieces(pieces.push(piece)) =~= out.deep_view());
        assert(pieces.push(piece) =~= pieces + comma_pieces(v@, start as int, i as int));
    }
    out
}

impl Corrections {
    /// Load TSV text: `typo<TAB>fix[,fix...]` lines, `#` comments allowed.
    /// Returns the number of entries loaded.
    pub fn load_tsv(&mut self, text: &str) -> (n: usize)
        ensures
            final(self)@.custom == with_entries(old(self)@.custom, tsv_entries(split_lines(text@))),
            final(self)@.builtin == old(self)@.builtin,
            n == tsv_entries(split_lines(text@)).len(),
    {
        let cs = chars_of(text);
        let ls = lines(cs.as_slice());
        let ghost all = split_lines(text@);
        let mut n: usize = 0;
        let mut i: usize = 0;
        while i < ls.len()
            invariant
                cs@ == text@,
                all == split_lines(text@),
                ls@.len() == all.len(),
                forall|k: int| 0 <= k < ls@.len() ==> #[trigger] ls@[k]@ == all[k],
                0 <= i <= ls@.len(),
                n == tsv_entries(all.take(i as int)).len(),
                n <= i,
                self@.custom == with_entries(old(self)@.custom, tsv_entries(all.take(i as int))),
                self@.builtin == old(self)@.builtin,
            decreases ls@.len() - i,
        {
            proof {
                let t = all.take(i + 1);
                assert(t.drop_last() =~= all.take(i as int));
                assert(t.last() == ls@[i as int]@);
            }
            let ghost before = self@.custom;
            match parse_tab_pair(ls[i].as_slice()) {
                Some((key, value)) => {
                    let fixes = fixes_in(&value);
                    assert(tab_pair(all[i as int]) == Some((key@, value@)));
                    if fixes.len() > 0 {
                        let (a, b) = trim_bounds(key.as_slice(), 0, key.len());
                        assert(key@.subrange(0, key@.len() as int) =~= key@);
                        let typo = string_from_chars(slice_range(key.as_slice(), a, b).as_slice());
                        proof {
                            assert(fixes@.map_values(|s: String| s@) =~= fixes.deep_view());
                        }
                        self.insert(typo.as_str(), fixes.as_slice());
                        proof {
                            let es = tsv_entries(all.take(i as int));
                            let e = (trim(key@), fixes_of(value@));
                            assert(tsv_entries(all.take(i + 1)) == es.push(e));
                            assert(es.push(e).drop_last() =~= es);
                            assert(typo@ == trim(key@));
                            assert(self@.custom == with_entries(old(self)@.custom, es.push(e)));
                        }
                        n += 1;
                    } else {
                        assert(tsv_entries(all.take(i + 1)) == tsv_entries(all.take(i as int)));
                    }
                },
                None => {
                    assert(tsv_entries(all.take(i + 1)) == tsv_entries(all.take(i as int)));
                },
            }
            i += 1;
        }
        assert(all.take(ls@.len() as int) =~= all);
        n
    }
}

} // verus!
