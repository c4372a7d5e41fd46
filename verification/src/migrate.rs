//! Mappings used when importing the configuration of other spell checkers.
use vstd::prelude::*;

use crate::text::{chars_of, push_str, str_eq, string_from_range, to_owned};
use crate::documents::{get_value, json_value, keys_of, parse_json, parse_toml, parse_yaml, toml_value, string_value, table_keys, text_of, value_at, yaml_value};
use crate::validate::ConfigValue;
use crate::tokenizer::{ascii_lowercase, lower_seq};

verus! {

/// cspell dictionary names and the registry pack that covers each.
pub open spec fn cspell_table() -> Seq<(Seq<char>, Seq<char>)> {
    seq![
        ("aws"@, "aws"@),
        ("cpp"@, "cpp"@),
        ("c-cpp"@, "cpp"@),
        ("companies"@, "web"@),
        ("softwareterms"@, "web"@),
        ("web"@, "web"@),
        ("datascience"@, "data-science"@),
        ("data-science"@, "data-science"@),
        ("docker"@, "docker-k8s"@),
        ("kubernetes"@, "docker-k8s"@),
        ("dotnet"@, "dotnet"@),
        ("csharp"@, "dotnet"@),
        ("finance"@, "finance"@),
        ("gcp"@, "gcp"@),
        ("go"@, "go"@),
        ("golang"@, "go"@),
        ("java"@, "java-kotlin"@),
        ("kotlin"@, "java-kotlin"@),
        ("node"@, "typescript-node"@),
        ("npm"@, "typescript-node"@),
        ("typescript"@, "typescript-node"@),
        ("python"@, "python"@),
        ("rust"@, "rust"@),
        ("terraform"@, "terraform"@),
    ]
}

/// The value of the first pair of `t` from `i` on whose key is `key`.
pub open spec fn lookup_from(t: Seq<(Seq<char>, Seq<char>)>, key: Seq<char>, i: int) -> Option<Seq<char>>
    decreases t.len() - i,
{
    if i < 0 || i >= t.len() {
        None
    } else if t[i].0 == key {
        Some(t[i].1)
    } else {
        lookup_from(t, key, i + 1)
    }
}

/// The registry pack for a cspell dictionary name (ASCII case ignored).
pub open spec fn spec_cspell_dictionary(name: Seq<char>) -> Option<Seq<char>> {
    lookup_from(cspell_table(), lower_seq(name), 0)
}

/// The registry pack that covers a cspell dictionary, if one does.
pub fn cspell_dictionary(name: &str) -> (r: Option<&'static str>)
    ensures
        match r {
            Some(p) => spec_cspell_dictionary(name@) == Some(p@),
            None => spec_cspell_dictionary(name@) is None,
        },
{
    let key = ascii_lowercase(name);
    let table: [(&'static str, &'static str); 24] = [
        ("aws", "aws"),
        ("cpp", "cpp"),
        ("c-cpp", "cpp"),
        ("companies", "web"),
        ("softwareterms", "web"),
        ("web", "web"),
        ("datascience", "data-science"),
        ("data-science", "data-science"),
        ("docker", "docker-k8s"),
        ("kubernetes", "docker-k8s"),
        ("dotnet", "dotnet"),
        ("csharp", "dotnet"),
        ("finance", "finance"),
        ("gcp", "gcp"),
        ("go", "go"),
        ("golang", "go"),
        ("java", "java-kotlin"),
        ("kotlin", "java-kotlin"),
        ("node", "typescript-node"),
        ("npm", "typescript-node"),
        ("typescript", "typescript-node"),
        ("python", "python"),
        ("rust", "rust"),
        ("terraform", "terraform"),
    ];
    assert(forall|k: int| 0 <= k < 24 ==> (#[trigger] table@[k]).0@ == cspell_table()[k].0 && table@[k].1@ == cspell_table()[k].1);
    let mut i: usize = 0;
    while i < 24
        invariant
            0 <= i <= 24,
            key@ == lower_seq(name@),
            forall|k: int| 0 <= k < 24 ==> (#[trigger] table@[k]).0@ == cspell_table()[k].0 && table@[k].1@ == cspell_table()[k].1,
            spec_cspell_dictionary(name@) == lookup_from(cspell_table(), key@, i as int),
        decreases 24 - i,
    {
        if str_eq(table[i].0, key.as_str()) {
            return Some(table[i].1);
        }
        i += 1;
    }
    None
}


/// The characters `regex::escape` protects with a backslash.
pub open spec fn is_meta_character(c: char) -> bool {
    c == '\\' || c == '.' || c == '+' || c == '*' || c == '?' || c == '(' || c == ')' || c == '|' || c == '['
        || c == ']' || c == '{' || c == '}' || c == '^' || c == '$' || c == '#' || c == '&' || c == '-'
        || c == '~'
}

/// A text with every regex meta character escaped.
pub open spec fn spec_escape(s: Seq<char>) -> Seq<char>
    decreases s.len(),
{
    if s.len() == 0 {
        Seq::empty()
    } else {
        spec_escape(s.drop_last()) + if is_meta_character(s.last()) {
            seq!['\\', s.last()]
        } else {
            seq![s.last()]
        }
    }
}

/// `regex::escape`: every meta character of the text preceded by a
/// backslash, as the crate's source does it.
#[verifier::external_body]
fn regex_escape(text: &str) -> (r: String)
    ensures
        r@ == spec_escape(text@),
{
    regex::escape(text)
}

/// Index of the last `c` among `s[..j]`, or -1.
pub open spec fn last_index(s: Seq<char>, c: char, j: int) -> int
    decreases j,
{
    if j <= 0 {
        -1
    } else if s[j - 1] == c {
        j - 1
    } else {
        last_index(s, c, j - 1)
    }
}

/// A prh pattern as a regex: `/expr/` and `/expr/i` literals become the
/// expression (case-insensitive with `i`); any other flag is refused; any
/// other pattern matches literally.
pub open spec fn spec_normalize_prh(p: Seq<char>) -> Result<Seq<char>, Seq<char>> {
    let j = last_index(p, '/', p.len() as int);
    if p.len() > 0 && p[0] == '/' && j > 0 {
        let expression = p.subrange(1, j);
        let flags = p.skip(j + 1);
        if !(forall|k: int| 0 <= k < flags.len() ==> flags[k] == 'i') {
            Err("only the `i` regex flag is supported"@)
        } else if flags.len() > 0 {
            Ok("(?i)"@ + expression)
        } else {
            Ok(expression)
        }
    } else {
        Ok(spec_escape(p))
    }
}

/// A prh rule pattern as a regex.
pub fn normalize_prh_pattern(pattern: &str) -> (r: Result<String, String>)
    ensures
        match r {
            Ok(s) => spec_normalize_prh(pattern@) == Ok::<Seq<char>, Seq<char>>(s@),
            Err(e) => spec_normalize_prh(pattern@) == Err::<Seq<char>, Seq<char>>(e@),
        },
{
    let cs = chars_of(pattern);
    let mut j = cs.len();
    while j > 0 && cs[j - 1] != '/'
        invariant
            j <= cs@.len(),
            cs@ == pattern@,
            last_index(cs@, '/', cs@.len() as int) == last_index(cs@, '/', j as int),
        decreases j,
    {
        j -= 1;
    }
    if cs.len() > 0 && cs[0] == '/' && j > 1 {
        let end = j - 1;
        assert(last_index(cs@, '/', cs@.len() as int) == end as int);
        let mut k = end + 1;
        while k < cs.len()
            invariant
                end + 1 <= k <= cs@.len(),
                cs@ == pattern@,
                end > 0,
                cs@.len() > 0 && cs@[0] == '/',
                last_index(cs@, '/', cs@.len() as int) == end as int,
                forall|t: int| end + 1 <= t < k ==> cs@[t] == 'i',
            decreases cs@.len() - k,
        {
            if cs[k] != 'i' {
                proof {
                    let flags = cs@.skip(end + 1);
                    assert(flags[k - end - 1] == cs@[k as int]);
                }
                return Err(to_owned("only the `i` regex flag is supported"));
            }
            k += 1;
        }
        proof {
            let flags = cs@.skip(end + 1);
            assert forall|t: int| 0 <= t < flags.len() implies flags[t] == 'i' by {
                assert(flags[t] == cs@[end + 1 + t]);
            }
        }
        let expression = string_from_range(cs.as_slice(), 1, end);
        if end + 1 < cs.len() {
            let mut s = to_owned("(?i)");
            push_str(&mut s, expression.as_str());
            Ok(s)
        } else {
            Ok(expression)
        }
    } else {
        Ok(regex_escape(pattern))
    }
}

// ---------------------------------------------------------------------------
// prh rule files

/// A value of a prh rule file where a pattern may stand: a string, a
/// sequence (each item a string or not), or anything else.
pub enum PrhValue {
    Text(String),
    List(Vec<Option<String>>),
    Other,
}

/// One entry of a prh file's `rules`: the string keys of its mapping (none
/// where it is no mapping), its `expected` where that is a string, and its
/// `patterns` and `pattern` values where present.
pub struct PrhRule {
    pub keys: Vec<String>,
    pub expected: Option<String>,
    pub patterns: Option<PrhValue>,
    pub pattern: Option<PrhValue>,
}

/// A parsed prh file: its top-level string keys, and its rules where
/// `rules` is a sequence.
pub struct PrhFile {
    pub keys: Vec<String>,
    pub rules: Option<Vec<PrhRule>>,
}

/// The regex rules made from a prh file (pattern, replacement) and what
/// it holds that has no counterpart.
pub struct PrhTranslation {
    pub rules: Vec<(String, String)>,
    pub untranslated: Vec<String>,
}

/// Translated rules and messages so far.
pub type PrhState = (Seq<(Seq<char>, Seq<char>)>, Seq<Seq<char>>);

pub open spec fn opt_text(o: Option<String>) -> Option<Seq<char>> {
    match o {
        Some(s) => Some(s@),
        None => None,
    }
}

pub open spec fn rule_label(i: int) -> Seq<char> {
    "rule "@ + crate::report::decimal((i + 1) as nat)
}

pub open spec fn top_key_message(key: Seq<char>) -> Seq<char> {
    "top-level prh key `"@ + key + "` is not translated"@
}

pub open spec fn rule_key_message(i: int, key: Seq<char>) -> Seq<char> {
    rule_label(i) + " key `"@ + key + "` is not translated"@
}

pub open spec fn no_expected_message(i: int) -> Seq<char> {
    rule_label(i) + " has no string `expected`"@
}

pub open spec fn no_pattern_message(i: int) -> Seq<char> {
    rule_label(i) + " has no string pattern"@
}

pub open spec fn not_string_message(i: int, j: int) -> Seq<char> {
    rule_label(i) + " pattern "@ + crate::report::decimal((j + 1) as nat) + " is not a string"@
}

pub open spec fn unsupported_message(i: int, pattern: Seq<char>, error: Seq<char>) -> Seq<char> {
    rule_label(i) + " pattern `"@ + pattern + "` is unsupported: "@ + error
}

/// Messages for the top-level keys other than `version` and `rules`.
pub open spec fn top_key_messages(keys: Seq<Seq<char>>) -> Seq<Seq<char>>
    decreases keys.len(),
{
    if keys.len() == 0 {
        Seq::empty()
    } else {
        let m = top_key_messages(keys.drop_last());
        let k = keys.last();
        if k == "version"@ || k == "rules"@ {
            m
        } else {
            m.push(top_key_message(k))
        }
    }
}

/// Messages for the keys of rule `i` other than `expected`, `pattern` and
/// `patterns`.
pub open spec fn rule_key_messages(i: int, keys: Seq<Seq<char>>) -> Seq<Seq<char>>
    decreases keys.len(),
{
    if keys.len() == 0 {
        Seq::empty()
    } else {
        let m = rule_key_messages(i, keys.drop_last());
        let k = keys.last();
        if k == "expected"@ || k == "pattern"@ || k == "patterns"@ {
            m
        } else {
            m.push(rule_key_message(i, k))
        }
    }
}

/// The strings of a pattern sequence, and a message for each item that is
/// not one.
pub open spec fn list_patterns(i: int, items: Seq<Option<Seq<char>>>) -> (Seq<Seq<char>>, Seq<Seq<char>>)
    decreases items.len(),
{
    if items.len() == 0 {
        (Seq::empty(), Seq::empty())
    } else {
        let (ps, ms) = list_patterns(i, items.drop_last());
        match items.last() {
            Some(p) => (ps.push(p), ms),
            None => (ps, ms.push(not_string_message(i, items.len() - 1))),
        }
    }
}

/// The state after one pattern of rule `i`: translated where it normalizes
/// and compiles as a regex, otherwise a message.
pub open spec fn pattern_step(st: PrhState, i: int, expected: Seq<char>, p: Seq<char>) -> PrhState {
    match spec_normalize_prh(p) {
        Err(e) => (st.0, st.1.push(unsupported_message(i, p, e))),
        Ok(q) => match crate::japanese::regex_compile(q) {
            Ok(_) => (st.0.push((q, expected)), st.1),
            Err(e) => (st.0, st.1.push(unsupported_message(i, q, e))),
        },
    }
}

pub open spec fn patterns_step(st: PrhState, i: int, expected: Seq<char>, ps: Seq<Seq<char>>) -> PrhState
    decreases ps.len(),
{
    if ps.len() == 0 {
        st
    } else {
        pattern_step(patterns_step(st, i, expected, ps.drop_last()), i, expected, ps.last())
    }
}

pub open spec fn list_view(items: Seq<Option<String>>) -> Seq<Option<Seq<char>>> {
    items.map_values(|o: Option<String>| opt_text(o))
}

/// The state after rule `i`.
pub open spec fn rule_step(st: PrhState, i: int, r: PrhRule) -> PrhState {
    let st1 = (st.0, st.1 + rule_key_messages(i, r.keys.deep_view()));
    match r.expected {
        None => (st1.0, st1.1.push(no_expected_message(i))),
        Some(e) => {
            let v = if r.patterns is Some {
                r.patterns
            } else {
                r.pattern
            };
            match v {
                Some(PrhValue::Text(p)) => patterns_step(st1, i, e@, seq![p@]),
                Some(PrhValue::List(items)) => {
                    let (ps, ms) = list_patterns(i, list_view(items@));
                    patterns_step((st1.0, st1.1 + ms), i, e@, ps)
                },
                _ => (st1.0, st1.1.push(no_pattern_message(i))),
            }
        },
    }
}

pub open spec fn rules_upto(keys: Seq<Seq<char>>, rules: Seq<PrhRule>, n: int) -> PrhState
    decreases n,
{
    if n <= 0 {
        (Seq::empty(), top_key_messages(keys))
    } else {
        rule_step(rules_upto(keys, rules, n - 1), n - 1, rules[n - 1])
    }
}

/// A prh file translated: an error where it has no rules sequence or no
/// rule translates.
pub open spec fn spec_translate_prh(f: PrhFile) -> Result<PrhState, Seq<char>> {
    match f.rules {
        None => Err("prh file has no `rules` sequence"@),
        Some(rs) => {
            let st = rules_upto(f.keys.deep_view(), rs@, rs@.len() as int);
            if st.0.len() == 0 {
                Err("no prh rules could be translated"@)
            } else {
                Ok(st)
            }
        },
    }
}

pub open spec fn pairs_view(v: Seq<(String, String)>) -> Seq<(Seq<char>, Seq<char>)> {
    v.map_values(|p: (String, String)| (p.0@, p.1@))
}

pub open spec fn translation_view(t: PrhTranslation) -> PrhState {
    (pairs_view(t.rules@), t.untranslated.deep_view())
}

fn rule_label_string(i: usize) -> (r: String)
    requires
        i < usize::MAX,
    ensures
        r@ == rule_label(i as int),
{
    let n = crate::report::decimal_string(i + 1);
    let mut s = to_owned("rule ");
    push_str(&mut s, n.as_str());
    s
}

fn push_message(msgs: &mut Vec<String>, m: String)
    ensures
        final(msgs).deep_view() == old(msgs).deep_view().push(m@),
{
    let ghost b = msgs.deep_view();
    msgs.push(m);
    assert(msgs.deep_view() =~= b.push(m@));
}

/// The state after one pattern of rule `i`.
fn add_pattern(i: usize, expected: &str, p: &str, done: &mut Vec<(String, String)>, msgs: &mut Vec<String>)
    requires
        i < usize::MAX,
    ensures
        (pairs_view(final(done)@), final(msgs).deep_view()) == pattern_step(
            (pairs_view(old(done)@), old(msgs).deep_view()),
            i as int,
            expected@,
            p@,
        ),
{
    match normalize_prh_pattern(p) {
        Err(e) => {
            let mut m = rule_label_string(i);
            push_str(&mut m, " pattern `");
            push_str(&mut m, p);
            push_str(&mut m, "` is unsupported: ");
            push_str(&mut m, e.as_str());
            push_message(msgs, m);
        },
        Ok(q) => match crate::japanese::regex_check(q.as_str()) {
            Ok(_) => {
                let ghost b = pairs_view(done@);
                let pair = (q, to_owned(expected));
                let ghost pv = (pair.0@, pair.1@);
                done.push(pair);
                assert(pairs_view(done@) =~= b.push(pv));
            },
            Err(e) => {
                let mut m = rule_label_string(i);
                push_str(&mut m, " pattern `");
                push_str(&mut m, q.as_str());
                push_str(&mut m, "` is unsupported: ");
                push_str(&mut m, e.as_str());
                push_message(msgs, m);
            },
        },
    }
}

/// The state after rule `i`.
fn add_rule(r: &PrhRule, i: usize, done: &mut Vec<(String, String)>, msgs: &mut Vec<String>)
    requires
        i < usize::MAX,
    ensures
        (pairs_view(final(done)@), final(msgs).deep_view()) == rule_step(
            (pairs_view(old(done)@), old(msgs).deep_view()),
            i as int,
            *r,
        ),
{
    let ghost m0 = msgs.deep_view();
    let ghost kv = r.keys.deep_view();
    let mut k: usize = 0;
    assert(kv.take(0) =~= Seq::<Seq<char>>::empty());
    assert(m0 + rule_key_messages(i as int, kv.take(0)) =~= m0);
    while k < r.keys.len()
        invariant
            0 <= k <= r.keys@.len(),
            i < usize::MAX,
            kv == r.keys.deep_view(),
            msgs.deep_view() == m0 + rule_key_messages(i as int, kv.take(k as int)),
            done@ == old(done)@,
        decreases r.keys@.len() - k,
    {
        let key = r.keys[k].as_str();
        assert(kv[k as int] == key@);
        assert(kv.take(k + 1).drop_last() =~= kv.take(k as int));
        let ghost before = msgs.deep_view();
        if !(str_eq(key, "expected") || str_eq(key, "pattern") || str_eq(key, "patterns")) {
            let mut m = rule_label_string(i);
            push_str(&mut m, " key `");
            push_str(&mut m, key);
            push_str(&mut m, "` is not translated");
            push_message(msgs, m);
            assert(msgs.deep_view() =~= m0 + rule_key_messages(i as int, kv.take(k + 1)));
        } else {
            assert(msgs.deep_view() =~= m0 + rule_key_messages(i as int, kv.take(k + 1)));
        }
        k += 1;
    }
    assert(kv.take(kv.len() as int) =~= kv);
    let expected = match &r.expected {
        None => {
            let mut m = rule_label_string(i);
            push_str(&mut m, " has no string `expected`");
            push_message(msgs, m);
            return;
        },
        Some(e) => e,
    };
    let v = if r.patterns.is_some() {
        &r.patterns
    } else {
        &r.pattern
    };
    match v {
        Some(PrhValue::Text(p)) => {
            let ghost st1 = (pairs_view(done@), msgs.deep_view());
            add_pattern(i, expected.as_str(), p.as_str(), done, msgs);
            assert(seq![p@].drop_last() =~= Seq::<Seq<char>>::empty());
            assert(patterns_step(st1, i as int, expected@, seq![p@]) == pattern_step(
                patterns_step(st1, i as int, expected@, Seq::<Seq<char>>::empty()),
                i as int,
                expected@,
                p@,
            ));
        },
        Some(PrhValue::List(items)) => {
            let ghost lv = list_view(items@);
            let ghost st1 = (pairs_view(done@), msgs.deep_view());
            let mut ps: Vec<String> = Vec::new();
            let mut j: usize = 0;
            assert(lv.take(0) =~= Seq::<Option<Seq<char>>>::empty());
            assert(st1.1 + list_patterns(i as int, lv.take(0)).1 =~= st1.1);
            while j < items.len()
                invariant
                    0 <= j <= items@.len(),
                    i < usize::MAX,
                    lv == list_view(items@),
                    ps.deep_view() == list_patterns(i as int, lv.take(j as int)).0,
                    msgs.deep_view() == st1.1 + list_patterns(i as int, lv.take(j as int)).1,
                    pairs_view(done@) == st1.0,
                decreases items@.len() - j,
            {
                assert(lv[j as int] == opt_text(items@[j as int]));
                assert(lv.take(j + 1).drop_last() =~= lv.take(j as int));
                assert(lv.take(j + 1).last() == lv[j as int]);
                match &items[j] {
                    Some(p) => {
                        let ghost b = ps.deep_view();
                        ps.push(to_owned(p.as_str()));
                        assert(ps.deep_view() =~= b.push(p@));
                    },
                    None => {
                        let mut m = rule_label_string(i);
                        push_str(&mut m, " pattern ");
                        let n = crate::report::decimal_string(j + 1);
                        push_str(&mut m, n.as_str());
                        push_str(&mut m, " is not a string");
                        push_message(msgs, m);
                        assert(msgs.deep_view() =~= st1.1 + list_patterns(i as int, lv.take(j + 1)).1);
                    },
                }
                j += 1;
            }
            assert(lv.take(lv.len() as int) =~= lv);
            let ghost pv = ps.deep_view();
            let ghost st2 = (pairs_view(done@), msgs.deep_view());
            let mut t: usize = 0;
            assert(pv.take(0) =~= Seq::<Seq<char>>::empty());
            while t < ps.len()
                invariant
                    0 <= t <= ps@.len(),
                    i < usize::MAX,
                    pv == ps.deep_view(),
                    (pairs_view(done@), msgs.deep_view()) == patterns_step(st2, i as int, expected@, pv.take(t as int)),
                decreases ps@.len() - t,
            {
                assert(pv[t as int] == ps@[t as int]@);
                assert(pv.take(t + 1).drop_last() =~= pv.take(t as int));
                add_pattern(i, expected.as_str(), ps[t].as_str(), done, msgs);
                t += 1;
            }
            assert(pv.take(pv.len() as int) =~= pv);
        },
        _ => {
            let mut m = rule_label_string(i);
            push_str(&mut m, " has no string pattern");
            push_message(msgs, m);
        },
    }
}

/// Translate a prh rule file: each string pattern of a rule with a string
/// `expected` becomes a regex rule where it normalizes and compiles; all
/// else is reported. An error where the file has no `rules` sequence or
/// no rule could be translated.
pub fn translate_prh(f: &PrhFile) -> (r: Result<PrhTranslation, String>)
    ensures
        match r {
            Ok(t) => spec_translate_prh(*f) == Ok::<PrhState, Seq<char>>(translation_view(t)),
            Err(e) => spec_translate_prh(*f) == Err::<PrhState, Seq<char>>(e@),
        },
{
    let rules = match &f.rules {
        None => return Err(to_owned("prh file has no `rules` sequence")),
        Some(rs) => rs,
    };
    let mut done: Vec<(String, String)> = Vec::new();
    let mut msgs: Vec<String> = Vec::new();
    let ghost kv = f.keys.deep_view();
    let mut k: usize = 0;
    assert(kv.take(0) =~= Seq::<Seq<char>>::empty());
    assert(msgs.deep_view() =~= Seq::<Seq<char>>::empty());
    while k < f.keys.len()
        invariant
            0 <= k <= f.keys@.len(),
            kv == f.keys.deep_view(),
            msgs.deep_view() == top_key_messages(kv.take(k as int)),
            done@.len() == 0,
        decreases f.keys@.len() - k,
    {
        let key = f.keys[k].as_str();
        assert(kv[k as int] == key@);
        assert(kv.take(k + 1).drop_last() =~= kv.take(k as int));
        if !(str_eq(key, "version") || str_eq(key, "rules")) {
            let mut m = to_owned("top-level prh key `");
            push_str(&mut m, key);
            push_str(&mut m, "` is not translated");
            push_message(&mut msgs, m);
        }
        k += 1;
    }
    assert(kv.take(kv.len() as int) =~= kv);
    assert(pairs_view(done@) =~= Seq::<(Seq<char>, Seq<char>)>::empty());
    let mut i: usize = 0;
    while i < rules.len()
        invariant
            0 <= i <= rules@.len(),
            kv == f.keys.deep_view(),
            (pairs_view(done@), msgs.deep_view()) == rules_upto(kv, rules@, i as int),
        decreases rules@.len() - i,
    {
        add_rule(&rules[i], i, &mut done, &mut msgs);
        i += 1;
    }
    if done.len() == 0 {
        return Err(to_owned("no prh rules could be translated"));
    }
    Ok(PrhTranslation { rules: done, untranslated: msgs })
}

/// `p` is the document value `x` where a pattern may stand: a string, an
/// array (each item's text where it is a string), or anything else.
pub open spec fn prh_value_read(x: ConfigValue, p: PrhValue) -> bool {
    match x {
        ConfigValue::Str(s) => p matches PrhValue::Text(t) && t@ == s@,
        ConfigValue::Array(items) => p matches PrhValue::List(l) && l@.len() == items@.len() && forall|i: int|
            0 <= i < l@.len() ==> opt_text(#[trigger] l@[i]) == text_of(Some(items@[i])),
        _ => p is Other,
    }
}

pub open spec fn opt_prh_value_read(x: Option<ConfigValue>, p: Option<PrhValue>) -> bool {
    match x {
        None => p is None,
        Some(y) => p matches Some(q) && prh_value_read(y, q),
    }
}

/// `r` is the prh rule `item`: its keys, its `expected` text, and its
/// `patterns` and `pattern` values.
pub open spec fn prh_rule_read(item: ConfigValue, r: PrhRule) -> bool {
    &&& r.keys.deep_view() == keys_of(item)
    &&& opt_text(r.expected) == text_of(value_at(item, "expected"@))
    &&& opt_prh_value_read(value_at(item, "patterns"@), r.patterns)
    &&& opt_prh_value_read(value_at(item, "pattern"@), r.pattern)
}

/// `f` is the prh document `v`: its top-level keys, and its rules where
/// `rules` is an array.
pub open spec fn prh_read(v: ConfigValue, f: PrhFile) -> bool {
    &&& f.keys.deep_view() == keys_of(v)
    &&& match value_at(v, "rules"@) {
        Some(ConfigValue::Array(items)) => f.rules matches Some(rs) && rs@.len() == items@.len() && forall|i: int|
            0 <= i < rs@.len() ==> prh_rule_read(items@[i], #[trigger] rs@[i]),
        _ => f.rules is None,
    }
}

fn prh_value_of(x: &ConfigValue) -> (p: PrhValue)
    ensures
        prh_value_read(*x, p),
{
    match x {
        ConfigValue::Str(s) => PrhValue::Text(to_owned(s.as_str())),
        ConfigValue::Array(items) => {
            let mut l: Vec<Option<String>> = Vec::new();
            let mut i: usize = 0;
            while i < items.len()
                invariant
                    i <= items@.len(),
                    l@.len() == i,
                    forall|k: int| 0 <= k < i ==> opt_text(#[trigger] l@[k]) == text_of(Some(items@[k])),
                decreases items@.len() - i,
            {
                l.push(string_value(Some(&items[i])));
                i += 1;
            }
            PrhValue::List(l)
        },
        _ => PrhValue::Other,
    }
}

fn opt_prh_value_of(x: Option<&ConfigValue>) -> (p: Option<PrhValue>)
    ensures
        opt_prh_value_read(
            match x {
                Some(y) => Some(*y),
                None => None,
            },
            p,
        ),
{
    match x {
        Some(y) => Some(prh_value_of(y)),
        None => None,
    }
}

/// The prh file a document holds.
pub fn prh_file_of(v: &ConfigValue) -> (f: PrhFile)
    ensures
        prh_read(*v, f),
{
    proof {
        reveal_strlit("rules");
        reveal_strlit("expected");
        reveal_strlit("patterns");
        reveal_strlit("pattern");
    }
    let keys = table_keys(v);
    let rules = match get_value(v, "rules") {
        Some(ConfigValue::Array(items)) => {
            let mut rs: Vec<PrhRule> = Vec::new();
            let mut i: usize = 0;
            while i < items.len()
                invariant
                    i <= items@.len(),
                    rs@.len() == i,
                    forall|k: int| 0 <= k < i ==> prh_rule_read(items@[k], #[trigger] rs@[k]),
                decreases items@.len() - i,
            {
                let item = &items[i];
                let rule = PrhRule {
                    keys: table_keys(item),
                    expected: string_value(get_value(item, "expected")),
                    patterns: opt_prh_value_of(get_value(item, "patterns")),
                    pattern: opt_prh_value_of(get_value(item, "pattern")),
                };
                rs.push(rule);
                i += 1;
            }
            Some(rs)
        },
        _ => None,
    };
    PrhFile { keys, rules }
}

/// Translate a prh file from its YAML text: a text that is no YAML
/// document gives the parser's error; otherwise the translation of the file
/// it holds, as `translate_prh` makes it.
pub fn import_prh_text(text: &str) -> (r: Result<PrhTranslation, String>)
    ensures
        match yaml_value(text@) {
            Err(e) => r is Err && r->Err_0@ == e,
            Ok(v) => exists|f: PrhFile|
                #[trigger] prh_read(v, f) && match r {
                    Ok(t) => spec_translate_prh(f) == Ok::<PrhState, Seq<char>>(translation_view(t)),
                    Err(e) => spec_translate_prh(f) == Err::<PrhState, Seq<char>>(e@),
                },
        },
{
    match parse_yaml(text) {
        Err(e) => Err(e),
        Ok(v) => {
            let f = prh_file_of(&v);
            let r = translate_prh(&f);
            assert(prh_read(v, f));
            r
        },
    }
}

// ---------------------------------------------------------------------------
// typos configuration

/// `files.extend-exclude` of a typos configuration: a string, an array
/// (each entry a string or not), or anything else.
pub enum TyposExclude {
    Text(String),
    List(Vec<Option<String>>),
    Other,
}

/// A parsed `_typos.toml`: its top-level keys, the keys of its `default`
/// and `files` tables (where they are tables), `default.extend-words`
/// (each word with its replacement where that is a string) where it is a
/// table, and `files.extend-exclude` where present.
pub struct TyposFile {
    pub keys: Vec<String>,
    pub default_keys: Option<Vec<String>>,
    pub extend_words: Option<Vec<(String, Option<String>)>>,
    pub files_keys: Option<Vec<String>>,
    pub extend_exclude: Option<TyposExclude>,
}

/// What a typos configuration becomes: corrections to set, paths to add to
/// `files.exclude` (where `files.extend-exclude` is present), and what was
/// not translated.
pub struct TyposImport {
    pub corrections: Vec<(String, String)>,
    pub exclude: Option<Vec<String>>,
    pub untranslated: Vec<String>,
}

/// Corrections and messages of `default.extend-words`.
pub open spec fn extend_words_plan(ws: Seq<(Seq<char>, Option<Seq<char>>)>) -> (Seq<(Seq<char>, Seq<char>)>, Seq<Seq<char>>)
    decreases ws.len(),
{
    if ws.len() == 0 {
        (Seq::empty(), Seq::empty())
    } else {
        let (cs, ms) = extend_words_plan(ws.drop_last());
        let (w, r) = ws.last();
        match r {
            Some(t) => (cs.push((w, t)), ms),
            None => (cs, ms.push("default.extend-words."@ + w + " is not a string"@)),
        }
    }
}

/// Paths and messages of an `extend-exclude` array.
pub open spec fn exclude_list_plan(items: Seq<Option<Seq<char>>>) -> (Seq<Seq<char>>, Seq<Seq<char>>)
    decreases items.len(),
{
    if items.len() == 0 {
        (Seq::empty(), Seq::empty())
    } else {
        let (ps, ms) = exclude_list_plan(items.drop_last());
        match items.last() {
            Some(p) => (ps.push(p), ms),
            None => (ps, ms.push("files.extend-exclude contains a non-string entry"@)),
        }
    }
}

/// Messages for the keys of `keys` not in `allowed`, each as
/// `prefix + key + suffix`.
pub open spec fn key_messages(keys: Seq<Seq<char>>, allowed: Seq<Seq<char>>, prefix: Seq<char>, suffix: Seq<char>) -> Seq<Seq<char>>
    decreases keys.len(),
{
    if keys.len() == 0 {
        Seq::empty()
    } else {
        let m = key_messages(keys.drop_last(), allowed, prefix, suffix);
        if allowed.contains(keys.last()) {
            m
        } else {
            m.push(prefix + keys.last() + suffix)
        }
    }
}

pub open spec fn opt_keys(k: Option<Vec<String>>) -> Seq<Seq<char>> {
    match k {
        Some(v) => v.deep_view(),
        None => Seq::empty(),
    }
}

pub open spec fn word_pairs_view(v: Seq<(String, Option<String>)>) -> Seq<(Seq<char>, Option<Seq<char>>)> {
    v.map_values(|p: (String, Option<String>)| (p.0@, opt_text(p.1)))
}

/// Corrections, exclusions and messages of a typos configuration.
pub open spec fn spec_typos_plan(f: TyposFile) -> (Seq<(Seq<char>, Seq<char>)>, Option<Seq<Seq<char>>>, Seq<Seq<char>>) {
    let (cs, m1) = match f.extend_words {
        Some(ws) => extend_words_plan(word_pairs_view(ws@)),
        None => (Seq::empty(), Seq::empty()),
    };
    let (ex, m2): (Option<Seq<Seq<char>>>, Seq<Seq<char>>) = match f.extend_exclude {
        None => (None, Seq::empty()),
        Some(TyposExclude::Text(p)) => (Some(seq![p@]), Seq::empty()),
        Some(TyposExclude::List(items)) => {
            let (ps, ms) = exclude_list_plan(list_view(items@));
            (Some(ps), ms)
        },
        Some(TyposExclude::Other) => (Some(Seq::empty()), seq!["files.extend-exclude is not a string or array"@]),
    };
    let m3 = key_messages(f.keys.deep_view(), seq!["default"@, "files"@], "top-level typos key `"@, "` is not translated"@);
    let m4 = key_messages(opt_keys(f.default_keys), seq!["extend-words"@], "typos key `default."@, "` is not translated"@);
    let m5 = key_messages(opt_keys(f.files_keys), seq!["extend-exclude"@], "typos key `files."@, "` is not translated"@);
    (cs, ex, m1 + m2 + m3 + m4 + m5)
}

pub open spec fn typos_import_view(t: TyposImport) -> (Seq<(Seq<char>, Seq<char>)>, Option<Seq<Seq<char>>>, Seq<Seq<char>>) {
    (
        pairs_view(t.corrections@),
        match t.exclude {
            Some(v) => Some(v.deep_view()),
            None => None,
        },
        t.untranslated.deep_view(),
    )
}

/// Append a message for each of `keys` not in `allowed`.
fn add_key_messages(msgs: &mut Vec<String>, keys: &Vec<String>, allowed: &Vec<&str>, prefix: &str, suffix: &str)
    ensures
        final(msgs).deep_view() == old(msgs).deep_view() + key_messages(
            keys.deep_view(),
            allowed@.map_values(|a: &str| a@),
            prefix@,
            suffix@,
        ),
{
    let ghost kv = keys.deep_view();
    let ghost av = allowed@.map_values(|a: &str| a@);
    let ghost m0 = msgs.deep_view();
    let mut k: usize = 0;
    assert(kv.take(0) =~= Seq::<Seq<char>>::empty());
    assert(m0 + key_messages(kv.take(0), av, prefix@, suffix@) =~= m0);
    while k < keys.len()
        invariant
            0 <= k <= keys@.len(),
            kv == keys.deep_view(),
            av == allowed@.map_values(|a: &str| a@),
            msgs.deep_view() == m0 + key_messages(kv.take(k as int), av, prefix@, suffix@),
        decreases keys@.len() - k,
    {
        let key = keys[k].as_str();
        assert(kv[k as int] == key@);
        assert(kv.take(k + 1).drop_last() =~= kv.take(k as int));
        let mut found = false;
        let mut a: usize = 0;
        while a < allowed.len()
            invariant
                0 <= a <= allowed@.len(),
                av == allowed@.map_values(|a: &str| a@),
                found == exists|q: int| 0 <= q < a && av[q] == key@,
            decreases allowed@.len() - a,
        {
            if str_eq(allowed[a], key) {
                found = true;
            }
            proof {
                if found && !(exists|q: int| 0 <= q < a && av[q] == key@) {
                    assert(av[a as int] == key@);
                }
            }
            a += 1;
        }
        if !found {
            let mut m = to_owned(prefix);
            push_str(&mut m, key);
            push_str(&mut m, suffix);
            let ghost b = msgs.deep_view();
            msgs.push(m);
            assert(msgs.deep_view() =~= b.push(m@));
        }
        assert(msgs.deep_view() =~= m0 + key_messages(kv.take(k + 1), av, prefix@, suffix@));
        k += 1;
    }
    assert(kv.take(kv.len() as int) =~= kv);
}

fn copy_keys(k: &Option<Vec<String>>) -> (r: Vec<String>)
    ensures
        r.deep_view() == opt_keys(*k),
{
    let mut out: Vec<String> = Vec::new();
    match k {
        None => {
            assert(out.deep_view() =~= Seq::<Seq<char>>::empty());
        },
        Some(v) => {
            let mut i: usize = 0;
            while i < v.len()
                invariant
                    0 <= i <= v@.len(),
                    out.deep_view() == v.deep_view().take(i as int),
                decreases v@.len() - i,
            {
                let ghost b = out.deep_view();
                out.push(to_owned(v[i].as_str()));
                assert(out.deep_view() =~= b.push(v@[i as int]@));
                assert(v.deep_view().take(i + 1) =~= v.deep_view().take(i as int).push(v@[i as int]@));
                i += 1;
            }
            assert(v.deep_view().take(v@.len() as int) =~= v.deep_view());
        },
    }
    out
}

/// Translate a typos configuration: string `default.extend-words` become
/// corrections, `files.extend-exclude` becomes excluded paths, and every
/// other key is reported.
pub fn plan_typos(f: &TyposFile) -> (r: TyposImport)
    ensures
        typos_import_view(r) == spec_typos_plan(*f),
{
    let mut corrections: Vec<(String, String)> = Vec::new();
    let mut msgs: Vec<String> = Vec::new();
    match &f.extend_words {
        None => {
            assert(pairs_view(corrections@) =~= Seq::<(Seq<char>, Seq<char>)>::empty());
            assert(msgs.deep_view() =~= Seq::<Seq<char>>::empty());
        },
        Some(ws) => {
            let ghost wv = word_pairs_view(ws@);
            let mut i: usize = 0;
            assert(wv.take(0) =~= Seq::<(Seq<char>, Option<Seq<char>>)>::empty());
            assert(pairs_view(corrections@) =~= Seq::<(Seq<char>, Seq<char>)>::empty());
            assert(msgs.deep_view() =~= Seq::<Seq<char>>::empty());
            while i < ws.len()
                invariant
                    0 <= i <= ws@.len(),
                    wv == word_pairs_view(ws@),
                    (pairs_view(corrections@), msgs.deep_view()) == extend_words_plan(wv.take(i as int)),
                decreases ws@.len() - i,
            {
                let (w, r) = &ws[i];
                assert(wv[i as int] == (w@, opt_text(*r)));
                assert(wv.take(i + 1).drop_last() =~= wv.take(i as int));
                match r {
                    Some(t) => {
                        let ghost b = pairs_view(corrections@);
                        let pair = (to_owned(w.as_str()), to_owned(t.as_str()));
                        let ghost pv = (pair.0@, pair.1@);
                        corrections.push(pair);
                        assert(pairs_view(corrections@) =~= b.push(pv));
                    },
                    None => {
                        let mut m = to_owned("default.extend-words.");
                        push_str(&mut m, w.as_str());
                        push_str(&mut m, " is not a string");
                        push_message(&mut msgs, m);
                    },
                }
                i += 1;
            }
            assert(wv.take(wv.len() as int) =~= wv);
        },
    }
    let ghost m1 = msgs.deep_view();
    let exclude: Option<Vec<String>> = match &f.extend_exclude {
        None => None,
        Some(TyposExclude::Text(p)) => {
            let mut v: Vec<String> = Vec::new();
            v.push(to_owned(p.as_str()));
            assert(v.deep_view() =~= seq![p@]);
            Some(v)
        },
        Some(TyposExclude::List(items)) => {
            let ghost lv = list_view(items@);
            let mut v: Vec<String> = Vec::new();
            let mut j: usize = 0;
            assert(lv.take(0) =~= Seq::<Option<Seq<char>>>::empty());
            assert(v.deep_view() =~= Seq::<Seq<char>>::empty());
            assert(m1 + exclude_list_plan(lv.take(0)).1 =~= m1);
            while j < items.len()
                invariant
                    0 <= j <= items@.len(),
                    lv == list_view(items@),
                    v.deep_view() == exclude_list_plan(lv.take(j as int)).0,
                    msgs.deep_view() == m1 + exclude_list_plan(lv.take(j as int)).1,
                decreases items@.len() - j,
            {
                assert(lv[j as int] == opt_text(items@[j as int]));
                assert(lv.take(j + 1).drop_last() =~= lv.take(j as int));
                match &items[j] {
                    Some(p) => {
                        let ghost b = v.deep_view();
                        v.push(to_owned(p.as_str()));
                        assert(v.deep_view() =~= b.push(p@));
                    },
                    None => {
                        push_message(&mut msgs, to_owned("files.extend-exclude contains a non-string entry"));
                        assert(msgs.deep_view() =~= m1 + exclude_list_plan(lv.take(j + 1)).1);
                    },
                }
                j += 1;
            }
            assert(lv.take(lv.len() as int) =~= lv);
            Some(v)
        },
        Some(TyposExclude::Other) => {
            push_message(&mut msgs, to_owned("files.extend-exclude is not a string or array"));
            let v: Vec<String> = Vec::new();
            assert(v.deep_view() =~= Seq::<Seq<char>>::empty());
            Some(v)
        },
    };
    let ghost m2 = msgs.deep_view();
    let top = vec!["default", "files"];
    assert(top@.map_values(|a: &str| a@) =~= seq!["default"@, "files"@]);
    add_key_messages(&mut msgs, &f.keys, &top, "top-level typos key `", "` is not translated");
    let dk = copy_keys(&f.default_keys);
    let d_allowed = vec!["extend-words"];
    assert(d_allowed@.map_values(|a: &str| a@) =~= seq!["extend-words"@]);
    add_key_messages(&mut msgs, &dk, &d_allowed, "typos key `default.", "` is not translated");
    let fk = copy_keys(&f.files_keys);
    let f_allowed = vec!["extend-exclude"];
    assert(f_allowed@.map_values(|a: &str| a@) =~= seq!["extend-exclude"@]);
    add_key_messages(&mut msgs, &fk, &f_allowed, "typos key `files.", "` is not translated");
    let r = TyposImport { corrections, exclude, untranslated: msgs };
    proof {
        let sp = spec_typos_plan(*f);
        assert(typos_import_view(r).0 == sp.0);
        assert(typos_import_view(r).1 == sp.1);
        assert(typos_import_view(r).2 =~= sp.2);
    }
    r
}

/// The keys of a document value where it is a table.
pub open spec fn table_keys_read(x: Option<ConfigValue>, k: Option<Vec<String>>) -> bool {
    match x {
        Some(ConfigValue::Table(_)) => k matches Some(ks) && ks.deep_view() == keys_of(x->0),
        _ => k is None,
    }
}

/// `f` is the `_typos.toml` document `v`: its top-level keys, the keys of
/// its `default` and `files` tables, `default.extend-words` (each word with
/// its replacement text) and `files.extend-exclude`.
pub open spec fn typos_read(v: ConfigValue, f: TyposFile) -> bool {
    let default = value_at(v, "default"@);
    let files = value_at(v, "files"@);
    let words = match default {
        Some(d) => value_at(d, "extend-words"@),
        None => None,
    };
    let exclude = match files {
        Some(x) => value_at(x, "extend-exclude"@),
        None => None,
    };
    &&& f.keys.deep_view() == keys_of(v)
    &&& table_keys_read(default, f.default_keys)
    &&& table_keys_read(files, f.files_keys)
    &&& match words {
        Some(ConfigValue::Table(es)) => f.extend_words matches Some(ws) && ws@.len() == es@.len() && forall|i: int|
            0 <= i < ws@.len() ==> (#[trigger] ws@[i]).0@ == es@[i].0@ && opt_text(ws@[i].1) == text_of(
                Some(es@[i].1),
            ),
        _ => f.extend_words is None,
    }
    &&& match exclude {
        None => f.extend_exclude is None,
        Some(ConfigValue::Str(s)) => f.extend_exclude matches Some(TyposExclude::Text(t)) && t@ == s@,
        Some(ConfigValue::Array(items)) => f.extend_exclude matches Some(TyposExclude::List(l)) && l@.len()
            == items@.len() && forall|i: int|
            0 <= i < l@.len() ==> opt_text(#[trigger] l@[i]) == text_of(Some(items@[i])),
        Some(_) => f.extend_exclude matches Some(TyposExclude::Other),
    }
}

fn table_keys_opt(x: Option<&ConfigValue>) -> (k: Option<Vec<String>>)
    ensures
        table_keys_read(
            match x {
                Some(y) => Some(*y),
                None => None,
            },
            k,
        ),
{
    match x {
        Some(y) => match y {
            ConfigValue::Table(_) => Some(table_keys(y)),
            _ => None,
        },
        None => None,
    }
}

/// The `_typos.toml` configuration a document holds.
pub fn typos_file_of(v: &ConfigValue) -> (f: TyposFile)
    ensures
        typos_read(*v, f),
{
    proof {
        reveal_strlit("default");
        reveal_strlit("files");
        reveal_strlit("extend-words");
        reveal_strlit("extend-exclude");
    }
    let default = get_value(v, "default");
    let files = get_value(v, "files");
    let words = match default {
        Some(d) => get_value(d, "extend-words"),
        None => None,
    };
    let exclude = match files {
        Some(x) => get_value(x, "extend-exclude"),
        None => None,
    };
    let extend_words = match words {
        Some(ConfigValue::Table(es)) => {
            let mut ws: Vec<(String, Option<String>)> = Vec::new();
            let mut i: usize = 0;
            while i < es.len()
                invariant
                    i <= es@.len(),
                    ws@.len() == i,
                    forall|k: int|
                        0 <= k < i ==> (#[trigger] ws@[k]).0@ == es@[k].0@ && opt_text(ws@[k].1) == text_of(
                            Some(es@[k].1),
                        ),
                decreases es@.len() - i,
            {
                ws.push((to_owned(es[i].0.as_str()), string_value(Some(&es[i].1))));
                i += 1;
            }
            Some(ws)
        },
        _ => None,
    };
    let extend_exclude = match exclude {
        None => None,
        Some(ConfigValue::Str(s)) => Some(TyposExclude::Text(to_owned(s.as_str()))),
        Some(ConfigValue::Array(items)) => {
            let mut l: Vec<Option<String>> = Vec::new();
            let mut i: usize = 0;
            while i < items.len()
                invariant
                    i <= items@.len(),
                    l@.len() == i,
                    forall|k: int| 0 <= k < i ==> opt_text(#[trigger] l@[k]) == text_of(Some(items@[k])),
                decreases items@.len() - i,
            {
                l.push(string_value(Some(&items[i])));
                i += 1;
            }
            Some(TyposExclude::List(l))
        },
        Some(_) => Some(TyposExclude::Other),
    };
    TyposFile {
        keys: table_keys(v),
        default_keys: table_keys_opt(default),
        extend_words,
        files_keys: table_keys_opt(files),
        extend_exclude,
    }
}

/// Plan the import of a `_typos.toml` from its text: a text that is no
/// TOML document gives the parser's error; otherwise the plan for the
/// configuration it holds, as `plan_typos` makes it.
pub fn import_typos_text(text: &str) -> (r: Result<TyposImport, String>)
    ensures
        match toml_value(text@) {
            Err(e) => r is Err && r->Err_0@ == e,
            Ok(v) => exists|f: TyposFile|
                #[trigger] typos_read(v, f) && r is Ok && typos_import_view(r->Ok_0) == spec_typos_plan(f),
        },
{
    match parse_toml(text) {
        Err(e) => Err(e),
        Ok(v) => {
            let f = typos_file_of(&v);
            let plan = plan_typos(&f);
            assert(typos_read(v, f));
            Ok(plan)
        },
    }
}

// ---------------------------------------------------------------------------
// cSpell configuration

/// A parsed cSpell configuration: its top-level keys and the lists read
/// from it.
pub struct CspellFile {
    pub keys: Vec<String>,
    pub words: Vec<String>,
    pub ignore_words: Vec<String>,
    pub ignore_paths: Vec<String>,
    pub dictionaries: Vec<String>,
}

/// What a cSpell configuration becomes: registry references for its
/// dictionaries, the project word file with its words added, and what was
/// not translated. `ignorePaths` and `ignoreWords` carry over as they are.
pub struct CspellImport {
    pub registry: Vec<String>,
    pub words_text: String,
    pub untranslated: Vec<String>,
}

pub open spec fn cspell_keys() -> Seq<Seq<char>> {
    seq!["$schema"@, "version"@, "words"@, "ignoreWords"@, "ignorePaths"@, "dictionaries"@]
}

/// Registry references and messages for cSpell dictionaries.
pub open spec fn dictionary_plan(ds: Seq<Seq<char>>) -> (Seq<Seq<char>>, Seq<Seq<char>>)
    decreases ds.len(),
{
    if ds.len() == 0 {
        (Seq::empty(), Seq::empty())
    } else {
        let (rs, ms) = dictionary_plan(ds.drop_last());
        let d = ds.last();
        match spec_cspell_dictionary(d) {
            Some(n) => (rs.push("registry:"@ + n), ms),
            None => (rs, ms.push("cSpell dictionary `"@ + d + "` has no ayame-spell registry mapping"@)),
        }
    }
}

/// Translate a cSpell configuration, given the text of the project word
/// file (empty where there is none).
pub fn plan_cspell(f: &CspellFile, existing_words: &str) -> (r: CspellImport)
    ensures
        r.untranslated.deep_view() == key_messages(
            f.keys.deep_view(),
            cspell_keys(),
            "top-level cSpell key `"@,
            "` is not translated"@,
        ) + dictionary_plan(f.dictionaries.deep_view()).1,
        r.registry.deep_view() == dictionary_plan(f.dictionaries.deep_view()).0,
        exists|ws: Seq<Seq<char>>|
            crate::words::strictly_ordered(ws) && ws.to_set() == crate::words::words_between(
                crate::text::split_lines(existing_words@),
                0,
                crate::text::split_lines(existing_words@).len() as int,
            ).union(crate::words::given_words(f.words.deep_view(), f.words@.len() as int))
                && r.words_text@ == crate::words::rendered_words(ws),
{
    let mut msgs: Vec<String> = Vec::new();
    let supported = vec!["$schema", "version", "words", "ignoreWords", "ignorePaths", "dictionaries"];
    assert(supported@.map_values(|a: &str| a@) =~= cspell_keys());
    assert(msgs.deep_view() =~= Seq::<Seq<char>>::empty());
    add_key_messages(&mut msgs, &f.keys, &supported, "top-level cSpell key `", "` is not translated");
    let ghost m1 = msgs.deep_view();
    let ghost dv = f.dictionaries.deep_view();
    let mut registry: Vec<String> = Vec::new();
    let mut i: usize = 0;
    assert(dv.take(0) =~= Seq::<Seq<char>>::empty());
    assert(registry.deep_view() =~= Seq::<Seq<char>>::empty());
    assert(m1 + dictionary_plan(dv.take(0)).1 =~= m1);
    while i < f.dictionaries.len()
        invariant
            0 <= i <= f.dictionaries@.len(),
            dv == f.dictionaries.deep_view(),
            registry.deep_view() == dictionary_plan(dv.take(i as int)).0,
            msgs.deep_view() == m1 + dictionary_plan(dv.take(i as int)).1,
        decreases f.dictionaries@.len() - i,
    {
        let d = f.dictionaries[i].as_str();
        assert(dv[i as int] == d@);
        assert(dv.take(i + 1).drop_last() =~= dv.take(i as int));
        match cspell_dictionary(d) {
            Some(n) => {
                let mut s = to_owned("registry:");
                push_str(&mut s, n);
                let ghost b = registry.deep_view();
                registry.push(s);
                assert(registry.deep_view() =~= b.push(s@));
            },
            None => {
                let mut m = to_owned("cSpell dictionary `");
                push_str(&mut m, d);
                push_str(&mut m, "` has no ayame-spell registry mapping");
                push_message(&mut msgs, m);
                assert(msgs.deep_view() =~= m1 + dictionary_plan(dv.take(i + 1)).1);
            },
        }
        i += 1;
    }
    assert(dv.take(dv.len() as int) =~= dv);
    let words_text = crate::words::render_word_set(existing_words, &f.words);
    CspellImport { registry, words_text, untranslated: msgs }
}

/// Whether a list field of a cSpell configuration reads: absent, or an
/// array of strings.
pub open spec fn string_list_ok(x: Option<ConfigValue>) -> bool {
    match x {
        None => true,
        Some(ConfigValue::Array(items)) => forall|i: int| 0 <= i < items@.len() ==> (#[trigger] items@[i]) is Str,
        _ => false,
    }
}

/// `out` is the list field `x`: its strings in order, none where absent.
pub open spec fn string_list_read(x: Option<ConfigValue>, out: Vec<String>) -> bool {
    match x {
        Some(ConfigValue::Array(items)) => out@.len() == items@.len() && forall|i: int|
            0 <= i < out@.len() ==> text_of(Some(items@[i])) == Some((#[trigger] out@[i])@),
        _ => out@.len() == 0,
    }
}

/// Whether a cSpell document reads as its configuration: a table whose
/// `words`, `ignoreWords`, `ignorePaths` and `dictionaries` are absent or
/// arrays of strings.
pub open spec fn cspell_ok(v: ConfigValue) -> bool {
    &&& v is Table
    &&& string_list_ok(value_at(v, "words"@))
    &&& string_list_ok(value_at(v, "ignoreWords"@))
    &&& string_list_ok(value_at(v, "ignorePaths"@))
    &&& string_list_ok(value_at(v, "dictionaries"@))
}

/// `f` is the cSpell document `v`: its top-level keys and its lists.
pub open spec fn cspell_read(v: ConfigValue, f: CspellFile) -> bool {
    &&& f.keys.deep_view() == keys_of(v)
    &&& string_list_read(value_at(v, "words"@), f.words)
    &&& string_list_read(value_at(v, "ignoreWords"@), f.ignore_words)
    &&& string_list_read(value_at(v, "ignorePaths"@), f.ignore_paths)
    &&& string_list_read(value_at(v, "dictionaries"@), f.dictionaries)
}

fn string_list(x: Option<&ConfigValue>) -> (r: Option<Vec<String>>)
    ensures
        match r {
            Some(out) => string_list_ok(
                match x {
                    Some(y) => Some(*y),
                    None => None,
                },
            ) && string_list_read(
                match x {
                    Some(y) => Some(*y),
                    None => None,
                },
                out,
            ),
            None => !string_list_ok(
                match x {
                    Some(y) => Some(*y),
                    None => None,
                },
            ),
        },
{
    match x {
        None => Some(Vec::new()),
        Some(ConfigValue::Array(items)) => {
            let mut out: Vec<String> = Vec::new();
            let mut i: usize = 0;
            while i < items.len()
                invariant
                    i <= items@.len(),
                    out@.len() == i,
                    forall|k: int| 0 <= k < i ==> (#[trigger] items@[k]) is Str,
                    forall|k: int| 0 <= k < i ==> text_of(Some(items@[k])) == Some((#[trigger] out@[k])@),
                    match x {
                        Some(y) => *y == ConfigValue::Array(*items),
                        None => false,
                    },
                decreases items@.len() - i,
            {
                match &items[i] {
                    ConfigValue::Str(s) => out.push(to_owned(s.as_str())),
                    _ => {
                        assert(!(items@[i as int] is Str));
                        return None;
                    },
                }
                i += 1;
            }
            Some(out)
        },
        Some(_) => None,
    }
}

/// The cSpell configuration a document holds, if it reads as one.
pub fn cspell_file_of(v: &ConfigValue) -> (r: Option<CspellFile>)
    ensures
        r is Some <==> cspell_ok(*v),
        r matches Some(f) ==> cspell_read(*v, f),
{
    proof {
        reveal_strlit("words");
        reveal_strlit("ignoreWords");
        reveal_strlit("ignorePaths");
        reveal_strlit("dictionaries");
    }
    match v {
        ConfigValue::Table(_) => {},
        _ => return None,
    }
    let words = string_list(get_value(v, "words"));
    let ignore_words = string_list(get_value(v, "ignoreWords"));
    let ignore_paths = string_list(get_value(v, "ignorePaths"));
    let dictionaries = string_list(get_value(v, "dictionaries"));
    match (words, ignore_words, ignore_paths, dictionaries) {
        (Some(words), Some(ignore_words), Some(ignore_paths), Some(dictionaries)) => Some(
            CspellFile { keys: table_keys(v), words, ignore_words, ignore_paths, dictionaries },
        ),
        _ => None,
    }
}

/// Read a cSpell configuration from its text, YAML where `yaml` holds and
/// JSON otherwise: a text that does not parse gives the parser's error, one
/// that does not read as a configuration an error of its own.
pub fn read_cspell_text(text: &str, yaml: bool) -> (r: Result<CspellFile, String>)
    ensures
        match (if yaml {
            yaml_value(text@)
        } else {
            json_value(text@)
        }) {
            Err(e) => r is Err && r->Err_0@ == e,
            Ok(v) => (r is Ok <==> cspell_ok(v)) && (r matches Ok(f) ==> cspell_read(v, f)),
        },
{
    let parsed = if yaml {
        parse_yaml(text)
    } else {
        parse_json(text)
    };
    match parsed {
        Err(e) => Err(e),
        Ok(v) => match cspell_file_of(&v) {
            Some(f) => Ok(f),
            None => Err(
                to_owned(
                    "a cSpell configuration is a table whose words, ignoreWords, ignorePaths and dictionaries are lists of strings",
                ),
            ),
        },
    }
}

/// The values to add to a config array holding `existing`: each of
/// `values` not already there, once.
pub open spec fn spec_values_to_add(existing: Seq<Seq<char>>, values: Seq<Seq<char>>) -> Seq<Seq<char>>
    decreases values.len(),
{
    if values.len() == 0 {
        Seq::empty()
    } else {
        let r = spec_values_to_add(existing, values.drop_last());
        let v = values.last();
        if existing.contains(v) || r.contains(v) {
            r
        } else {
            r.push(v)
        }
    }
}

/// The values to add to a config array holding `existing`: each of
/// `values` not already there, once, in order.
pub fn values_to_add(existing: &Vec<String>, values: &Vec<String>) -> (r: Vec<String>)
    ensures
        r.deep_view() == spec_values_to_add(existing.deep_view(), values.deep_view()),
{
    let ghost ev = existing.deep_view();
    let ghost vv = values.deep_view();
    let mut out: Vec<String> = Vec::new();
    let mut i: usize = 0;
    assert(vv.take(0) =~= Seq::<Seq<char>>::empty());
    assert(out.deep_view() =~= Seq::<Seq<char>>::empty());
    while i < values.len()
        invariant
            0 <= i <= values@.len(),
            ev == existing.deep_view(),
            vv == values.deep_view(),
            out.deep_view() == spec_values_to_add(ev, vv.take(i as int)),
        decreases values@.len() - i,
    {
        let v = values[i].as_str();
        assert(vv[i as int] == v@);
        assert(vv.take(i + 1).drop_last() =~= vv.take(i as int));
        let mut present = false;
        let mut j: usize = 0;
        while j < existing.len()
            invariant
                0 <= j <= existing@.len(),
                ev == existing.deep_view(),
                present == exists|q: int| 0 <= q < j && ev[q] == v@,
            decreases existing@.len() - j,
        {
            assert(ev[j as int] == existing@[j as int]@);
            if str_eq(existing[j].as_str(), v) {
                present = true;
            }
            proof {
                if present && !(exists|q: int| 0 <= q < j && ev[q] == v@) {
                    assert(ev[j as int] == v@);
                }
            }
            j += 1;
        }
        let ghost ov = out.deep_view();
        let mut seen = false;
        let mut j: usize = 0;
        while j < out.len()
            invariant
                0 <= j <= out@.len(),
                ov == out.deep_view(),
                seen == exists|q: int| 0 <= q < j && ov[q] == v@,
            decreases out@.len() - j,
        {
            assert(ov[j as int] == out@[j as int]@);
            if str_eq(out[j].as_str(), v) {
                seen = true;
            }
            proof {
                if seen && !(exists|q: int| 0 <= q < j && ov[q] == v@) {
                    assert(ov[j as int] == v@);
                }
            }
            j += 1;
        }
        if !present && !seen {
            out.push(to_owned(v));
            assert(out.deep_view() =~= ov.push(v@));
        }
        i += 1;
    }
    assert(vv.take(vv.len() as int) =~= vv);
    out
}

} // verus!
