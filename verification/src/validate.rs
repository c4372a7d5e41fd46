//! Validation of configuration keys, with the nearest valid key suggested
//! for an unknown one.
use vstd::prelude::*;

use crate::dictionary::lev;
use crate::text::{chars_of, push_str, str_eq, to_owned};

verus! {

/// The shape of a parsed document: tables with their keys in order,
/// arrays, strings, and other values.
pub enum ConfigValue {
    Table(Vec<(String, ConfigValue)>),
    Array(Vec<ConfigValue>),
    Str(String),
    Other,
}

pub open spec fn root_keys() -> Seq<Seq<char>> {
    seq!["check"@, "files"@, "words"@, "corrections"@, "japanese"@, "overrides"@]
}

pub open spec fn check_keys() -> Seq<Seq<char>> {
    seq!["mode"@, "locale"@, "profile"@, "min-word-len"@, "max-token-len"@]
}

pub open spec fn files_keys() -> Seq<Seq<char>> {
    seq!["exclude"@, "include-hidden"@, "max-file-size"@]
}

pub open spec fn words_keys() -> Seq<Seq<char>> {
    seq!["project"@, "ignore"@, "dictionaries"@]
}

pub open spec fn corrections_keys() -> Seq<Seq<char>> {
    seq!["builtin"@, "extra"@, "words"@]
}

pub open spec fn japanese_keys() -> Seq<Seq<char>> {
    seq![
        "enabled"@,
        "katakana-style"@,
        "variants"@,
        "variant-files"@,
        "flag-fullwidth-alnum"@,
        "flag-halfwidth-kana"@,
        "flag-compatibility"@,
        "kanji-consistency"@,
        "number-consistency"@,
        "punctuation-consistency"@,
        "fullwidth-space"@,
    ]
}

pub open spec fn override_keys() -> Seq<Seq<char>> {
    seq!["paths"@, "mode"@, "profile"@, "japanese"@]
}

/// The keys allowed in the table at `path`; `None` where keys are the
/// user's own (custom corrections and variants).
pub open spec fn allowed_keys(path: Seq<char>) -> Option<Seq<Seq<char>>> {
    if path == ""@ {
        Some(root_keys())
    } else if path == "check"@ {
        Some(check_keys())
    } else if path == "files"@ {
        Some(files_keys())
    } else if path == "words"@ {
        Some(words_keys())
    } else if path == "corrections"@ {
        Some(corrections_keys())
    } else if path == "japanese"@ {
        Some(japanese_keys())
    } else if path == "overrides"@ {
        Some(override_keys())
    } else if path == "corrections.words"@ || path == "japanese.variants"@ {
        None
    } else {
        Some(Seq::empty())
    }
}

fn keys_vec(names: &[&'static str]) -> (r: Vec<&'static str>)
    ensures
        r@ == names@,
{
    let mut r: Vec<&'static str> = Vec::new();
    let mut i: usize = 0;
    while i < names.len()
        invariant
            0 <= i <= names@.len(),
            r@ == names@.take(i as int),
        decreases names@.len() - i,
    {
        r.push(names[i]);
        assert(names@.take(i + 1) =~= names@.take(i as int).push(names@[i as int]));
        i += 1;
    }
    assert(names@.take(names@.len() as int) =~= names@);
    r
}

pub open spec fn strs(v: Seq<&'static str>) -> Seq<Seq<char>> {
    v.map_values(|s: &'static str| s@)
}

fn allowed_keys_of(path: &str) -> (r: Option<Vec<&'static str>>)
    ensures
        match r {
            Some(v) => allowed_keys(path@) == Some(strs(v@)),
            None => allowed_keys(path@) is None,
        },
{
    let r = if str_eq(path, "") {
        Some(keys_vec(&["check", "files", "words", "corrections", "japanese", "overrides"]))
    } else if str_eq(path, "check") {
        Some(keys_vec(&["mode", "locale", "profile", "min-word-len", "max-token-len"]))
    } else if str_eq(path, "files") {
        Some(keys_vec(&["exclude", "include-hidden", "max-file-size"]))
    } else if str_eq(path, "words") {
        Some(keys_vec(&["project", "ignore", "dictionaries"]))
    } else if str_eq(path, "corrections") {
        Some(keys_vec(&["builtin", "extra", "words"]))
    } else if str_eq(path, "japanese") {
        Some(
            keys_vec(
                &[
                    "enabled",
                    "katakana-style",
                    "variants",
                    "variant-files",
                    "flag-fullwidth-alnum",
                    "flag-halfwidth-kana",
                    "flag-compatibility",
                    "kanji-consistency",
                    "number-consistency",
                    "punctuation-consistency",
                    "fullwidth-space",
                ],
            ),
        )
    } else if str_eq(path, "overrides") {
        Some(keys_vec(&["paths", "mode", "profile", "japanese"]))
    } else if str_eq(path, "corrections.words") || str_eq(path, "japanese.variants") {
        None
    } else {
        Some(Vec::new())
    };
    proof {
        if r is Some {
            assert(strs(r->0@) =~= allowed_keys(path@)->0);
        }
    }
    r
}

/// `key` under the table at `path`.
pub open spec fn join_key(path: Seq<char>, key: Seq<char>) -> Seq<char> {
    if path.len() == 0 {
        key
    } else {
        path + "."@ + key
    }
}

fn join_key_of(path: &str, key: &str) -> (r: String)
    ensures
        r@ == join_key(path@, key@),
{
    let cs = chars_of(path);
    if cs.len() == 0 {
        to_owned(key)
    } else {
        let mut s = to_owned(path);
        push_str(&mut s, ".");
        push_str(&mut s, key);
        s
    }
}

/// The largest distance at which a valid key is suggested for `key`.
pub open spec fn suggestion_limit(key: Seq<char>) -> nat {
    if key.len() / 3 > 3 {
        key.len() / 3
    } else {
        3
    }
}

/// Index of the first candidate among the first `n` at the least distance
/// from `key`.
pub open spec fn nearest(key: Seq<char>, cands: Seq<Seq<char>>, n: int) -> int
    decreases n,
{
    if n <= 1 {
        0
    } else {
        let b = nearest(key, cands, n - 1);
        if lev(key, cands[n - 1]) < lev(key, cands[b]) {
            n - 1
        } else {
            b
        }
    }
}

/// The error for an unknown key: with the nearest allowed key when it is
/// close enough.
pub open spec fn unknown_key_error(path: Seq<char>, key: Seq<char>, allowed: Seq<Seq<char>>) -> Seq<char> {
    let unknown = join_key(path, key);
    if allowed.len() > 0 && lev(key, allowed[nearest(key, allowed, allowed.len() as int)]) <= suggestion_limit(key) {
        "unknown config key `"@ + unknown + "`; did you mean `"@ + join_key(path, allowed[nearest(key, allowed, allowed.len() as int)]) + "`?"@
    } else {
        "unknown config key `"@ + unknown + "`"@
    }
}

/// Every table key of a configuration value at `path` is allowed there;
/// the first unknown key, depth first in key order, is the error.
pub open spec fn validate_value(v: ConfigValue, path: Seq<char>) -> Result<(), Seq<char>>
    decreases v, 0nat,
{
    match v {
        ConfigValue::Table(es) => match allowed_keys(path) {
            Some(allowed) => validate_entries(es@, 0, path, allowed),
            None => Ok(()),
        },
        _ => Ok(()),
    }
}

pub open spec fn validate_entries(
    es: Seq<(String, ConfigValue)>,
    i: int,
    path: Seq<char>,
    allowed: Seq<Seq<char>>,
) -> Result<(), Seq<char>>
    decreases es, es.len() - i,
{
    if i < 0 || i >= es.len() {
        Ok(())
    } else {
        let key = es[i].0@;
        if !allowed.contains(key) {
            Err(unknown_key_error(path, key, allowed))
        } else {
            let child_path = join_key(path, key);
            let r = if child_path == "overrides"@ {
                match es[i].1 {
                    ConfigValue::Array(items) => validate_items(items@, 0),
                    _ => Ok(()),
                }
            } else {
                validate_value(es[i].1, child_path)
            };
            match r {
                Err(e) => Err(e),
                Ok(_) => validate_entries(es, i + 1, path, allowed),
            }
        }
    }
}

pub open spec fn validate_items(xs: Seq<ConfigValue>, i: int) -> Result<(), Seq<char>>
    decreases xs, xs.len() - i,
{
    if i < 0 || i >= xs.len() {
        Ok(())
    } else {
        match validate_value(xs[i], "overrides"@) {
            Err(e) => Err(e),
            Ok(_) => validate_items(xs, i + 1),
        }
    }
}

/// Levenshtein distance over characters.
fn char_distance(x: &Vec<char>, y: &Vec<char>) -> (d: usize)
    ensures
        d == lev(x@, y@),
{
    let ghost sa = x@;
    let ghost sb = y@;
    let m = y.len();
    let n = x.len();
    let mut prev: Vec<usize> = Vec::new();
    assert(sa.take(0).len() == 0 && sb.take(0).len() == 0);
    prev.push(0);
    let mut j: usize = 0;
    while j < m
        invariant
            m == sb.len(),
            0 <= j <= m,
            prev@.len() == j + 1,
            forall|k: int| 0 <= k <= j ==> #[trigger] prev@[k] == lev(sa.take(0), sb.take(k)),
        decreases m - j,
    {
        assert(sa.take(0).len() == 0);
        prev.push(j + 1);
        j += 1;
    }
    let mut i: usize = 0;
    while i < n
        invariant
            sa == x@,
            sb == y@,
            m == sb.len(),
            n == sa.len(),
            0 <= i <= n,
            prev@.len() == m + 1,
            forall|k: int| 0 <= k <= m ==> #[trigger] prev@[k] == lev(sa.take(i as int), sb.take(k)),
        decreases n - i,
    {
        let ca = x[i];
        let mut cur: Vec<usize> = Vec::new();
        proof {
            assert(sb.take(0).len() == 0);
        }
        cur.push(i + 1);
        let mut j: usize = 0;
        while j < m
            invariant
                sa == x@,
                sb == y@,
                m == sb.len(),
                n == sa.len(),
                0 <= i < n,
                ca == sa[i as int],
                0 <= j <= m,
                prev@.len() == m + 1,
                forall|k: int| 0 <= k <= m ==> #[trigger] prev@[k] == lev(sa.take(i as int), sb.take(k)),
                cur@.len() == j + 1,
                forall|k: int| 0 <= k <= j ==> #[trigger] cur@[k] == lev(sa.take(i + 1), sb.take(k)),
            decreases m - j,
        {
            let cb = y[j];
            proof {
                crate::dictionary::lemma_lev_bound(sa.take(i + 1), sb.take(j + 1));
                let p = sa.take(i + 1);
                let q = sb.take(j + 1);
                assert(p.drop_last() =~= sa.take(i as int));
                assert(q.drop_last() =~= sb.take(j as int));
                assert(p.last() == ca);
                assert(q.last() == cb);
            }
            let cost: u128 = if ca != cb {
                1
            } else {
                0
            };
            let sub: u128 = prev[j] as u128 + cost;
            let del: u128 = prev[j + 1] as u128 + 1;
            let ins: u128 = cur[j] as u128 + 1;
            let best: u128 = if sub <= del && sub <= ins {
                sub
            } else if del <= ins {
                del
            } else {
                ins
            };
            cur.push(best as usize);
            j += 1;
        }
        prev = cur;
        i += 1;
    }
    proof {
        assert(sa.take(sa.len() as int) =~= sa);
        assert(sb.take(m as int) =~= sb);
    }
    prev[m]
}

/// The error for an unknown key at `path`.
fn unknown_key(path: &str, key: &str, allowed: &Vec<&'static str>) -> (r: String)
    ensures
        r@ == unknown_key_error(path@, key@, strs(allowed@)),
{
    let ghost cands = strs(allowed@);
    let kc = chars_of(key);
    let unknown = join_key_of(path, key);
    let mut msg = to_owned("unknown config key `");
    push_str(&mut msg, unknown.as_str());
    if allowed.len() > 0 {
        let first = chars_of(allowed[0]);
        let mut best: usize = 0;
        let mut best_d = char_distance(&kc, &first);
        let mut i: usize = 1;
        while i < allowed.len()
            invariant
                kc@ == key@,
                cands == strs(allowed@),
                1 <= i <= allowed@.len(),
                best == nearest(key@, cands, i as int),
                0 <= best < i,
                best_d == lev(key@, cands[best as int]),
            decreases allowed@.len() - i,
        {
            let c = chars_of(allowed[i]);
            let d = char_distance(&kc, &c);
            assert(cands[i as int] == allowed@[i as int]@);
            if d < best_d {
                best = i;
                best_d = d;
            }
            i += 1;
        }
        let limit = if kc.len() / 3 > 3 {
            kc.len() / 3
        } else {
            3
        };
        if best_d <= limit {
            push_str(&mut msg, "`; did you mean `");
            let s = join_key_of(path, allowed[best]);
            push_str(&mut msg, s.as_str());
            push_str(&mut msg, "`?");
            return msg;
        }
    }
    push_str(&mut msg, "`");
    msg
}

fn contains_key(allowed: &Vec<&'static str>, key: &str) -> (r: bool)
    ensures
        r == strs(allowed@).contains(key@),
{
    let mut i: usize = 0;
    while i < allowed.len()
        invariant
            0 <= i <= allowed@.len(),
            forall|k: int| 0 <= k < i ==> strs(allowed@)[k] != key@,
        decreases allowed@.len() - i,
    {
        if str_eq(allowed[i], key) {
            assert(strs(allowed@)[i as int] == key@);
            return true;
        }
        i += 1;
    }
    false
}

/// Check that every table key of a configuration value is allowed where it
/// stands (`path` names the table); the error names the first unknown key
/// and, when one is close enough, the nearest allowed key.
pub fn validate_keys(value: &ConfigValue, path: &str) -> (r: Result<(), String>)
    ensures
        match r {
            Ok(_) => validate_value(*value, path@) is Ok,
            Err(e) => validate_value(*value, path@) == Err::<(), Seq<char>>(e@),
        },
    decreases value,
{
    match value {
        ConfigValue::Table(es) => {
            let allowed = match allowed_keys_of(path) {
                Some(a) => a,
                None => {
                    return Ok(());
                },
            };
            let ghost al = strs(allowed@);
            let mut i: usize = 0;
            while i < es.len()
                invariant
                    0 <= i <= es@.len(),
                    al == strs(allowed@),
                    allowed_keys(path@) == Some(al),
                    *value == ConfigValue::Table(*es),
                    validate_value(*value, path@) == validate_entries(es@, i as int, path@, al),
                decreases es@.len() - i,
            {
                let key = es[i].0.as_str();
                if !contains_key(&allowed, key) {
                    return Err(unknown_key(path, key, &allowed));
                }
                let child_path = join_key_of(path, key);
                assert(key@ == es@[i as int].0@);
                if str_eq(child_path.as_str(), "overrides") {
                    match &es[i].1 {
                        ConfigValue::Array(items) => {
                            let mut k: usize = 0;
                            while k < items.len()
                                invariant
                                    0 <= k <= items@.len(),
                                    0 <= i < es@.len(),
                                    *value == ConfigValue::Table(*es),
                                    es@[i as int].1 == ConfigValue::Array(*items),
                                    al.contains(es@[i as int].0@),
                                    join_key(path@, es@[i as int].0@) == "overrides"@,
                                    validate_value(*value, path@) == validate_entries(es@, i as int, path@, al),
                                    validate_items(items@, 0) == validate_items(items@, k as int),
                                decreases items@.len() - k,
                            {
                                proof {
                                    assert(decreases_to!(*value => *es));
                                    assert(decreases_to!(*es => es@));
                                    assert(decreases_to!(es@ => es@[i as int]));
                                    assert(decreases_to!(es@[i as int] => es@[i as int].1));
                                    assert(decreases_to!(es@[i as int].1 => *items));
                                    assert(decreases_to!(*items => items@));
                                    assert(decreases_to!(items@ => items@[k as int]));
                                }
                                match validate_keys(&items[k], "overrides") {
                                    Ok(_) => {},
                                    Err(e) => {
                                        return Err(e);
                                    },
                                }
                                k += 1;
                            }
                        },
                        _ => {},
                    }
                } else {
                    match validate_keys(&es[i].1, child_path.as_str()) {
                        Ok(_) => {},
                        Err(e) => {
                            return Err(e);
                        },
                    }
                }
                i += 1;
            }
            Ok(())
        },
        _ => Ok(()),
    }
}

/// Check the keys of a configuration file's text: a text that is no TOML
/// document gives the parser's error; otherwise the first unknown key, as
/// `validate_keys` reports it from the root.
pub fn validate_config_text(text: &str) -> (r: Result<(), String>)
    ensures
        match crate::documents::toml_value(text@) {
            Err(e) => r is Err && r->Err_0@ == e,
            Ok(v) => match r {
                Ok(_) => validate_value(v, ""@) is Ok,
                Err(e) => validate_value(v, ""@) == Err::<(), Seq<char>>(e@),
            },
        },
{
    match crate::documents::parse_toml(text) {
        Err(e) => Err(e),
        Ok(v) => validate_keys(&v, ""),
    }
}

} // verus!
