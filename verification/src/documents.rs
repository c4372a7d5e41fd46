//! Reading TOML, JSON and YAML documents into the library's value shape,
//! and looking keys and strings up in it.
use vstd::prelude::*;

use crate::text::{str_eq, to_owned};
use crate::validate::ConfigValue;

verus! {

#[verifier::external_type_specification]
#[verifier::external_body]
pub struct ExTomlValue(toml::Value);

#[verifier::external_type_specification]
#[verifier::external_body]
pub struct ExJsonValue(serde_json::Value);

/// The value a TOML document parses to (`toml::from_str::<toml::Value>`),
/// in the library's shape, or the parser's error message.
pub uninterp spec fn toml_value(text: Seq<char>) -> Result<ConfigValue, Seq<char>>;

/// The value a JSON document parses to (`serde_json::from_str`), in the
/// library's shape, or the parser's error message.
pub uninterp spec fn json_value(text: Seq<char>) -> Result<ConfigValue, Seq<char>>;

/// The value a YAML document parses to (`serde_yaml::from_str`, then
/// `serde_json::to_value`), in the library's shape, or the error message.
pub uninterp spec fn yaml_value(text: Seq<char>) -> Result<ConfigValue, Seq<char>>;

/// A `toml::Value` in the library's shape: tables (their entries in the
/// order the table keeps), arrays and strings, every other value `Other`.
#[verifier::external_body]
fn shape_of_toml(v: &toml::Value) -> ConfigValue {
    match v {
        toml::Value::Table(t) => ConfigValue::Table(t.iter().map(|(k, x)| (k.clone(), shape_of_toml(x))).collect()),
        toml::Value::Array(items) => ConfigValue::Array(items.iter().map(shape_of_toml).collect()),
        toml::Value::String(s) => ConfigValue::Str(s.clone()),
        _ => ConfigValue::Other,
    }
}

/// A `serde_json::Value` in the library's shape: objects, arrays and
/// strings, every other value `Other`.
#[verifier::external_body]
fn shape_of_json(v: &serde_json::Value) -> ConfigValue {
    match v {
        serde_json::Value::Object(m) => ConfigValue::Table(m.iter().map(|(k, x)| (k.clone(), shape_of_json(x))).collect()),
        serde_json::Value::Array(items) => ConfigValue::Array(items.iter().map(shape_of_json).collect()),
        serde_json::Value::String(s) => ConfigValue::Str(s.clone()),
        _ => ConfigValue::Other,
    }
}

/// `toml::from_str::<toml::Value>`, its value in the library's shape.
/// Claims only that the result is the one named for the text.
#[verifier::external_body]
pub(crate) fn parse_toml(text: &str) -> (r: Result<ConfigValue, String>)
    ensures
        match r {
            Ok(v) => toml_value(text@) == Ok::<ConfigValue, Seq<char>>(v),
            Err(e) => toml_value(text@) == Err::<ConfigValue, Seq<char>>(e@),
        },
{
    match toml::from_str::<toml::Value>(text) {
        Ok(v) => Ok(shape_of_toml(&v)),
        Err(e) => Err(e.to_string()),
    }
}

/// `serde_json::from_str::<serde_json::Value>`, its value in the
/// library's shape. Claims only that the result is the one named for the
/// text.
#[verifier::external_body]
pub(crate) fn parse_json(text: &str) -> (r: Result<ConfigValue, String>)
    ensures
        match r {
            Ok(v) => json_value(text@) == Ok::<ConfigValue, Seq<char>>(v),
            Err(e) => json_value(text@) == Err::<ConfigValue, Seq<char>>(e@),
        },
{
    match serde_json::from_str::<serde_json::Value>(text) {
        Ok(v) => Ok(shape_of_json(&v)),
        Err(e) => Err(e.to_string()),
    }
}

/// `serde_yaml::from_str::<serde_yaml::Value>`, made a JSON value by
/// `serde_json::to_value`, in the library's shape. Claims only that the
/// result is the one named for the text.
#[verifier::external_body]
pub(crate) fn parse_yaml(text: &str) -> (r: Result<ConfigValue, String>)
    ensures
        match r {
            Ok(v) => yaml_value(text@) == Ok::<ConfigValue, Seq<char>>(v),
            Err(e) => yaml_value(text@) == Err::<ConfigValue, Seq<char>>(e@),
        },
{
    let yaml: serde_yaml::Value = serde_yaml::from_str(text).map_err(|e| e.to_string())?;
    match serde_json::to_value(yaml) {
        Ok(v) => Ok(shape_of_json(&v)),
        Err(e) => Err(e.to_string()),
    }
}

/// The keys of a table, in order; none for other values.
pub open spec fn keys_of(v: ConfigValue) -> Seq<Seq<char>> {
    match v {
        ConfigValue::Table(es) => es@.map_values(|e: (String, ConfigValue)| e.0@),
        _ => Seq::empty(),
    }
}

/// The value of the first entry from `i` on whose key is `key`.
pub open spec fn lookup_entry(es: Seq<(String, ConfigValue)>, key: Seq<char>, i: int) -> Option<ConfigValue>
    decreases es.len() - i,
{
    if i < 0 || i >= es.len() {
        None
    } else if es[i].0@ == key {
        Some(es[i].1)
    } else {
        lookup_entry(es, key, i + 1)
    }
}

/// The value of `key` in a table; none for other values.
pub open spec fn value_at(v: ConfigValue, key: Seq<char>) -> Option<ConfigValue> {
    match v {
        ConfigValue::Table(es) => lookup_entry(es@, key, 0),
        _ => None,
    }
}

/// The text of a string value.
pub open spec fn text_of(v: Option<ConfigValue>) -> Option<Seq<char>> {
    match v {
        Some(ConfigValue::Str(s)) => Some(s@),
        _ => None,
    }
}

/// The keys of a table value, in order; none for other values.
pub fn table_keys(v: &ConfigValue) -> (r: Vec<String>)
    ensures
        r.deep_view() == keys_of(*v),
{
    let mut out: Vec<String> = Vec::new();
    match v {
        ConfigValue::Table(es) => {
            let mut i: usize = 0;
            while i < es.len()
                invariant
                    i <= es@.len(),
                    out.deep_view() == es@.take(i as int).map_values(|e: (String, ConfigValue)| e.0@),
                decreases es@.len() - i,
            {
                let ghost before = out.deep_view();
                out.push(to_owned(es[i].0.as_str()));
                proof {
                    assert(out.deep_view() =~= before.push(es@[i as int].0@));
                    assert(es@.take(i + 1).map_values(|e: (String, ConfigValue)| e.0@) =~= es@.take(
                        i as int,
                    ).map_values(|e: (String, ConfigValue)| e.0@).push(es@[i as int].0@));
                }
                i += 1;
            }
            assert(es@.take(es@.len() as int) =~= es@);
        },
        _ => {
            assert(out.deep_view() =~= Seq::<Seq<char>>::empty());
        },
    }
    out
}

/// The value of `key` in a table value, if it has that key.
pub fn get_value<'a>(v: &'a ConfigValue, key: &str) -> (r: Option<&'a ConfigValue>)
    ensures
        match r {
            Some(x) => value_at(*v, key@) == Some(*x),
            None => value_at(*v, key@) is None,
        },
{
    match v {
        ConfigValue::Table(es) => {
            let mut i: usize = 0;
            while i < es.len()
                invariant
                    i <= es@.len(),
                    *v == ConfigValue::Table(*es),
                    lookup_entry(es@, key@, 0) == lookup_entry(es@, key@, i as int),
                decreases es@.len() - i,
            {
                if str_eq(es[i].0.as_str(), key) {
                    return Some(&es[i].1);
                }
                i += 1;
            }
            None
        },
        _ => None,
    }
}

/// The text of a string value.
pub fn string_value(v: Option<&ConfigValue>) -> (r: Option<String>)
    ensures
        match r {
            Some(s) => text_of(
                match v {
                    Some(x) => Some(*x),
                    None => None,
                },
            ) == Some(s@),
            None => text_of(
                match v {
                    Some(x) => Some(*x),
                    None => None,
                },
            ) is None,
        },
{
    match v {
        Some(ConfigValue::Str(s)) => Some(to_owned(s.as_str())),
        _ => None,
    }
}

} // verus!
