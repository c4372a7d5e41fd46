//! Editing configuration text in place, keeping its formatting: adding to
//! and removing from string arrays, setting values and corrections, and
//! filling the configuration template.
use vstd::prelude::*;

use crate::migrate::{spec_values_to_add, values_to_add};
use crate::registry::{replace_registry_reference, spec_replace_registry_reference};
use crate::registry_lock::opt_view;
use crate::text::{push_str, to_owned};

verus! {

/// What an edit of a TOML document gives: the new text, the parser's error,
/// or the finding that the table (or, below it, the array or inner table)
/// has another type.
pub enum TomlEdit {
    Done(String),
    Unparsed(String),
    NotTable,
    NotInner,
}

pub enum EditView {
    Done(Seq<char>),
    Unparsed(Seq<char>),
    NotTable,
    NotInner,
}

impl View for TomlEdit {
    type V = EditView;

    open spec fn view(&self) -> EditView {
        match self {
            TomlEdit::Done(s) => EditView::Done(s@),
            TomlEdit::Unparsed(e) => EditView::Unparsed(e@),
            TomlEdit::NotTable => EditView::NotTable,
            TomlEdit::NotInner => EditView::NotInner,
        }
    }
}

/// What `[table].key` of a TOML document holds: the parser's error, a
/// `table` that is no table, no such key (or no such table), an array
/// (each item's text where it is a string), or another value.
pub enum TomlSlot {
    Unparsed(String),
    NotTable,
    Missing,
    Array(Vec<Option<String>>),
    Other,
}

pub enum SlotView {
    Unparsed(Seq<char>),
    NotTable,
    Missing,
    Array(Seq<Option<Seq<char>>>),
    Other,
}

impl View for TomlSlot {
    type V = SlotView;

    open spec fn view(&self) -> SlotView {
        match self {
            TomlSlot::Unparsed(e) => SlotView::Unparsed(e@),
            TomlSlot::NotTable => SlotView::NotTable,
            TomlSlot::Missing => SlotView::Missing,
            TomlSlot::Array(v) => SlotView::Array(v@.map_values(|o: Option<String>| opt_view(o))),
            TomlSlot::Other => SlotView::Other,
        }
    }
}

/// What `[table].key` of the TOML document `text` holds, as `toml_edit`
/// reads it.
pub uninterp spec fn toml_slot(text: Seq<char>, table: Seq<char>, key: Seq<char>) -> SlotView;

/// The document after pushing `values` onto the array `[table].key`
/// (creating the table and the array where missing).
pub uninterp spec fn toml_strings_pushed(
    text: Seq<char>,
    table: Seq<char>,
    key: Seq<char>,
    values: Seq<Seq<char>>,
) -> EditView;

/// The document with `[table].key` set to the array of `values`.
pub uninterp spec fn toml_strings_set(
    text: Seq<char>,
    table: Seq<char>,
    key: Seq<char>,
    values: Seq<Seq<char>>,
) -> EditView;

/// The document with `[table].key` set to the string `value`.
pub uninterp spec fn toml_string_set(text: Seq<char>, table: Seq<char>, key: Seq<char>, value: Seq<char>) -> EditView;

/// The document with `[table].key` set to the boolean `value`.
pub uninterp spec fn toml_bool_set(text: Seq<char>, table: Seq<char>, key: Seq<char>, value: bool) -> EditView;

/// The document with `[corrections.words].word` set to `replacement`.
pub uninterp spec fn toml_correction_set(text: Seq<char>, word: Seq<char>, replacement: Seq<char>) -> EditView;

/// The document without item `index` of the array `[table].key`, where
/// there is such an item.
pub uninterp spec fn toml_item_removed(text: Seq<char>, table: Seq<char>, key: Seq<char>, index: nat) -> Option<
    Seq<char>,
>;

/// Reads `[table].key` of a TOML document with `toml_edit`. Claims only
/// that the result is the one named for the arguments.
#[verifier::external_body]
fn read_slot(text: &str, table: &str, key: &str) -> (r: TomlSlot)
    ensures
        r@ == toml_slot(text@, table@, key@),
{
    let doc: toml_edit::DocumentMut = match text.parse() {
        Ok(d) => d,
        Err(e) => return TomlSlot::Unparsed(e.to_string()),
    };
    let t = match doc.get(table) {
        None => return TomlSlot::Missing,
        Some(toml_edit::Item::Table(t)) => t,
        Some(_) => return TomlSlot::NotTable,
    };
    match t.get(key).map(|item| item.as_array()) {
        None => TomlSlot::Missing,
        Some(Some(a)) => TomlSlot::Array(a.iter().map(|v| v.as_str().map(str::to_string)).collect()),
        Some(None) => TomlSlot::Other,
    }
}

/// Pushes `values` onto the array `[table].key` with `toml_edit`
/// (`entry(..).or_insert(..)`, `Array::push`). Claims only that the result
/// is the one named for the arguments.
#[verifier::external_body]
fn push_strings(text: &str, table: &str, key: &str, values: &Vec<String>) -> (r: TomlEdit)
    ensures
        r@ == toml_strings_pushed(text@, table@, key@, values.deep_view()),
{
    let mut doc: toml_edit::DocumentMut = match text.parse() {
        Ok(d) => d,
        Err(e) => return TomlEdit::Unparsed(e.to_string()),
    };
    let t = match doc.entry(table).or_insert(toml_edit::Item::Table(toml_edit::Table::new())).as_table_mut() {
        Some(t) => t,
        None => return TomlEdit::NotTable,
    };
    let a = match t.entry(key).or_insert(toml_edit::value(toml_edit::Array::new())).as_array_mut() {
        Some(a) => a,
        None => return TomlEdit::NotInner,
    };
    values.iter().for_each(|v| a.push(v.as_str()));
    TomlEdit::Done(doc.to_string())
}

/// Sets `[table].key` to the array of `values` with `toml_edit`. Claims
/// only that the result is the one named for the arguments.
#[verifier::external_body]
fn set_strings(text: &str, table: &str, key: &str, values: &Vec<String>) -> (r: TomlEdit)
    ensures
        r@ == toml_strings_set(text@, table@, key@, values.deep_view()),
{
    let mut doc: toml_edit::DocumentMut = match text.parse() {
        Ok(d) => d,
        Err(e) => return TomlEdit::Unparsed(e.to_string()),
    };
    let t = match doc.entry(table).or_insert(toml_edit::Item::Table(toml_edit::Table::new())).as_table_mut() {
        Some(t) => t,
        None => return TomlEdit::NotTable,
    };
    t[key] = toml_edit::value(values.iter().map(|v| v.as_str()).collect::<toml_edit::Array>());
    TomlEdit::Done(doc.to_string())
}

/// Sets `[table].key` to a string with `toml_edit`. Claims only that the
/// result is the one named for the arguments.
#[verifier::external_body]
fn set_string(text: &str, table: &str, key: &str, value: &str) -> (r: TomlEdit)
    ensures
        r@ == toml_string_set(text@, table@, key@, value@),
{
    let mut doc: toml_edit::DocumentMut = match text.parse() {
        Ok(d) => d,
        Err(e) => return TomlEdit::Unparsed(e.to_string()),
    };
    let t = match doc.entry(table).or_insert(toml_edit::Item::Table(toml_edit::Table::new())).as_table_mut() {
        Some(t) => t,
        None => return TomlEdit::NotTable,
    };
    t[key] = toml_edit::value(value);
    TomlEdit::Done(doc.to_string())
}

/// Sets `[table].key` to a boolean with `toml_edit`. Claims only that the
/// result is the one named for the arguments.
#[verifier::external_body]
fn set_bool(text: &str, table: &str, key: &str, value: bool) -> (r: TomlEdit)
    ensures
        r@ == toml_bool_set(text@, table@, key@, value),
{
    let mut doc: toml_edit::DocumentMut = match text.parse() {
        Ok(d) => d,
        Err(e) => return TomlEdit::Unparsed(e.to_string()),
    };
    let t = match doc.entry(table).or_insert(toml_edit::Item::Table(toml_edit::Table::new())).as_table_mut() {
        Some(t) => t,
        None => return TomlEdit::NotTable,
    };
    t[key] = toml_edit::value(value);
    TomlEdit::Done(doc.to_string())
}

/// Sets `[corrections.words].word` with `toml_edit`. Claims only that the
/// result is the one named for the arguments.
#[verifier::external_body]
fn set_correction_entry(text: &str, word: &str, replacement: &str) -> (r: TomlEdit)
    ensures
        r@ == toml_correction_set(text@, word@, replacement@),
{
    let mut doc: toml_edit::DocumentMut = match text.parse() {
        Ok(d) => d,
        Err(e) => return TomlEdit::Unparsed(e.to_string()),
    };
    let c = match doc.entry("corrections").or_insert(toml_edit::Item::Table(toml_edit::Table::new())).as_table_mut() {
        Some(c) => c,
        None => return TomlEdit::NotTable,
    };
    let w = match c.entry("words").or_insert(toml_edit::Item::Table(toml_edit::Table::new())).as_table_mut() {
        Some(w) => w,
        None => return TomlEdit::NotInner,
    };
    w[word] = toml_edit::value(replacement);
    TomlEdit::Done(doc.to_string())
}

/// Removes item `index` of the array `[table].key` with `toml_edit`
/// (`Array::remove`); `None` where there is no such item. Claims only that
/// the result is the one named for the arguments.
#[verifier::external_body]
fn remove_item(text: &str, table: &str, key: &str, index: usize) -> (r: Option<String>)
    ensures
        match r {
            Some(t) => toml_item_removed(text@, table@, key@, index as nat) == Some(t@),
            None => toml_item_removed(text@, table@, key@, index as nat) is None,
        },
{
    let mut doc: toml_edit::DocumentMut = text.parse().ok()?;
    let a = doc.get_mut(table)?.as_table_mut()?.get_mut(key)?.as_array_mut()?;
    a.get(index)?;
    a.remove(index);
    Some(doc.to_string())
}

/// The texts of the string items of an array, in order.
pub open spec fn strings_of(items: Seq<Option<Seq<char>>>) -> Seq<Seq<char>>
    decreases items.len(),
{
    if items.len() == 0 {
        Seq::empty()
    } else {
        match items.last() {
            Some(s) => strings_of(items.drop_last()).push(s),
            None => strings_of(items.drop_last()),
        }
    }
}

fn strings_in(items: &Vec<Option<String>>) -> (r: Vec<String>)
    ensures
        r.deep_view() == strings_of(items@.map_values(|o: Option<String>| opt_view(o))),
{
    let ghost iv = items@.map_values(|o: Option<String>| opt_view(o));
    let mut out: Vec<String> = Vec::new();
    let mut i: usize = 0;
    assert(iv.take(0) =~= Seq::<Option<Seq<char>>>::empty());
    while i < items.len()
        invariant
            iv == items@.map_values(|o: Option<String>| opt_view(o)),
            i <= items@.len(),
            out.deep_view() == strings_of(iv.take(i as int)),
        decreases items@.len() - i,
    {
        assert(iv.take(i + 1).drop_last() =~= iv.take(i as int));
        match &items[i] {
            Some(s) => {
                let ghost before = out.deep_view();
                out.push(to_owned(s.as_str()));
                assert(out.deep_view() =~= before.push(s@));
            },
            None => {},
        }
        i += 1;
    }
    assert(iv.take(items@.len() as int) =~= iv);
    out
}

/// `[table] is not a table`.
pub open spec fn not_table_message(table: Seq<char>) -> Seq<char> {
    "["@ + table + "] is not a table"@
}

/// `table.key is not an array`.
pub open spec fn not_array_message(table: Seq<char>, key: Seq<char>) -> Seq<char> {
    table + "."@ + key + " is not an array"@
}

fn not_table(table: &str) -> (r: String)
    ensures
        r@ == not_table_message(table@),
{
    let mut s = to_owned("[");
    push_str(&mut s, table);
    push_str(&mut s, "] is not a table");
    s
}

fn not_array(table: &str, key: &str) -> (r: String)
    ensures
        r@ == not_array_message(table@, key@),
{
    let mut s = to_owned(table);
    push_str(&mut s, ".");
    push_str(&mut s, key);
    push_str(&mut s, " is not an array");
    s
}

/// The text of an array edit, or its error.
pub open spec fn array_edit_result(e: EditView, table: Seq<char>, key: Seq<char>) -> Result<Seq<char>, Seq<char>> {
    match e {
        EditView::Done(t) => Ok(t),
        EditView::Unparsed(m) => Err(m),
        EditView::NotTable => Err(not_table_message(table)),
        EditView::NotInner => Err(not_array_message(table, key)),
    }
}

pub open spec fn result_view(r: Result<String, String>) -> Result<Seq<char>, Seq<char>> {
    match r {
        Ok(t) => Ok(t@),
        Err(e) => Err(e@),
    }
}

fn array_edit(e: TomlEdit, table: &str, key: &str) -> (r: Result<String, String>)
    ensures
        result_view(r) == array_edit_result(e@, table@, key@),
{
    match e {
        TomlEdit::Done(t) => Ok(t),
        TomlEdit::Unparsed(m) => Err(m),
        TomlEdit::NotTable => Err(not_table(table)),
        TomlEdit::NotInner => Err(not_array(table, key)),
    }
}

/// Adding `values` to the string array `[table].key`: each value it lacks
/// is pushed, once, in order; the table and the array are created where
/// missing.
pub open spec fn spec_add_to_array(text: Seq<char>, table: Seq<char>, key: Seq<char>, values: Seq<Seq<char>>) -> Result<
    Seq<char>,
    Seq<char>,
> {
    match toml_slot(text, table, key) {
        SlotView::Unparsed(e) => Err(e),
        SlotView::NotTable => Err(not_table_message(table)),
        SlotView::Other => Err(not_array_message(table, key)),
        SlotView::Missing => array_edit_result(
            toml_strings_pushed(text, table, key, spec_values_to_add(Seq::empty(), values)),
            table,
            key,
        ),
        SlotView::Array(items) => array_edit_result(
            toml_strings_pushed(text, table, key, spec_values_to_add(strings_of(items), values)),
            table,
            key,
        ),
    }
}

/// Add to the string array `[table].key` of a configuration text each of
/// `values` it lacks.
pub fn add_to_string_array_text(text: &str, table: &str, key: &str, values: &Vec<String>) -> (r: Result<String, String>)
    ensures
        result_view(r) == spec_add_to_array(text@, table@, key@, values.deep_view()),
{
    let existing = match read_slot(text, table, key) {
        TomlSlot::Unparsed(e) => return Err(e),
        TomlSlot::NotTable => return Err(not_table(table)),
        TomlSlot::Other => return Err(not_array(table, key)),
        TomlSlot::Missing => {
            let v: Vec<String> = Vec::new();
            assert(v.deep_view() =~= Seq::<Seq<char>>::empty());
            v
        },
        TomlSlot::Array(items) => strings_in(&items),
    };
    let add = values_to_add(&existing, values);
    array_edit(push_strings(text, table, key, &add), table, key)
}

/// Setting `[table].key` to `value` unless the key is there.
pub open spec fn spec_set_default(text: Seq<char>, table: Seq<char>, key: Seq<char>, value: Seq<char>) -> Result<
    Seq<char>,
    Seq<char>,
> {
    match toml_slot(text, table, key) {
        SlotView::Unparsed(e) => Err(e),
        SlotView::NotTable => Err(not_table_message(table)),
        SlotView::Missing => array_edit_result(toml_string_set(text, table, key, value), table, key),
        _ => Ok(text),
    }
}

/// Set `[table].key` of a configuration text to `value` unless the key is
/// there.
pub fn set_default_string_text(text: &str, table: &str, key: &str, value: &str) -> (r: Result<String, String>)
    ensures
        result_view(r) == spec_set_default(text@, table@, key@, value@),
{
    match read_slot(text, table, key) {
        TomlSlot::Unparsed(e) => Err(e),
        TomlSlot::NotTable => Err(not_table(table)),
        TomlSlot::Missing => array_edit(set_string(text, table, key, value), table, key),
        _ => Ok(to_owned(text)),
    }
}

/// Set `[table].key` of a configuration text to a boolean.
pub fn set_bool_text(text: &str, table: &str, key: &str, value: bool) -> (r: Result<String, String>)
    ensures
        result_view(r) == array_edit_result(toml_bool_set(text@, table@, key@, value), table@, key@),
{
    array_edit(set_bool(text, table, key, value), table, key)
}

/// Set `[table].key` of a configuration text to a string.
pub fn set_string_text(text: &str, table: &str, key: &str, value: &str) -> (r: Result<String, String>)
    ensures
        result_view(r) == array_edit_result(toml_string_set(text@, table@, key@, value@), table@, key@),
{
    array_edit(set_string(text, table, key, value), table, key)
}

/// Setting the correction `word = replacement` in `[corrections.words]`.
pub open spec fn spec_set_correction(text: Seq<char>, word: Seq<char>, replacement: Seq<char>) -> Result<
    Seq<char>,
    Seq<char>,
> {
    match toml_correction_set(text, word, replacement) {
        EditView::Done(t) => Ok(t),
        EditView::Unparsed(m) => Err(m),
        EditView::NotTable => Err("[corrections] is not a table"@),
        EditView::NotInner => Err("[corrections.words] is not a table"@),
    }
}

/// Set the correction `word = replacement` in `[corrections.words]` of a
/// configuration text.
pub fn set_correction_text(text: &str, word: &str, replacement: &str) -> (r: Result<String, String>)
    ensures
        result_view(r) == spec_set_correction(text@, word@, replacement@),
{
    match set_correction_entry(text, word, replacement) {
        TomlEdit::Done(t) => Ok(t),
        TomlEdit::Unparsed(m) => Err(m),
        TomlEdit::NotTable => Err(to_owned("[corrections] is not a table")),
        TomlEdit::NotInner => Err(to_owned("[corrections.words] is not a table")),
    }
}

/// The indices of the items of `items` that are the string `value`.
pub open spec fn indices_of(items: Seq<Option<Seq<char>>>, value: Seq<char>) -> Seq<nat>
    decreases items.len(),
{
    if items.len() == 0 {
        Seq::empty()
    } else if items.last() == Some(value) {
        indices_of(items.drop_last(), value).push((items.len() - 1) as nat)
    } else {
        indices_of(items.drop_last(), value)
    }
}

/// Removing the items at `idxs`, the last first.
pub open spec fn items_removed(text: Seq<char>, table: Seq<char>, key: Seq<char>, idxs: Seq<nat>) -> Option<Seq<char>>
    decreases idxs.len(),
{
    if idxs.len() == 0 {
        Some(text)
    } else {
        match toml_item_removed(text, table, key, idxs.last()) {
            Some(t) => items_removed(t, table, key, idxs.drop_last()),
            None => None,
        }
    }
}

/// Removing every `value` from the string array `[table].key`: the new
/// text and whether there was one; the text unchanged where the array is
/// missing or holds no `value`.
pub open spec fn spec_remove_from_array(text: Seq<char>, table: Seq<char>, key: Seq<char>, value: Seq<char>) -> Result<
    (Seq<char>, bool),
    Seq<char>,
> {
    match toml_slot(text, table, key) {
        SlotView::Unparsed(e) => Err(e),
        SlotView::Array(items) => if indices_of(items, value).len() == 0 {
            Ok((text, false))
        } else {
            match items_removed(text, table, key, indices_of(items, value)) {
                Some(t) => Ok((t, true)),
                None => Err(not_array_message(table, key)),
            }
        },
        _ => Ok((text, false)),
    }
}

pub open spec fn pair_result_view(r: Result<(String, bool), String>) -> Result<(Seq<char>, bool), Seq<char>> {
    match r {
        Ok((t, b)) => Ok((t@, b)),
        Err(e) => Err(e@),
    }
}

/// Remove every `value` from the string array `[table].key` of a
/// configuration text: the new text and whether there was one.
pub fn remove_from_string_array_text(text: &str, table: &str, key: &str, value: &str) -> (r: Result<(String, bool), String>)
    ensures
        pair_result_view(r) == spec_remove_from_array(text@, table@, key@, value@),
{
    let items = match read_slot(text, table, key) {
        TomlSlot::Unparsed(e) => return Err(e),
        TomlSlot::Array(items) => items,
        _ => return Ok((to_owned(text), false)),
    };
    let ghost iv = items@.map_values(|o: Option<String>| opt_view(o));
    let mut idxs: Vec<usize> = Vec::new();
    let mut i: usize = 0;
    assert(iv.take(0) =~= Seq::<Option<Seq<char>>>::empty());
    while i < items.len()
        invariant
            iv == items@.map_values(|o: Option<String>| opt_view(o)),
            i <= items@.len(),
            idxs@.map_values(|k: usize| k as nat) == indices_of(iv.take(i as int), value@),
            forall|k: int| 0 <= k < idxs@.len() ==> idxs@[k] < i,
        decreases items@.len() - i,
    {
        assert(iv.take(i + 1).drop_last() =~= iv.take(i as int));
        let hit = match &items[i] {
            Some(s) => crate::text::str_eq(s.as_str(), value),
            None => false,
        };
        assert(hit == (iv.take(i + 1).last() == Some(value@)));
        if hit {
            let ghost before = idxs@;
            idxs.push(i);
            assert(idxs@.map_values(|k: usize| k as nat) =~= before.map_values(|k: usize| k as nat).push(i as nat));
        }
        i += 1;
    }
    assert(iv.take(items@.len() as int) =~= iv);
    let ghost all = idxs@.map_values(|k: usize| k as nat);
    if idxs.len() == 0 {
        return Ok((to_owned(text), false));
    }
    let mut current = to_owned(text);
    let mut n = idxs.len();
    assert(all.take(n as int) =~= all);
    while n > 0
        invariant
            n <= idxs@.len(),
            all == idxs@.map_values(|k: usize| k as nat),
            toml_slot(text@, table@, key@) == SlotView::Array(iv),
            indices_of(iv, value@) == all,
            all.len() > 0,
            items_removed(current@, table@, key@, all.take(n as int)) == items_removed(text@, table@, key@, all),
        decreases n,
    {
        let k = idxs[n - 1];
        assert(all.take(n as int).last() == k as nat);
        assert(all.take(n as int).drop_last() =~= all.take(n - 1));
        match remove_item(current.as_str(), table, key, k) {
            Some(t) => {
                current = t;
            },
            None => {
                return Err(not_array(table, key));
            },
        }
        n -= 1;
    }
    Ok((current, true))
}

/// Replacing the registry references to `name` in the string array
/// `[table].key` by `replacement` (see `replace_registry_reference`).
pub open spec fn spec_replace_in_array(
    text: Seq<char>,
    table: Seq<char>,
    key: Seq<char>,
    name: Seq<char>,
    replacement: Seq<char>,
) -> Result<Seq<char>, Seq<char>> {
    match toml_slot(text, table, key) {
        SlotView::Unparsed(e) => Err(e),
        SlotView::NotTable => Err(not_table_message(table)),
        SlotView::Other => Err(not_array_message(table, key)),
        SlotView::Missing => array_edit_result(
            toml_strings_set(text, table, key, spec_replace_registry_reference(Seq::empty(), name, replacement)),
            table,
            key,
        ),
        SlotView::Array(items) => if strings_of(items).len() == items.len() {
            array_edit_result(
                toml_strings_set(
                    text,
                    table,
                    key,
                    spec_replace_registry_reference(strings_of(items), name, replacement),
                ),
                table,
                key,
            )
        } else {
            Err(key + " must contain strings"@)
        },
    }
}

proof fn lemma_strings_of_len(items: Seq<Option<Seq<char>>>)
    ensures
        strings_of(items).len() <= items.len(),
        strings_of(items).len() == items.len() <==> forall|i: int| 0 <= i < items.len() ==> (#[trigger] items[i]) is Some,
    decreases items.len(),
{
    if items.len() > 0 {
        lemma_strings_of_len(items.drop_last());
        if strings_of(items).len() == items.len() {
            assert forall|i: int| 0 <= i < items.len() implies (#[trigger] items[i]) is Some by {
                if i < items.len() - 1 {
                    assert(items.drop_last()[i] == items[i]);
                }
            }
        } else {
            if forall|i: int| 0 <= i < items.len() ==> (#[trigger] items[i]) is Some {
                assert forall|i: int| 0 <= i < items.drop_last().len() implies (#[trigger] items.drop_last()[i]) is Some by {
                    assert(items.drop_last()[i] == items[i]);
                }
                assert(items[items.len() - 1] is Some);
            }
        }
    }
}

/// Replace the registry references to `name` in the string array
/// `[table].key` of a configuration text by `replacement`.
pub fn replace_registry_reference_text(
    text: &str,
    table: &str,
    key: &str,
    name: &str,
    replacement: &str,
) -> (r: Result<String, String>)
    ensures
        result_view(r) == spec_replace_in_array(text@, table@, key@, name@, replacement@),
{
    let values = match read_slot(text, table, key) {
        TomlSlot::Unparsed(e) => return Err(e),
        TomlSlot::NotTable => return Err(not_table(table)),
        TomlSlot::Other => return Err(not_array(table, key)),
        TomlSlot::Missing => {
            let v: Vec<String> = Vec::new();
            assert(v.deep_view() =~= Seq::<Seq<char>>::empty());
            v
        },
        TomlSlot::Array(items) => {
            let v = strings_in(&items);
            proof {
                lemma_strings_of_len(items@.map_values(|o: Option<String>| opt_view(o)));
            }
            if v.len() != items.len() {
                let mut m = to_owned(key);
                push_str(&mut m, " must contain strings");
                return Err(m);
            }
            v
        },
    };
    let rewritten = replace_registry_reference(&values, name, replacement);
    array_edit(set_strings(text, table, key, &rewritten), table, key)
}

} // verus!

verus! {

/// `f` applied to the text of `r`, or the error of `r`.
pub open spec fn then_edit(
    r: Result<Seq<char>, Seq<char>>,
    f: spec_fn(Seq<char>) -> Result<Seq<char>, Seq<char>>,
) -> Result<Seq<char>, Seq<char>> {
    match r {
        Ok(t) => f(t),
        Err(e) => Err(e),
    }
}

/// The registry references of some dictionary names.
pub open spec fn registry_refs(names: Seq<Seq<char>>) -> Seq<Seq<char>> {
    names.map_values(|n: Seq<char>| "registry:"@ + n)
}

/// The configuration template filled with the answers of `init`: the check
/// mode, the project word file, the dictionaries as registry references,
/// whether Japanese checks are on and their katakana style, and, where
/// there are any, the paths to exclude.
pub open spec fn spec_init_config(
    template: Seq<char>,
    mode: Seq<char>,
    project_words: Seq<char>,
    dictionaries: Seq<Seq<char>>,
    japanese: bool,
    katakana_style: Seq<char>,
    excludes: Seq<Seq<char>>,
) -> Result<Seq<char>, Seq<char>> {
    then_edit(
        array_edit_result(toml_string_set(template, "check"@, "mode"@, mode), "check"@, "mode"@),
        |t1: Seq<char>|
            then_edit(
                array_edit_result(toml_string_set(t1, "words"@, "project"@, project_words), "words"@, "project"@),
                |t2: Seq<char>|
                    then_edit(
                        array_edit_result(
                            toml_strings_set(t2, "words"@, "dictionaries"@, registry_refs(dictionaries)),
                            "words"@,
                            "dictionaries"@,
                        ),
                        |t3: Seq<char>|
                            then_edit(
                                array_edit_result(
                                    toml_bool_set(t3, "japanese"@, "enabled"@, japanese),
                                    "japanese"@,
                                    "enabled"@,
                                ),
                                |t4: Seq<char>|
                                    then_edit(
                                        array_edit_result(
                                            toml_string_set(t4, "japanese"@, "katakana-style"@, katakana_style),
                                            "japanese"@,
                                            "katakana-style"@,
                                        ),
                                        |t5: Seq<char>|
                                            if excludes.len() == 0 {
                                                Ok(t5)
                                            } else {
                                                array_edit_result(
                                                    toml_strings_set(t5, "files"@, "exclude"@, excludes),
                                                    "files"@,
                                                    "exclude"@,
                                                )
                                            },
                                    ),
                            ),
                    ),
            ),
    )
}

/// Fill the configuration template with the answers of `init`.
pub fn render_init_config(
    template: &str,
    mode: &str,
    project_words: &str,
    dictionaries: &Vec<String>,
    japanese: bool,
    katakana_style: &str,
    excludes: &Vec<String>,
) -> (r: Result<String, String>)
    ensures
        result_view(r) == spec_init_config(
            template@,
            mode@,
            project_words@,
            dictionaries.deep_view(),
            japanese,
            katakana_style@,
            excludes.deep_view(),
        ),
{
    let mut refs: Vec<String> = Vec::new();
    let mut i: usize = 0;
    while i < dictionaries.len()
        invariant
            i <= dictionaries@.len(),
            refs.deep_view() == registry_refs(dictionaries.deep_view().take(i as int)),
        decreases dictionaries@.len() - i,
    {
        let ghost before = refs.deep_view();
        refs.push(crate::registry::registry_reference(dictionaries[i].as_str(), None));
        assert(refs.deep_view() =~= before.push("registry:"@ + dictionaries@[i as int]@));
        assert(dictionaries.deep_view().take(i + 1) =~= dictionaries.deep_view().take(i as int).push(
            dictionaries@[i as int]@,
        ));
        assert(registry_refs(dictionaries.deep_view().take(i + 1)) =~= registry_refs(
            dictionaries.deep_view().take(i as int),
        ).push("registry:"@ + dictionaries@[i as int]@));
        i += 1;
    }
    assert(dictionaries.deep_view().take(dictionaries@.len() as int) =~= dictionaries.deep_view());
    let t1 = array_edit(set_string(template, "check", "mode", mode), "check", "mode")?;
    let t2 = array_edit(set_string(t1.as_str(), "words", "project", project_words), "words", "project")?;
    let t3 = array_edit(set_strings(t2.as_str(), "words", "dictionaries", &refs), "words", "dictionaries")?;
    let t4 = array_edit(set_bool(t3.as_str(), "japanese", "enabled", japanese), "japanese", "enabled")?;
    let t5 = array_edit(
        set_string(t4.as_str(), "japanese", "katakana-style", katakana_style),
        "japanese",
        "katakana-style",
    )?;
    if excludes.len() == 0 {
        Ok(t5)
    } else {
        array_edit(set_strings(t5.as_str(), "files", "exclude", excludes), "files", "exclude")
    }
}

} // verus!
