//! The values of a parsed TOML document, held as plain data.

use vstd::prelude::*;

verus! {

/// A TOML value as the audit reads it.
///
/// Tables keep their entries in the order the parser hands them out; a float
/// or a date-time is held as `Other`, since the audit never looks inside one.
#[derive(Debug)]
pub enum TomlValue {
    String(String),
    Integer(i64),
    Boolean(bool),
    Array(Vec<TomlValue>),
    Table(Vec<(String, TomlValue)>),
    Other,
}

/// The value stored under `key` in a table: the first entry with that key.
pub open spec fn lookup(entries: Seq<(String, TomlValue)>, key: Seq<char>) -> Option<TomlValue>
    decreases entries.len(),
{
    if entries.len() == 0 {
        None
    } else if entries[0].0@ == key {
        Some(entries[0].1)
    } else {
        lookup(entries.drop_first(), key)
    }
}

/// The text of a string value.
pub open spec fn text_of(value: Option<TomlValue>) -> Option<Seq<char>> {
    match value {
        Some(TomlValue::String(s)) => Some(s@),
        _ => None,
    }
}

/// The truth value of a boolean value.
pub open spec fn flag_of(value: Option<TomlValue>) -> Option<bool> {
    match value {
        Some(TomlValue::Boolean(b)) => Some(b),
        _ => None,
    }
}

/// The number of an integer value.
pub open spec fn integer_of(value: Option<TomlValue>) -> Option<i64> {
    match value {
        Some(TomlValue::Integer(n)) => Some(n),
        _ => None,
    }
}

/// The items of an array value.
pub open spec fn items_of(value: Option<TomlValue>) -> Option<Seq<TomlValue>> {
    match value {
        Some(TomlValue::Array(items)) => Some(items@),
        _ => None,
    }
}

/// The entries of a table value.
pub open spec fn entries_of(value: Option<TomlValue>) -> Option<Seq<(String, TomlValue)>> {
    match value {
        Some(TomlValue::Table(entries)) => Some(entries@),
        _ => None,
    }
}

/// Finds the value stored under `key` in the table `entries`.
pub fn get<'a>(entries: &'a Vec<(String, TomlValue)>, key: &str) -> (found: Option<&'a TomlValue>)
    ensures
        found is None <==> lookup(entries@, key@) is None,
        found matches Some(v) ==> lookup(entries@, key@) == Some(*v),
{
    let mut i: usize = 0;
    proof {
        assert(entries@.subrange(0, entries@.len() as int) =~= entries@);
    }
    while i < entries.len()
        invariant
            i <= entries.len(),
            lookup(entries@, key@) == lookup(entries@.subrange(i as int, entries@.len() as int), key@),
        decreases entries.len() - i,
    {
        let ghost rest = entries@.subrange(i as int, entries@.len() as int);
        proof {
            assert(rest.drop_first() =~= entries@.subrange(i + 1, entries@.len() as int));
        }
        if same_text(entries[i].0.as_str(), key) {
            return Some(&entries[i].1);
        }
        i = i + 1;
    }
    None
}

/// Whether two texts are equal.
pub fn same_text(a: &str, b: &str) -> (same: bool)
    ensures
        same == (a@ == b@),
{
    a.to_owned() == b.to_owned()
}

/// The text of a value, when it is a string.
pub fn value_text(value: &TomlValue) -> (text: Option<&String>)
    ensures
        text is None <==> text_of(Some(*value)) is None,
        text matches Some(s) ==> text_of(Some(*value)) == Some(s@),
{
    match value {
        TomlValue::String(s) => Some(s),
        _ => None,
    }
}

/// The entries of a value, when it is a table.
pub fn value_entries(value: &TomlValue) -> (entries: Option<&Vec<(String, TomlValue)>>)
    ensures
        entries is None <==> entries_of(Some(*value)) is None,
        entries matches Some(t) ==> entries_of(Some(*value)) == Some(t@),
{
    match value {
        TomlValue::Table(t) => Some(t),
        _ => None,
    }
}

/// The text stored under `key`, when it is a string.
pub fn field_text<'a>(entries: &'a Vec<(String, TomlValue)>, key: &str) -> (text: Option<&'a String>)
    ensures
        text is None <==> text_of(lookup(entries@, key@)) is None,
        text matches Some(s) ==> text_of(lookup(entries@, key@)) == Some(s@),
{
    match get(entries, key) {
        Some(v) => value_text(v),
        None => None,
    }
}

/// The truth value stored under `key`, when it is a boolean.
pub fn field_flag(entries: &Vec<(String, TomlValue)>, key: &str) -> (flag: Option<bool>)
    ensures
        flag == flag_of(lookup(entries@, key@)),
{
    match get(entries, key) {
        Some(TomlValue::Boolean(b)) => Some(*b),
        _ => None,
    }
}

/// The number stored under `key`, when it is an integer.
pub fn field_integer(entries: &Vec<(String, TomlValue)>, key: &str) -> (number: Option<i64>)
    ensures
        number == integer_of(lookup(entries@, key@)),
{
    match get(entries, key) {
        Some(TomlValue::Integer(n)) => Some(*n),
        _ => None,
    }
}

/// The items stored under `key`, when it is an array.
pub fn field_items<'a>(entries: &'a Vec<(String, TomlValue)>, key: &str) -> (items: Option<&'a Vec<TomlValue>>)
    ensures
        items is None <==> items_of(lookup(entries@, key@)) is None,
        items matches Some(a) ==> items_of(lookup(entries@, key@)) == Some(a@),
{
    match get(entries, key) {
        Some(TomlValue::Array(a)) => Some(a),
        _ => None,
    }
}

/// The entries stored under `key`, when it is a table.
pub fn field_entries<'a>(entries: &'a Vec<(String, TomlValue)>, key: &str) -> (table: Option<&'a Vec<(String, TomlValue)>>)
    ensures
        table is None <==> entries_of(lookup(entries@, key@)) is None,
        table matches Some(t) ==> entries_of(lookup(entries@, key@)) == Some(t@),
{
    match get(entries, key) {
        Some(TomlValue::Table(t)) => Some(t),
        _ => None,
    }
}

/// The value type of the `toml` crate, carried through unopened.
#[verifier::external_type_specification]
#[verifier::external_body]
pub struct ExTomlValue(toml::Value);

/// What `toml::from_str::<toml::Value>` makes of a text: the document, or
/// `None` where the parser rejects the text.
pub uninterp spec fn toml_document(text: Seq<char>) -> Option<TomlValue>;

/// Parses `text` with `toml::from_str::<toml::Value>` and hands back the
/// document as plain data. The contract claims only that the result is a
/// function of the text, named [`toml_document`]; what TOML syntax is
/// accepted, and how, is left to the `toml` crate.
#[verifier::external_body]
pub(crate) fn parse_toml(text: &str) -> (document: Option<TomlValue>)
    ensures
        document == toml_document(text@),
{
    toml::from_str::<toml::Value>(text).ok().map(plain_value)
}

/// Moves a `toml::Value` into a [`TomlValue`], variant for variant.
#[verifier::external_body]
fn plain_value(value: toml::Value) -> TomlValue {
    match value {
        toml::Value::String(s) => TomlValue::String(s),
        toml::Value::Integer(n) => TomlValue::Integer(n),
        toml::Value::Boolean(b) => TomlValue::Boolean(b),
        toml::Value::Array(items) => TomlValue::Array(items.into_iter().map(plain_value).collect()),
        toml::Value::Table(t) => TomlValue::Table(t.into_iter().map(|(k, v)| (k, plain_value(v))).collect()),
        toml::Value::Float(_) => TomlValue::Other,
        toml::Value::Datetime(_) => TomlValue::Other,
    }
}

} // verus!
