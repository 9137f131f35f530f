//! YAML values, through `serde_yaml`.
//!
//! A `serde_yaml::Value` is opaque here; what it holds is named by
//! [`yaml_tree`], and each operation that the library performs on values
//! goes through one of the functions below, whose contracts state what
//! `serde_yaml` does.

use vstd::prelude::*;

verus! {

#[verifier::external_type_specification]
#[verifier::external_body]
pub struct ExYamlValue(serde_yaml::Value);

#[verifier::external_type_specification]
#[verifier::external_body]
pub struct ExYamlMapping(serde_yaml::Mapping);

/// The mathematical value of a YAML value. Numbers and tags are held by
/// their text.
pub enum YamlV {
    Null,
    Bool(bool),
    Number(Seq<char>),
    Str(Seq<char>),
    List(Seq<YamlV>),
    Mapping(Seq<(YamlV, YamlV)>),
    Tagged(Seq<char>, Box<YamlV>),
}

/// The tree that a `serde_yaml::Value` holds.
pub uninterp spec fn yaml_tree(v: serde_yaml::Value) -> YamlV;

/// The entries that a `serde_yaml::Mapping` holds, in order.
pub uninterp spec fn mapping_entries(m: serde_yaml::Mapping) -> Seq<(YamlV, YamlV)>;

/// What `serde_yaml::from_str::<Value>` gives for a text: the value, or the
/// text of the error.
pub uninterp spec fn yaml_parse(text: Seq<char>) -> Result<YamlV, Seq<char>>;

/// What `serde_yaml::to_string` gives for a value: the YAML text, or the
/// text of the error.
pub uninterp spec fn yaml_emit(v: YamlV) -> Result<Seq<char>, Seq<char>>;

/// A value without its tags.
pub open spec fn untag(v: YamlV) -> YamlV
    decreases v,
{
    match v {
        YamlV::Tagged(_, b) => untag(*b),
        _ => v,
    }
}

/// The first entry (from `i` on) whose key is the string `k`.
pub open spec fn key_index_from(es: Seq<(YamlV, YamlV)>, k: Seq<char>, i: int) -> Option<int>
    decreases es.len() - i,
{
    if i < 0 || i >= es.len() {
        None
    } else if es[i].0 == YamlV::Str(k) {
        Some(i)
    } else {
        key_index_from(es, k, i + 1)
    }
}

/// The entry whose key is the string `k`.
pub open spec fn key_index(es: Seq<(YamlV, YamlV)>, k: Seq<char>) -> Option<int> {
    key_index_from(es, k, 0)
}

/// No string key occurs twice.
pub open spec fn unique_str_keys(es: Seq<(YamlV, YamlV)>) -> bool {
    forall|i: int, j: int|
        0 <= i < j < es.len() && (#[trigger] es[i]).0 is Str ==> es[i].0 != (#[trigger] es[j]).0
}

/// The value for the string key `k`.
pub open spec fn map_get(es: Seq<(YamlV, YamlV)>, k: Seq<char>) -> Option<YamlV> {
    match key_index(es, k) {
        Some(i) => Some(es[i].1),
        None => None,
    }
}

/// Entries after setting the string key `k` to `v`: an existing entry keeps
/// its place, a new one goes last.
pub open spec fn map_insert(es: Seq<(YamlV, YamlV)>, k: Seq<char>, v: YamlV) -> Seq<(YamlV, YamlV)> {
    match key_index(es, k) {
        Some(i) => es.update(i, (es[i].0, v)),
        None => es.push((YamlV::Str(k), v)),
    }
}

/// Entries after removing the string key `k` by swapping the last entry
/// into its place.
pub open spec fn map_swap_remove(es: Seq<(YamlV, YamlV)>, k: Seq<char>) -> Seq<(YamlV, YamlV)> {
    match key_index(es, k) {
        Some(i) => if i == es.len() - 1 {
            es.drop_last()
        } else {
            es.drop_last().update(i, es.last())
        },
        None => es,
    }
}

/// `serde_yaml::from_str::<serde_yaml::Value>`: the value, or the error's
/// message.
#[verifier::external_body]
pub fn yaml_from_str(text: &str) -> (r: Result<serde_yaml::Value, String>)
    ensures
        match r {
            Ok(v) => yaml_parse(text@) == Ok::<YamlV, Seq<char>>(yaml_tree(v)),
            Err(e) => yaml_parse(text@) == Err::<YamlV, Seq<char>>(e@),
        },
{
    serde_yaml::from_str::<serde_yaml::Value>(text).map_err(|e| e.to_string())
}

/// `serde_yaml::to_string` of a value: its YAML text, or the error's
/// message.
#[verifier::external_body]
pub fn yaml_to_string(v: &serde_yaml::Value) -> (r: Result<String, String>)
    ensures
        match r {
            Ok(s) => yaml_emit(yaml_tree(*v)) == Ok::<Seq<char>, Seq<char>>(s@),
            Err(e) => yaml_emit(yaml_tree(*v)) == Err::<Seq<char>, Seq<char>>(e@),
        },
{
    serde_yaml::to_string(v).map_err(|e| e.to_string())
}

/// A value's mapping, when the value is a (not tagged) mapping; the value
/// itself otherwise. A mapping never holds a string key twice.
#[verifier::external_body]
pub fn into_mapping(v: serde_yaml::Value) -> (r: Result<serde_yaml::Mapping, serde_yaml::Value>)
    ensures
        match r {
            Ok(m) => yaml_tree(v) == YamlV::Mapping(mapping_entries(m)) && unique_str_keys(
                mapping_entries(m),
            ),
            Err(w) => yaml_tree(w) == yaml_tree(v) && !(yaml_tree(v) is Mapping),
        },
{
    match v {
        serde_yaml::Value::Mapping(m) => Ok(m),
        other => Err(other),
    }
}

/// The value of a mapping (`Value::Mapping`).
#[verifier::external_body]
pub fn from_mapping(m: serde_yaml::Mapping) -> (r: serde_yaml::Value)
    ensures
        yaml_tree(r) == YamlV::Mapping(mapping_entries(m)),
{
    serde_yaml::Value::Mapping(m)
}

/// An empty mapping (`Mapping::new`).
#[verifier::external_body]
pub fn mapping_new() -> (r: serde_yaml::Mapping)
    ensures
        mapping_entries(r) == Seq::<(YamlV, YamlV)>::empty(),
{
    serde_yaml::Mapping::new()
}

/// `Mapping::get` with a string key.
#[verifier::external_body]
pub fn mapping_get<'a>(m: &'a serde_yaml::Mapping, key: &str) -> (r: Option<&'a serde_yaml::Value>)
    ensures
        match map_get(mapping_entries(*m), key@) {
            Some(v) => r matches Some(x) && yaml_tree(*x) == v,
            None => r is None,
        },
{
    m.get(key)
}

/// `Mapping::insert` with a string key (the key made by `Value::String`).
#[verifier::external_body]
pub fn mapping_insert(m: &mut serde_yaml::Mapping, key: &str, v: serde_yaml::Value) -> (r: Option<serde_yaml::Value>)
    requires
        unique_str_keys(mapping_entries(*old(m))),
    ensures
        mapping_entries(*final(m)) == map_insert(mapping_entries(*old(m)), key@, yaml_tree(v)),
        unique_str_keys(mapping_entries(*final(m))),
        match map_get(mapping_entries(*old(m)), key@) {
            Some(old_v) => r matches Some(x) && yaml_tree(x) == old_v,
            None => r is None,
        },
{
    m.insert(serde_yaml::Value::String(key.to_string()), v)
}

/// `Mapping::remove` with a string key, which swaps the last entry into
/// the removed one's place.
#[verifier::external_body]
pub fn mapping_remove(m: &mut serde_yaml::Mapping, key: &str) -> (r: Option<serde_yaml::Value>)
    requires
        unique_str_keys(mapping_entries(*old(m))),
    ensures
        mapping_entries(*final(m)) == map_swap_remove(mapping_entries(*old(m)), key@),
        unique_str_keys(mapping_entries(*final(m))),
        match map_get(mapping_entries(*old(m)), key@) {
            Some(old_v) => r matches Some(x) && yaml_tree(x) == old_v,
            None => r is None,
        },
{
    m.remove(key)
}

/// `Value::get` with a string key: the value for that key when the value,
/// without its tags, is a mapping.
#[verifier::external_body]
pub fn value_get<'a>(v: &'a serde_yaml::Value, key: &str) -> (r: Option<&'a serde_yaml::Value>)
    ensures
        match untag(yaml_tree(*v)) {
            YamlV::Mapping(es) => match map_get(es, key@) {
                Some(x) => r matches Some(y) && yaml_tree(*y) == x,
                None => r is None,
            },
            _ => r is None,
        },
{
    v.get(key)
}

/// `Value::as_str`: the string, when the value without its tags is one.
#[verifier::external_body]
pub fn value_as_str(v: &serde_yaml::Value) -> (r: Option<&str>)
    ensures
        match untag(yaml_tree(*v)) {
            YamlV::Str(s) => r matches Some(x) && x@ == s,
            _ => r is None,
        },
{
    v.as_str()
}

/// `Value::as_sequence`: the items, when the value without its tags is a
/// sequence.
#[verifier::external_body]
pub fn value_as_sequence(v: &serde_yaml::Value) -> (r: Option<&Vec<serde_yaml::Value>>)
    ensures
        match untag(yaml_tree(*v)) {
            YamlV::List(items) => r matches Some(x) && x@.len() == items.len() && forall|i: int|
                0 <= i < items.len() ==> yaml_tree(#[trigger] x@[i]) == items[i],
            _ => r is None,
        },
{
    v.as_sequence()
}

/// `Value::String`.
#[verifier::external_body]
pub fn value_string(s: String) -> (r: serde_yaml::Value)
    ensures
        yaml_tree(r) == YamlV::Str(s@),
{
    serde_yaml::Value::String(s)
}

/// `Value::Sequence`.
#[verifier::external_body]
pub fn value_sequence(items: Vec<serde_yaml::Value>) -> (r: serde_yaml::Value)
    ensures
        yaml_tree(r) == YamlV::List(Seq::new(items@.len(), |i: int| yaml_tree(items@[i]))),
{
    serde_yaml::Value::Sequence(items)
}

/// `Value::clone`.
#[verifier::external_body]
pub fn value_clone(v: &serde_yaml::Value) -> (r: serde_yaml::Value)
    ensures
        yaml_tree(r) == yaml_tree(*v),
{
    v.clone()
}

/// The items of a value that is a (not tagged) sequence; the value itself
/// otherwise.
#[verifier::external_body]
pub fn into_sequence(v: serde_yaml::Value) -> (r: Result<Vec<serde_yaml::Value>, serde_yaml::Value>)
    ensures
        match r {
            Ok(items) => yaml_tree(v) == YamlV::List(Seq::new(items@.len(), |i: int| yaml_tree(items@[i]))),
            Err(w) => yaml_tree(w) == yaml_tree(v) && !(yaml_tree(v) is List),
        },
{
    match v {
        serde_yaml::Value::Sequence(items) => Ok(items),
        other => Err(other),
    }
}

/// The string of a value that is a (not tagged) string.
#[verifier::external_body]
pub fn string_variant(v: &serde_yaml::Value) -> (r: Option<&String>)
    ensures
        match yaml_tree(*v) {
            YamlV::Str(s) => r matches Some(x) && x@ == s,
            _ => r is None,
        },
{
    match v {
        serde_yaml::Value::String(s) => Some(s),
        _ => None,
    }
}

/// The entries of a mapping, in order (`Mapping::iter`), each key and
/// value cloned.
#[verifier::external_body]
pub fn mapping_entries_vec(m: &serde_yaml::Mapping) -> (r: Vec<(serde_yaml::Value, serde_yaml::Value)>)
    ensures
        r@.len() == mapping_entries(*m).len(),
        forall|i: int|
            0 <= i < r@.len() ==> yaml_tree((#[trigger] r@[i]).0) == mapping_entries(*m)[i].0
                && yaml_tree(r@[i].1) == mapping_entries(*m)[i].1,
{
    m.iter().map(|(k, v)| (k.clone(), v.clone())).collect()
}

/// The items of a value that is a (not tagged) sequence.
#[verifier::external_body]
pub fn sequence_variant(v: &serde_yaml::Value) -> (r: Option<&Vec<serde_yaml::Value>>)
    ensures
        match yaml_tree(*v) {
            YamlV::List(items) => r matches Some(x) && x@.len() == items.len() && forall|i: int|
                0 <= i < items.len() ==> yaml_tree(#[trigger] x@[i]) == items[i],
            _ => r is None,
        },
{
    match v {
        serde_yaml::Value::Sequence(items) => Some(items),
        _ => None,
    }
}

/// The mapping of a value that is a (not tagged) mapping.
#[verifier::external_body]
pub fn mapping_variant(v: &serde_yaml::Value) -> (r: Option<&serde_yaml::Mapping>)
    ensures
        match yaml_tree(*v) {
            YamlV::Mapping(es) => r matches Some(m) && mapping_entries(*m) == es,
            _ => r is None,
        },
{
    match v {
        serde_yaml::Value::Mapping(m) => Some(m),
        _ => None,
    }
}

/// The boolean of a value that is a (not tagged) boolean.
#[verifier::external_body]
pub fn bool_variant(v: &serde_yaml::Value) -> (r: Option<bool>)
    ensures
        match yaml_tree(*v) {
            YamlV::Bool(b) => r == Some(b),
            _ => r is None,
        },
{
    match v {
        serde_yaml::Value::Bool(b) => Some(*b),
        _ => None,
    }
}

/// Whether a value is `Value::Null` (not tagged).
#[verifier::external_body]
pub fn is_null_variant(v: &serde_yaml::Value) -> (r: bool)
    ensures
        r == (yaml_tree(*v) is Null),
{
    match v {
        serde_yaml::Value::Null => true,
        _ => false,
    }
}

/// The compact text of the JSON value that `serde_json::to_value` makes of
/// a YAML value, or none when it refuses the value.
pub uninterp spec fn yaml_json(v: YamlV) -> Option<Seq<char>>;

/// `serde_json::to_value` of a YAML value, written out as compact JSON text
/// (the `Display` of `serde_json::Value`); none when the conversion fails.
#[verifier::external_body]
pub fn yaml_json_text(v: &serde_yaml::Value) -> (r: Option<String>)
    ensures
        opt_text(r) == yaml_json(yaml_tree(*v)),
{
    serde_json::to_value(v).ok().map(|j| j.to_string())
}

/// The text of an optional string.
pub open spec fn opt_text(o: Option<String>) -> Option<Seq<char>> {
    match o {
        Some(t) => Some(t@),
        None => None,
    }
}

/// The `Display` text of a value that is a (not tagged) number.
#[verifier::external_body]
pub fn number_text(v: &serde_yaml::Value) -> (r: Option<String>)
    ensures
        match yaml_tree(*v) {
            YamlV::Number(t) => r matches Some(x) && x@ == t,
            _ => r is None,
        },
{
    match v {
        serde_yaml::Value::Number(n) => Some(n.to_string()),
        _ => None,
    }
}

/// What `serde_yaml::Number::as_i64` gives for the number with this text:
/// the value of an integer text (an optional `-` and decimal digits, as
/// integers are written) within `i64`'s range; none for other numbers,
/// whose text holds a `.`, an `e` or is `.nan`, `.inf` or `-.inf`.
pub open spec fn yaml_as_i64(n: Seq<char>) -> Option<i64> {
    match crate::parser::dates::parse_i64_spec(n) {
        Some(v) => Some(v as i64),
        None => None,
    }
}

/// The `Display` text of what `serde_yaml::Number::as_f64` gives for the
/// number with this text.
pub uninterp spec fn yaml_f64_text(n: Seq<char>) -> Option<Seq<char>>;

/// `Number::as_i64` of a value that is a (not tagged) number.
#[verifier::external_body]
pub fn number_as_i64(v: &serde_yaml::Value) -> (r: Option<i64>)
    ensures
        match yaml_tree(*v) {
            YamlV::Number(t) => r == yaml_as_i64(t),
            _ => r is None,
        },
{
    match v {
        serde_yaml::Value::Number(n) => n.as_i64(),
        _ => None,
    }
}

/// `Number::as_f64` of a value that is a (not tagged) number, as text.
/// `as_f64` gives a value for every number.
#[verifier::external_body]
pub fn number_f64_text(v: &serde_yaml::Value) -> (r: Option<String>)
    ensures
        match yaml_tree(*v) {
            YamlV::Number(t) => yaml_f64_text(t) is Some && match yaml_f64_text(t) {
                Some(x) => r matches Some(y) && y@ == x,
                None => r is None,
            },
            _ => r is None,
        },
{
    match v {
        serde_yaml::Value::Number(n) => n.as_f64().map(|f| f.to_string()),
        _ => None,
    }
}

} // verus!
