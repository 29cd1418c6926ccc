//! The calls this library makes into `indexmap` and `serde_yaml`, with what
//! is believed of them. Nothing here is proved; each contract restates the
//! documented behaviour of the function it wraps.
use vstd::prelude::*;
use indexmap::IndexMap;
use serde_yaml::{Number, Value};
use crate::model::CustomFeature;
use crate::strmap::{first_key_index, pairs_insert, pairs_remove};

verus! {

/// `indexmap::IndexMap`, a hash map that keeps its entries in insertion
/// order.
#[verifier::external_type_specification]
#[verifier::external_body]
#[verifier::reject_recursive_types(K)]
#[verifier::reject_recursive_types(V)]
#[verifier::reject_recursive_types(S)]
pub struct ExIndexMap<K, V, S>(IndexMap<K, V, S>);

/// `serde_yaml::Value`, a parsed YAML node.
#[verifier::external_type_specification]
#[verifier::external_body]
pub struct ExYamlValue(Value);

/// `serde_yaml::Number`, a YAML integer or float.
#[verifier::external_type_specification]
#[verifier::external_body]
pub struct ExYamlNumber(Number);

/// `serde_yaml::Error`, a failure to serialize or parse YAML.
#[verifier::external_type_specification]
#[verifier::external_body]
pub struct ExYamlError(serde_yaml::Error);

/// Which kind of YAML node a value is, with the payload of the scalar
/// kinds.
pub enum ScalarShape {
    Str(String),
    Num(Number),
    Bool(bool),
    Null,
    /// A sequence, a mapping or a tagged value.
    Other,
}

/// The kind of YAML node `v` is (its `Value` variant).
pub uninterp spec fn shape_of(v: Value) -> ScalarShape;

/// The text that `serde_yaml::Number`'s `Display` writes for `n`.
pub uninterp spec fn number_text(n: Number) -> Seq<char>;

/// The YAML document that `serde_yaml::to_string` writes for `v`, when it
/// succeeds.
pub uninterp spec fn yaml_text(v: Value) -> Option<Seq<char>>;

/// The entries of a map of feature entries, in the map's order.
pub uninterp spec fn feature_entries(m: IndexMap<String, CustomFeature>) -> Seq<
    (Seq<char>, CustomFeature),
>;

/// The entries of a map of choices, in the map's order.
pub uninterp spec fn choice_entries(m: IndexMap<Value, Value>) -> Seq<(Value, Value)>;

/// The entries of a map from names to lists of positions, in the map's
/// order.
pub uninterp spec fn bucket_entries(m: IndexMap<String, Vec<usize>>) -> Seq<(Seq<char>, Seq<usize>)>;

/// Tells apart the variants of `serde_yaml::Value` (no untagging), moving
/// out the payload of the scalar ones. Believed: the result is a function
/// of `v` alone.
#[verifier::external_body]
pub(crate) fn scalar_shape(v: &Value) -> (r: ScalarShape)
    ensures
        r == shape_of(*v),
{
    match v {
        Value::String(s) => ScalarShape::Str(s.clone()),
        Value::Number(n) => ScalarShape::Num(n.clone()),
        Value::Bool(b) => ScalarShape::Bool(*b),
        Value::Null => ScalarShape::Null,
        _ => ScalarShape::Other,
    }
}

/// `<serde_yaml::Number as Display>` through `ToString::to_string`.
/// Believed: the text is a function of `n` alone.
#[verifier::external_body]
pub(crate) fn number_to_string(n: &Number) -> (s: String)
    ensures
        s@ == number_text(*n),
{
    n.to_string()
}

/// `serde_yaml::to_string`. Believed: whether it succeeds, and the text
/// it writes, are functions of `v` alone. The error's contents are not
/// described.
#[verifier::external_body]
pub(crate) fn value_to_yaml(v: &Value) -> (r: Result<String, serde_yaml::Error>)
    ensures
        r is Ok <==> yaml_text(*v) is Some,
        r matches Ok(s) ==> yaml_text(*v) == Some(s@),
{
    serde_yaml::to_string(v)
}

/// `IndexMap::len` on a map of choices: the number of entries.
#[verifier::external_body]
pub(crate) fn choices_len(m: &IndexMap<Value, Value>) -> (n: usize)
    ensures
        n == choice_entries(*m).len(),
{
    m.len()
}

/// `IndexMap::get_index` on a map of choices: the entry at position `i` in
/// the map's order, which exists below `len`.
#[verifier::external_body]
pub(crate) fn choice_at(m: &IndexMap<Value, Value>, i: usize) -> (r: (&Value, &Value))
    requires
        i < choice_entries(*m).len(),
    ensures
        (*r.0, *r.1) == choice_entries(*m)[i as int],
{
    m.get_index(i).unwrap()
}

/// `IndexMap::len` on a map of feature entries.
#[verifier::external_body]
pub(crate) fn features_len(m: &IndexMap<String, CustomFeature>) -> (n: usize)
    ensures
        n == feature_entries(*m).len(),
{
    m.len()
}

/// `IndexMap::get_index` on a map of feature entries: the entry at
/// position `i` in the map's order, which exists below `len`.
#[verifier::external_body]
pub(crate) fn feature_at(m: &IndexMap<String, CustomFeature>, i: usize) -> (r: (
    &String,
    &CustomFeature,
))
    requires
        i < feature_entries(*m).len(),
    ensures
        (r.0@, *r.1) == feature_entries(*m)[i as int],
{
    m.get_index(i).unwrap()
}

/// `IndexMap::new`: a map with no entries.
#[verifier::external_body]
pub(crate) fn features_new() -> (m: IndexMap<String, CustomFeature>)
    ensures
        feature_entries(m) == Seq::<(Seq<char>, CustomFeature)>::empty(),
{
    IndexMap::new()
}

/// `IndexMap::insert`: an existing equal key keeps its place and gets the
/// new value; otherwise the entry goes last. The old value is returned.
#[verifier::external_body]
pub(crate) fn features_insert(
    m: &mut IndexMap<String, CustomFeature>,
    key: String,
    value: CustomFeature,
) -> (r: Option<CustomFeature>)
    ensures
        feature_entries(*final(m)) == pairs_insert(feature_entries(*old(m)), key@, value),
        r == pairs_remove(feature_entries(*old(m)), key@).1,
{
    m.insert(key, value)
}

/// `IndexMap::shift_remove`: removes the entry with an equal key, if any,
/// keeping the order of the others, and returns its value.
#[verifier::external_body]
pub(crate) fn features_shift_remove(m: &mut IndexMap<String, CustomFeature>, key: &str) -> (r:
    Option<CustomFeature>)
    ensures
        (feature_entries(*final(m)), r) == pairs_remove(feature_entries(*old(m)), key@),
{
    m.shift_remove(key)
}

/// `IndexMap::into_iter`, collected: the entries in the map's order.
#[verifier::external_body]
pub(crate) fn features_into_vec(m: IndexMap<String, CustomFeature>) -> (v: Vec<
    (String, CustomFeature),
>)
    ensures
        v@.map_values(|e: (String, CustomFeature)| (e.0@, e.1)) == feature_entries(m),
{
    m.into_iter().collect()
}

/// `IndexMap::new` on a map from names to lists of positions: no entries.
#[verifier::external_body]
pub(crate) fn buckets_new() -> (m: IndexMap<String, Vec<usize>>)
    ensures
        bucket_entries(m) == Seq::<(Seq<char>, Seq<usize>)>::empty(),
{
    IndexMap::new()
}

/// `IndexMap::len` on a map from names to lists of positions.
#[verifier::external_body]
pub(crate) fn buckets_len(m: &IndexMap<String, Vec<usize>>) -> (n: usize)
    ensures
        n == bucket_entries(*m).len(),
{
    m.len()
}

/// `IndexMap::get_index` on a map from names to lists of positions: the
/// entry at position `i` in the map's order, which exists below `len`.
#[verifier::external_body]
pub(crate) fn bucket_at(m: &IndexMap<String, Vec<usize>>, i: usize) -> (r: (&String, &Vec<usize>))
    requires
        i < bucket_entries(*m).len(),
    ensures
        (r.0@, r.1@) == bucket_entries(*m)[i as int],
{
    m.get_index(i).unwrap()
}

/// `IndexMap::get_index_of` on a map from names to lists of positions: the
/// position of the entry whose key equals `key`, if there is one (keys
/// occur once, so it is the first with that key).
#[verifier::external_body]
pub(crate) fn bucket_index_of(m: &IndexMap<String, Vec<usize>>, key: &str) -> (r: Option<usize>)
    ensures
        r is None <==> first_key_index(bucket_entries(*m), key@) is None,
        r matches Some(i) ==> first_key_index(bucket_entries(*m), key@) == Some(i as int),
{
    m.get_index_of(key)
}

/// `IndexMap::insert` on a map from names to lists of positions: an
/// existing equal key keeps its place and gets the new value; otherwise
/// the entry goes last.
#[verifier::external_body]
pub(crate) fn bucket_insert(m: &mut IndexMap<String, Vec<usize>>, key: String, value: Vec<usize>)
    ensures
        bucket_entries(*final(m)) == pairs_insert(bucket_entries(*old(m)), key@, value@),
{
    m.insert(key, value);
}

} // verus!
