//! Metadata values: the typed content of a document header.

use crate::text::str_eq;
use std::collections::BTreeMap;
use vstd::prelude::*;

verus! {

/// A structured metadata value, typed as it was authored.
#[derive(Debug, PartialEq)]
pub enum MetaValue {
    /// No value.
    Null,
    /// A boolean.
    Bool(bool),
    /// A number, held as its canonical text.
    Number(String),
    /// A string.
    Text(String),
    /// An ordered sequence of values.
    Sequence(Vec<MetaValue>),
    /// A mapping, as its entries in authored order.
    Mapping(Vec<(MetaValue, MetaValue)>),
    /// A value that carries a tag.
    Tagged(String, Box<MetaValue>),
}

/// The mathematical content of a [`MetaValue`].
pub enum MetaModel {
    Null,
    Bool(bool),
    Number(Seq<char>),
    Text(Seq<char>),
    Sequence(Seq<MetaModel>),
    Mapping(Seq<(MetaModel, MetaModel)>),
    Tagged(Seq<char>, Box<MetaModel>),
}

/// The content of a value, with every string taken as its characters.
pub open spec fn model_of(value: MetaValue) -> MetaModel
    decreases value,
{
    match value {
        MetaValue::Null => MetaModel::Null,
        MetaValue::Bool(b) => MetaModel::Bool(b),
        MetaValue::Number(n) => MetaModel::Number(n@),
        MetaValue::Text(s) => MetaModel::Text(s@),
        MetaValue::Sequence(items) => MetaModel::Sequence(
            Seq::new(
                items.len() as nat,
                |i: int|
                    if 0 <= i < items.len() {
                        model_of(items[i])
                    } else {
                        MetaModel::Null
                    },
            ),
        ),
        MetaValue::Mapping(entries) => MetaModel::Mapping(
            Seq::new(
                entries.len() as nat,
                |i: int|
                    if 0 <= i < entries.len() {
                        (model_of(entries[i].0), model_of(entries[i].1))
                    } else {
                        (MetaModel::Null, MetaModel::Null)
                    },
            ),
        ),
        MetaValue::Tagged(tag, inner) => MetaModel::Tagged(tag@, Box::new(model_of(*inner))),
    }
}

impl DeepView for MetaValue {
    type V = MetaModel;

    open spec fn deep_view(&self) -> MetaModel {
        model_of(*self)
    }
}

impl View for MetaValue {
    type V = MetaModel;

    open spec fn view(&self) -> MetaModel {
        model_of(*self)
    }
}

#[verifier::external_type_specification]
#[verifier::external_body]
pub struct ExYamlValue(serde_yaml::Value);

/// The top-level mapping that `serde_yaml` reads from `text`, as entries in
/// key order; `None` where it reports an error.
pub uninterp spec fn yaml_mapping(text: Seq<char>) -> Option<Seq<(Seq<char>, MetaModel)>>;

/// Converts one `serde_yaml::Value` into a [`MetaValue`], variant by variant:
/// a number becomes its `Display` text, a tag its `Display` text, and
/// sequences, mappings and tagged values convert their parts in order.
#[verifier::external_body]
pub(crate) fn meta_of(value: &serde_yaml::Value) -> (meta: MetaValue)
{
    match value {
        serde_yaml::Value::Null => MetaValue::Null,
        serde_yaml::Value::Bool(b) => MetaValue::Bool(*b),
        serde_yaml::Value::Number(n) => MetaValue::Number(n.to_string()),
        serde_yaml::Value::String(s) => MetaValue::Text(s.clone()),
        serde_yaml::Value::Sequence(items) => MetaValue::Sequence(items.iter().map(meta_of).collect()),
        serde_yaml::Value::Mapping(map) => MetaValue::Mapping(map.iter().map(|(k, v)| (meta_of(k), meta_of(v))).collect()),
        serde_yaml::Value::Tagged(t) => MetaValue::Tagged(t.tag.to_string(), Box::new(meta_of(&t.value))),
    }
}

/// Calls `serde_yaml::from_str` for a map from `String` to `serde_yaml::Value`
/// and hands the entries out in key order, each value converted by
/// [`meta_of`]. The parse is not specified here: it is only given the name
/// [`yaml_mapping`]. A map holds each key once, so no two entries share a key.
#[verifier::external_body]
pub(crate) fn read_yaml(text: &str) -> (entries: Option<Vec<(String, MetaValue)>>)
    ensures
        entries.deep_view() == yaml_mapping(text@),
        entries matches Some(list) ==> forall|i: int, j: int|
            0 <= i < j < list.len() ==> list[i].0@ != list[j].0@,
{
    let map = serde_yaml::from_str::<BTreeMap<String, serde_yaml::Value>>(text).ok()?;
    Some(map.iter().map(|(key, value)| (key.clone(), meta_of(value))).collect())
}

/// A value without the tags around it.
pub open spec fn untagged(value: MetaModel) -> MetaModel
    decreases value,
{
    match value {
        MetaModel::Tagged(_, inner) => untagged(*inner),
        _ => value,
    }
}

/// The text of a value that is a string once its tags are taken off.
pub open spec fn text_of(value: MetaModel) -> Option<Seq<char>> {
    match untagged(value) {
        MetaModel::Text(s) => Some(s),
        _ => None,
    }
}

/// The value of the first entry with the given key.
pub open spec fn value_of(entries: Seq<(Seq<char>, MetaModel)>, key: Seq<char>) -> Option<
    MetaModel,
>
    decreases entries.len(),
{
    if entries.len() == 0 {
        None
    } else if entries[0].0 == key {
        Some(entries[0].1)
    } else {
        value_of(entries.drop_first(), key)
    }
}

impl MetaValue {
    /// The text of a string value; tags around it are looked through.
    pub fn as_str(&self) -> (r: Option<&str>)
        ensures
            r.deep_view() == text_of(self@),
        decreases self,
    {
        match self {
            MetaValue::Tagged(_, inner) => inner.as_str(),
            MetaValue::Text(s) => Some(s.as_str()),
            _ => None,
        }
    }
}

/// The value stored under `key`, if any.
pub fn lookup<'a>(entries: &'a Vec<(String, MetaValue)>, key: &str) -> (r: Option<&'a MetaValue>)
    ensures
        r.deep_view() == value_of(entries.deep_view(), key@),
{
    let ghost all = entries.deep_view();
    let mut i: usize = 0;
    assert(all.skip(0) == all);
    while i < entries.len()
        invariant
            i <= entries.len(),
            all == entries.deep_view(),
            value_of(all, key@) == value_of(all.skip(i as int), key@),
        decreases entries.len() - i,
    {
        proof {
            assert(all.skip(i as int)[0] == all[i as int]);
            assert(all.skip(i as int).drop_first() == all.skip(i + 1));
        }
        if str_eq(entries[i].0.as_str(), key) {
            return Some(&entries[i].1);
        }
        i += 1;
    }
    None
}

} // verus!
