//! Reading YAML and JSON text with `serde_yaml` and `serde_json`. The trees
//! they parse to are carried over into the library's value types; what a
//! text parses to is named, not restated.

use vstd::prelude::*;
use serde_json::Value as JsonTree;
use serde_yaml::value::{Tag, TaggedValue};
use serde_yaml::Value as YamlTree;
use crate::groq_client::{Json, JsonValue};
use crate::kg::{tags_named, Yaml, YamlValue};

verus! {

#[verifier::external_type_specification]
#[verifier::external_body]
pub struct ExYamlTree(serde_yaml::Value);

#[verifier::external_type_specification]
#[verifier::external_body]
pub struct ExJsonTree(serde_json::Value);

/// The YAML value `serde_yaml::from_str` parses a text to, if it parses.
pub uninterp spec fn yaml_parse(text: Seq<char>) -> Option<Yaml>;

/// The text `serde_yaml::to_string` writes for a YAML value, if it writes one.
pub uninterp spec fn yaml_text_of(v: Yaml) -> Option<Seq<char>>;

/// The YAML value `serde_yaml::to_value` gives for a JSON value, if it
/// gives one.
pub uninterp spec fn json_as_yaml(j: Json) -> Option<Yaml>;

/// The JSON value `serde_json::from_str` parses a text to, if it parses.
pub uninterp spec fn json_parse(text: Seq<char>) -> Option<Json>;

/// Carries a `serde_yaml` tree over into the library's value, node for node
/// (numbers by their printed text, tags by their printed form).
#[verifier::external_body]
fn yaml_from(v: &YamlTree) -> YamlValue {
    match v {
        YamlTree::Null => YamlValue::Null,
        YamlTree::Bool(b) => YamlValue::Bool(*b),
        YamlTree::Number(n) => YamlValue::Number(n.to_string()),
        YamlTree::String(s) => YamlValue::String(s.clone()),
        YamlTree::Sequence(s) => YamlValue::Sequence(s.iter().map(yaml_from).collect()),
        YamlTree::Mapping(m) => YamlValue::Mapping(m.iter().map(|(k, x)| (yaml_from(k), yaml_from(x))).collect()),
        YamlTree::Tagged(t) => YamlValue::Tagged(t.tag.to_string(), Box::new(yaml_from(&t.value))),
    }
}

/// Carries a `serde_json` tree over into the library's value, node for node
/// (numbers by their printed text, object members in the map's order).
#[verifier::external_body]
fn json_from(v: &JsonTree) -> JsonValue {
    match v {
        JsonTree::Null => JsonValue::Null,
        JsonTree::Bool(b) => JsonValue::Bool(*b),
        JsonTree::Number(n) => JsonValue::Number(n.to_string()),
        JsonTree::String(s) => JsonValue::String(s.clone()),
        JsonTree::Array(a) => JsonValue::Array(a.iter().map(json_from).collect()),
        JsonTree::Object(m) => JsonValue::Object(m.iter().map(|(k, x)| (k.clone(), json_from(x))).collect()),
    }
}

/// Calls `serde_yaml::from_str` for a YAML tree. The contract names what
/// the text parses to (`yaml_parse`), `None` when it does not parse; the
/// YAML grammar is not restated.
#[verifier::external_body]
pub(crate) fn parse_yaml(text: &str) -> (r: Option<YamlValue>)
    ensures
        match r {
            Some(v) => yaml_parse(text@) == Some(v@),
            None => yaml_parse(text@) is None,
        },
{
    serde_yaml::from_str::<YamlTree>(text).ok().map(|v| yaml_from(&v))
}

/// Calls `serde_json::from_str` for a JSON tree. The contract names what
/// the text parses to (`json_parse`), `None` when it does not parse; the
/// JSON grammar is not restated.
#[verifier::external_body]
pub(crate) fn parse_json(text: &str) -> (r: Option<JsonValue>)
    ensures
        match r {
            Some(v) => json_parse(text@) == Some(v@),
            None => json_parse(text@) is None,
        },
{
    serde_json::from_str::<JsonTree>(text).ok().map(|v| json_from(&v))
}

/// Carries the library's value over into a `serde_yaml` tree, node for node
/// (a number by parsing its text, kept as a string when it does not parse;
/// a tag by its name, which must not be empty).
#[verifier::external_body]
fn yaml_into(v: &YamlValue) -> YamlTree {
    match v {
        YamlValue::Null => YamlTree::Null,
        YamlValue::Bool(b) => YamlTree::Bool(*b),
        YamlValue::Number(n) => n.parse().map(YamlTree::Number).unwrap_or_else(|_| YamlTree::String(n.clone())),
        YamlValue::String(s) => YamlTree::String(s.clone()),
        YamlValue::Sequence(s) => YamlTree::Sequence(s.iter().map(yaml_into).collect()),
        YamlValue::Mapping(m) => YamlTree::Mapping(m.iter().map(|(k, x)| (yaml_into(k), yaml_into(x))).collect()),
        YamlValue::Tagged(t, b) => YamlTree::Tagged(Box::new(TaggedValue { tag: Tag::new(t.clone()), value: yaml_into(b) })),
    }
}

/// Calls `serde_yaml::to_string` on the value carried over into a
/// `serde_yaml` tree. The contract names the text written (`yaml_text_of`),
/// `None` when writing fails; YAML's layout rules are not restated. A tag
/// without a name makes `Tag::new` panic, so every tag must be named.
#[verifier::external_body]
pub(crate) fn render_yaml(v: &YamlValue) -> (r: Option<String>)
    requires
        tags_named(v@),
    ensures
        match r {
            Some(t) => yaml_text_of(v@) == Some(t@),
            None => yaml_text_of(v@) is None,
        },
{
    serde_yaml::to_string(&yaml_into(v)).ok()
}

/// Carries the library's JSON value over into a `serde_json` tree, node for
/// node (a number by parsing its text, kept as a string when it does not
/// parse).
#[verifier::external_body]
fn json_into(v: &JsonValue) -> JsonTree {
    match v {
        JsonValue::Null => JsonTree::Null,
        JsonValue::Bool(b) => JsonTree::Bool(*b),
        JsonValue::Number(n) => n.parse().map(JsonTree::Number).unwrap_or_else(|_| JsonTree::String(n.clone())),
        JsonValue::String(s) => JsonTree::String(s.clone()),
        JsonValue::Array(a) => JsonTree::Array(a.iter().map(json_into).collect()),
        JsonValue::Object(m) => JsonTree::Object(m.iter().map(|(k, x)| (k.clone(), json_into(x))).collect()),
    }
}

/// Calls `serde_yaml::to_value` on a JSON value carried over into a
/// `serde_json` tree, and carries the YAML tree back. The contract names the
/// result (`json_as_yaml`), `None` when the conversion fails; how
/// `serde_yaml` serialises JSON is not restated.
#[verifier::external_body]
pub(crate) fn convert_json_to_yaml(j: &JsonValue) -> (r: Option<YamlValue>)
    ensures
        match r {
            Some(y) => json_as_yaml(j@) == Some(y@),
            None => json_as_yaml(j@) is None,
        },
{
    serde_yaml::to_value(json_into(j)).ok().map(|v| yaml_from(&v))
}

} // verus!
