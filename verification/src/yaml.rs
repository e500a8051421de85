//! The boundary to the YAML parser.
//!
//! A parsed document is carried as an opaque `serde_yaml::Value`; what such
//! a value holds is modelled by the `Yaml` datatype, named by `yaml_model`.
//! Every reading of a value goes through the small trusted wrappers below,
//! whose contracts state what serde_yaml's source shows.
use vstd::prelude::*;

verus! {

/// A model of a YAML document, just deep enough for frontmatter: null,
/// strings, sequences and string-keyed mappings are distinguished;
/// booleans, numbers and tagged values collapse into `Other`.
pub ghost enum Yaml {
    Null,
    Str(Seq<char>),
    List(Seq<Yaml>),
    Dict(Map<Seq<char>, Yaml>),
    Other,
}

#[verifier::external_type_specification]
#[verifier::external_body]
pub struct ExYamlValue(serde_yaml::Value);

/// What a `serde_yaml::Value` holds, as its `Yaml` model.
pub uninterp spec fn yaml_model(v: serde_yaml::Value) -> Yaml;

/// What parsing a document returns: the model of its value, or nothing when
/// the document is rejected.
pub uninterp spec fn yaml_of(s: Seq<char>) -> Option<Yaml>;

/// Relies on `serde_yaml::from_str::<Value>`: the result depends on the
/// characters alone; a rejected document yields an error, whose display
/// text is passed along.
#[verifier::external_body]
pub(crate) fn parse_yaml(s: &str) -> (r: Result<serde_yaml::Value, String>)
    ensures
        (r is Ok) == (yaml_of(s@) is Some),
        r matches Ok(v) ==> yaml_of(s@) == Some(yaml_model(v)),
{
    match serde_yaml::from_str::<serde_yaml::Value>(s) {
        Ok(v) => Ok(v),
        Err(e) => Err(format!("{}", e)),
    }
}

/// Relies on `serde_yaml::Value::is_null` (a tagged null counts as null).
#[verifier::external_body]
pub(crate) fn yaml_is_null(v: &serde_yaml::Value) -> (r: bool)
    ensures
        r == (yaml_model(*v) is Null),
{
    v.is_null()
}

/// Relies on `serde_yaml::Value::is_mapping`.
#[verifier::external_body]
pub(crate) fn yaml_is_mapping(v: &serde_yaml::Value) -> (r: bool)
    ensures
        r == (yaml_model(*v) is Dict),
{
    v.is_mapping()
}

/// Relies on `serde_yaml::Value::get` with a string index: on a mapping it
/// returns the value stored under that string key, on anything else
/// nothing.
#[verifier::external_body]
pub(crate) fn yaml_get<'a>(v: &'a serde_yaml::Value, key: &str) -> (r: Option<
    &'a serde_yaml::Value,
>)
    ensures
        yaml_model(*v) matches Yaml::Dict(m) ==> (r is Some) == m.contains_key(key@),
        yaml_model(*v) matches Yaml::Dict(m) ==> (r matches Some(w) ==> m.contains_key(key@)
            && yaml_model(*w) == m[key@]),
        !(yaml_model(*v) is Dict) ==> r is None,
{
    v.get(key)
}

/// Relies on `serde_yaml::Value::as_str`.
#[verifier::external_body]
pub(crate) fn yaml_as_str<'a>(v: &'a serde_yaml::Value) -> (r: Option<&'a str>)
    ensures
        (r is Some) == (yaml_model(*v) is Str),
        r matches Some(s) ==> yaml_model(*v) == Yaml::Str(s@),
{
    v.as_str()
}

/// Relies on `serde_yaml::Value::as_sequence`: the models of the returned
/// elements are the model's list.
#[verifier::external_body]
pub(crate) fn yaml_as_sequence<'a>(v: &'a serde_yaml::Value) -> (r: Option<
    &'a Vec<serde_yaml::Value>,
>)
    ensures
        (r is Some) == (yaml_model(*v) is List),
        r matches Some(l) ==> yaml_model(*v) == Yaml::List(
            l@.map_values(|w: serde_yaml::Value| yaml_model(w)),
        ),
{
    v.as_sequence()
}

} // verus!
