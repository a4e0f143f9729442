//! JSON values, which `serde_json` reads and writes.
use crate::strmap;
use vstd::prelude::*;

verus! {

/// A JSON value: the outside type `serde_json::Value`.
#[verifier::external_type_specification]
#[verifier::external_body]
pub struct ExValue(serde_json::Value);

/// What a JSON value holds. A number that is no integer is held as its text; the members of an
/// object stand in ascending order of their names.
pub enum JsonTree {
    Null,
    Bool(bool),
    Int(int),
    Float(Seq<char>),
    Str(Seq<char>),
    Arr(Seq<JsonTree>),
    Obj(Seq<(Seq<char>, JsonTree)>),
}

/// What a `serde_json::Value` holds.
pub uninterp spec fn json_tree(v: serde_json::Value) -> JsonTree;

/// The top level of a JSON value.
pub enum JsonNode {
    Null,
    Bool(bool),
    Int(i64),
    UInt(u64),
    Float(String),
    Str(String),
    Arr(Vec<serde_json::Value>),
    Obj(Vec<(String, serde_json::Value)>),
}

/// What the items of an array hold.
pub open spec fn trees(a: Seq<serde_json::Value>) -> Seq<JsonTree> {
    Seq::new(a.len(), |i: int| json_tree(a[i]))
}

/// What the members of an object hold.
pub open spec fn members(o: Seq<(String, serde_json::Value)>) -> Seq<(Seq<char>, JsonTree)> {
    Seq::new(o.len(), |i: int| (o[i].0@, json_tree(o[i].1)))
}

impl JsonNode {
    /// What the value of this top level holds.
    pub open spec fn tree(self) -> JsonTree {
        match self {
            JsonNode::Null => JsonTree::Null,
            JsonNode::Bool(b) => JsonTree::Bool(b),
            JsonNode::Int(i) => JsonTree::Int(i as int),
            JsonNode::UInt(u) => JsonTree::Int(u as int),
            JsonNode::Float(s) => JsonTree::Float(s@),
            JsonNode::Str(s) => JsonTree::Str(s@),
            JsonNode::Arr(a) => JsonTree::Arr(trees(a@)),
            JsonNode::Obj(o) => JsonTree::Obj(members(o@)),
        }
    }
}

/// Tells the variants of a `serde_json::Value` apart and copies what the variant holds. An
/// integer comes as `as_i64` or `as_u64` gives it, another number as its `Display` text. An
/// object is backed by a `BTreeMap`, so its members come in ascending order of their names.
#[verifier::external_body]
pub(crate) fn node_of(v: &serde_json::Value) -> (r: JsonNode)
    ensures
        r.tree() == json_tree(*v),
        r matches JsonNode::Obj(o) ==> strmap::ascending(members(o@)),
{
    match v {
        serde_json::Value::Null => JsonNode::Null,
        serde_json::Value::Bool(b) => JsonNode::Bool(*b),
        serde_json::Value::Number(n) => match (n.as_i64(), n.as_u64()) {
            (Some(i), _) => JsonNode::Int(i),
            (None, Some(u)) => JsonNode::UInt(u),
            (None, None) => JsonNode::Float(n.to_string()),
        },
        serde_json::Value::String(s) => JsonNode::Str(s.clone()),
        serde_json::Value::Array(a) => JsonNode::Arr(a.clone()),
        serde_json::Value::Object(m) => JsonNode::Obj(m.clone().into_iter().collect()),
    }
}

/// `serde_json::Value::clone` copies a value.
pub assume_specification[ <serde_json::Value as Clone>::clone ](v: &serde_json::Value) -> (r:
    serde_json::Value)
    ensures
        json_tree(r) == json_tree(*v),
;

/// `serde_json::Value::String` makes a string.
#[verifier::external_body]
pub(crate) fn string_value(s: String) -> (r: serde_json::Value)
    ensures
        json_tree(r) == JsonTree::Str(s@),
{
    serde_json::Value::String(s)
}

/// `serde_json::Value::Array` makes an array.
#[verifier::external_body]
pub(crate) fn array_value(a: Vec<serde_json::Value>) -> (r: serde_json::Value)
    ensures
        json_tree(r) == JsonTree::Arr(trees(a@)),
{
    serde_json::Value::Array(a)
}

/// `serde_json::Value::Object` makes an object of a `serde_json::Map`, which is collected from
/// pairs and holds them in ascending order of the names.
#[verifier::external_body]
pub(crate) fn object_value(o: Vec<(String, serde_json::Value)>) -> (r: serde_json::Value)
    requires
        strmap::ascending(members(o@)),
    ensures
        json_tree(r) == JsonTree::Obj(members(o@)),
{
    serde_json::Value::Object(o.into_iter().collect())
}

/// What `serde_json::from_str` makes of a text: the value, or the text of its error.
pub uninterp spec fn json_parsed(text: Seq<char>) -> Result<JsonTree, Seq<char>>;

/// `serde_json::from_str` reads a text as JSON; whether it can, what it gives and the text of its
/// error depend on the text alone.
#[verifier::external_body]
pub(crate) fn parse_json(text: &str) -> (r: Result<serde_json::Value, String>)
    ensures
        match r {
            Ok(v) => json_parsed(text@) == Ok::<JsonTree, Seq<char>>(json_tree(v)),
            Err(e) => json_parsed(text@) == Err::<JsonTree, Seq<char>>(e@),
        },
{
    serde_json::from_str(text).map_err(|e: serde_json::Error| e.to_string())
}

/// What `serde_json::to_string` makes of a value: its compact text, if it can be written.
pub uninterp spec fn json_written(tree: JsonTree) -> Option<Seq<char>>;

/// `serde_json::to_string` writes a value as compact JSON; the text depends on what the value
/// holds alone. That `serde_json::from_str` gives the value back is not claimed: it may round a
/// number that is no integer, and it refuses values that are nested too deep.
#[verifier::external_body]
pub(crate) fn write_json(v: &serde_json::Value) -> (r: Option<String>)
    ensures
        match r {
            Some(s) => json_written(json_tree(*v)) == Some(s@),
            None => json_written(json_tree(*v)) is None,
        },
{
    serde_json::to_string(v).ok()
}

} // verus!
