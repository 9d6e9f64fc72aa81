//! JSON values as the engine reads and builds them.
//!
//! `serde_json` does the parsing, the rendering and the storage. What a value
//! holds is modelled by [`JsonTree`], and each function here states what the
//! crate does with a value over that model.
use crate::text;
use vstd::prelude::*;

verus! {

/// What a JSON value holds.
///
/// A number that is not an integer is known only by the bit pattern of the
/// double it is stored as.
pub enum JsonTree {
    Null,
    Bool(bool),
    Int(int),
    Float(u64),
    Text(Seq<char>),
    Array(Seq<JsonTree>),
    Object(Map<Seq<char>, JsonTree>),
}

/// `serde_json::Value`, a JSON value.
#[verifier::external_type_specification]
#[verifier::external_body]
pub struct ExValue(serde_json::Value);

/// `serde_json::Map`, the fields of a JSON object.
#[verifier::external_type_specification]
#[verifier::external_body]
#[verifier::reject_recursive_types(K)]
#[verifier::reject_recursive_types(V)]
pub struct ExFields<K, V>(serde_json::Map<K, V>);

/// The tree a `serde_json::Value` holds.
pub uninterp spec fn json_tree(v: serde_json::Value) -> JsonTree;

/// The fields a `serde_json::Map` holds, by name.
pub uninterp spec fn json_fields(m: serde_json::Map<String, serde_json::Value>) -> Map<
    Seq<char>,
    JsonTree,
>;

/// What `serde_json::from_str` makes of a text: `None` where the text is not
/// one JSON value.
pub uninterp spec fn json_parse(text: Seq<char>) -> Option<JsonTree>;

/// The text `serde_json::Value` is displayed as.
pub uninterp spec fn json_render(tree: JsonTree) -> Seq<char>;

/// The trees of a list of values.
pub open spec fn json_trees(s: Seq<serde_json::Value>) -> Seq<JsonTree> {
    Seq::new(s.len(), |i: int| json_tree(s[i]))
}

// ---------------------------------------------------------------- looking inside

impl JsonTree {
    /// The field of a name, where the value is an object that has it.
    pub open spec fn child(self, key: Seq<char>) -> Option<JsonTree> {
        match self {
            JsonTree::Object(m) => if m.dom().contains(key) {
                Some(m[key])
            } else {
                None
            },
            _ => None,
        }
    }

    /// The number, where the value is one of 64 bits without a sign.
    pub open spec fn whole(self) -> Option<u64> {
        match self {
            JsonTree::Int(n) => if 0 <= n <= u64::MAX {
                Some(n as u64)
            } else {
                None
            },
            _ => None,
        }
    }

    /// The text, where the value is one.
    pub open spec fn text(self) -> Option<Seq<char>> {
        match self {
            JsonTree::Text(s) => Some(s),
            _ => None,
        }
    }

    /// The items, where the value is an array.
    pub open spec fn items(self) -> Option<Seq<JsonTree>> {
        match self {
            JsonTree::Array(s) => Some(s),
            _ => None,
        }
    }

    /// One step along a pointer: to a field of an object, or to an item of an
    /// array by its number, written without a sign or leading zeros.
    pub open spec fn step(self, token: Seq<char>) -> Option<JsonTree> {
        match self {
            JsonTree::Array(s) => if token.len() > 0 && (token[0] == '+' || (token[0] == '0'
                && token.len() != 1)) {
                None
            } else {
                match text::parsed(token) {
                    Some(n) => if n < s.len() {
                        Some(s[n as int])
                    } else {
                        None
                    },
                    None => None,
                }
            },
            _ => self.child(token),
        }
    }

    /// What a chain of steps leads to.
    pub open spec fn follow(self, tokens: Seq<Seq<char>>) -> Option<JsonTree>
        decreases tokens.len(),
    {
        if tokens.len() == 0 {
            Some(self)
        } else {
            match self.step(tokens[0]) {
                Some(t) => t.follow(tokens.drop_first()),
                None => None,
            }
        }
    }

    /// What a JSON pointer without escapes leads to.
    pub open spec fn at(self, path: Seq<char>) -> Option<JsonTree> {
        if path.len() == 0 {
            Some(self)
        } else if path[0] != '/' {
            None
        } else {
            self.follow(text::split(path, '/').skip(1))
        }
    }
}

/// The value of an optional number, zero where there is none.
pub open spec fn whole_or_zero(t: Option<JsonTree>) -> u64 {
    match t {
        Some(t) => match t.whole() {
            Some(n) => n,
            None => 0,
        },
        None => 0,
    }
}

/// `serde_json::from_str`: the value a text spells, or nothing where it does
/// not spell one. Which texts those are is left to the crate.
#[verifier::external_body]
pub(crate) fn parse(text: &str) -> (r: Option<serde_json::Value>)
    ensures
        r is Some == json_parse(text@) is Some,
        r matches Some(v) ==> json_parse(text@) == Some(json_tree(v)),
{
    serde_json::from_str::<serde_json::Value>(text).ok()
}

/// `Value::get` with a name: the field of an object, nothing for a value that
/// is not an object.
#[verifier::external_body]
pub(crate) fn get<'a>(v: &'a serde_json::Value, key: &str) -> (r: Option<&'a serde_json::Value>)
    ensures
        r is Some == json_tree(*v).child(key@) is Some,
        r matches Some(c) ==> json_tree(*v).child(key@) == Some(json_tree(*c)),
{
    v.get(key)
}

/// `Value::pointer`, for a path without `~`: the steps between the slashes are
/// taken one after another.
#[verifier::external_body]
pub(crate) fn pointer<'a>(v: &'a serde_json::Value, path: &str) -> (r: Option<
    &'a serde_json::Value,
>)
    requires
        forall|i: int| 0 <= i < path@.len() ==> path@[i] != '~',
    ensures
        r is Some == json_tree(*v).at(path@) is Some,
        r matches Some(c) ==> json_tree(*v).at(path@) == Some(json_tree(*c)),
{
    v.pointer(path)
}

/// `Value::as_u64`: an integer that is not negative. `serde_json` keeps no
/// integer beyond 64 bits as one.
#[verifier::external_body]
pub(crate) fn as_u64(v: &serde_json::Value) -> (r: Option<u64>)
    ensures
        r == json_tree(*v).whole(),
{
    v.as_u64()
}

/// `Value::as_str`: the text of a string.
#[verifier::external_body]
pub(crate) fn as_str(v: &serde_json::Value) -> (r: Option<&str>)
    ensures
        r is Some == json_tree(*v).text() is Some,
        r matches Some(s) ==> json_tree(*v).text() == Some(s@),
{
    v.as_str()
}

/// `Value::as_array`: the items of an array.
#[verifier::external_body]
pub(crate) fn as_array(v: &serde_json::Value) -> (r: Option<&Vec<serde_json::Value>>)
    ensures
        r is Some == json_tree(*v).items() is Some,
        r matches Some(s) ==> json_tree(*v).items() == Some(json_trees(s@)),
{
    v.as_array()
}

/// `Value::to_string`: the compact JSON of a value. It is determined by what
/// the value holds; how it is written is left to the crate.
#[verifier::external_body]
pub(crate) fn render(v: &serde_json::Value) -> (r: String)
    ensures
        r@ == json_render(json_tree(*v)),
{
    v.to_string()
}

/// The number at a path, zero where there is none.
pub(crate) fn number_at(v: &serde_json::Value, path: &str) -> (r: u64)
    requires
        forall|i: int| 0 <= i < path@.len() ==> path@[i] != '~',
    ensures
        r == whole_or_zero(json_tree(*v).at(path@)),
{
    match pointer(v, path) {
        Some(n) => match as_u64(n) {
            Some(n) => n,
            None => 0,
        },
        None => 0,
    }
}

// ---------------------------------------------------------------- building

/// `Value::Null`.
#[verifier::external_body]
pub(crate) fn null_value() -> (r: serde_json::Value)
    ensures
        json_tree(r) == JsonTree::Null,
{
    serde_json::Value::Null
}

/// `Value::String`.
#[verifier::external_body]
pub(crate) fn text_value(s: &str) -> (r: serde_json::Value)
    ensures
        json_tree(r) == JsonTree::Text(s@),
{
    serde_json::Value::String(s.to_owned())
}

/// `Value::Bool`.
#[verifier::external_body]
pub(crate) fn bool_value(b: bool) -> (r: serde_json::Value)
    ensures
        json_tree(r) == JsonTree::Bool(b),
{
    serde_json::Value::Bool(b)
}

/// `Value::from` on an integer: the number.
#[verifier::external_body]
pub(crate) fn whole_value(n: u64) -> (r: serde_json::Value)
    ensures
        json_tree(r) == JsonTree::Int(n as int),
{
    serde_json::Value::from(n)
}

/// `Value::Array`.
#[verifier::external_body]
pub(crate) fn array_value(items: Vec<serde_json::Value>) -> (r: serde_json::Value)
    ensures
        json_tree(r) == JsonTree::Array(json_trees(items@)),
{
    serde_json::Value::Array(items)
}

/// `Value::Object`.
#[verifier::external_body]
pub(crate) fn object_value(fields: serde_json::Map<String, serde_json::Value>) -> (r:
    serde_json::Value)
    ensures
        json_tree(r) == JsonTree::Object(json_fields(fields)),
{
    serde_json::Value::Object(fields)
}

/// The fields of an empty object.
pub open spec fn without_fields() -> Map<Seq<char>, JsonTree> {
    Map::empty()
}

/// `Map::new`: no fields.
#[verifier::external_body]
pub(crate) fn no_fields() -> (r: serde_json::Map<String, serde_json::Value>)
    ensures
        json_fields(r) == without_fields(),
{
    serde_json::Map::new()
}

/// `Map::clone`: the same fields.
#[verifier::external_body]
pub(crate) fn copy_fields(m: &serde_json::Map<String, serde_json::Value>) -> (r: serde_json::Map<
    String,
    serde_json::Value,
>)
    ensures
        json_fields(r) == json_fields(*m),
{
    m.clone()
}

/// `Map::get`: the field of a name.
#[verifier::external_body]
pub(crate) fn field<'a>(m: &'a serde_json::Map<String, serde_json::Value>, key: &str) -> (r: Option<
    &'a serde_json::Value,
>)
    ensures
        r is Some == json_fields(*m).dom().contains(key@),
        r matches Some(v) ==> json_fields(*m)[key@] == json_tree(*v),
{
    m.get(key)
}

/// `Map::insert`: sets a field, in place of what it was set to.
#[verifier::external_body]
pub(crate) fn set_field(
    m: &mut serde_json::Map<String, serde_json::Value>,
    key: &str,
    v: serde_json::Value,
)
    ensures
        json_fields(*final(m)) == json_fields(*old(m)).insert(key@, json_tree(v)),
{
    m.insert(key.to_owned(), v);
}

} // verus!
