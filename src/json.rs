//! JSON values as the log's records carry them, read and written by
//! serde_json.
use vstd::prelude::*;
use crate::text::text_eq;

verus! {

#[verifier::external_type_specification]
#[verifier::external_body]
pub struct ExNumber(serde_json::Number);

#[verifier::external_type_specification]
#[verifier::external_body]
pub struct ExValue(serde_json::Value);

/// A JSON value; an object keeps its members in order, and a lookup takes
/// the first member with the key.
pub enum Json {
    Null,
    Bool(bool),
    Number(serde_json::Number),
    Str(String),
    Array(Vec<Json>),
    Object(Vec<(String, Json)>),
}

/// The value that serde_json reads from a text, if the text is one JSON
/// document.
pub uninterp spec fn json_parse(s: Seq<char>) -> Option<Json>;

/// The compact text that serde_json writes for a value.
pub uninterp spec fn json_text(v: Json) -> Seq<char>;

/// The value stored under `key` among an object's members.
pub open spec fn lookup(members: Seq<(String, Json)>, key: Seq<char>) -> Option<Json>
    decreases members.len(),
{
    if members.len() == 0 {
        None
    } else if members[0].0@ == key {
        Some(members[0].1)
    } else {
        lookup(members.drop_first(), key)
    }
}

/// The member `key` of `v`, when `v` is an object that has it.
pub open spec fn member(v: Option<Json>, key: Seq<char>) -> Option<Json> {
    match v {
        Some(Json::Object(m)) => lookup(m@, key),
        _ => None,
    }
}

/// The text of `v` when it is a string.
pub open spec fn str_value(v: Option<Json>) -> Option<Seq<char>> {
    match v {
        Some(Json::Str(s)) => Some(s@),
        _ => None,
    }
}

/// The text of `v` when it is a string, else `d`.
pub open spec fn str_or(v: Option<Json>, d: Seq<char>) -> Seq<char> {
    match str_value(v) {
        Some(s) => s,
        None => d,
    }
}

impl Json {
    /// The value that serde_json reads from `s`; `None` when `s` is not one
    /// JSON document.
    pub fn parse(s: &str) -> (r: Option<Json>)
        ensures
            r == json_parse(s@),
    {
        parse_json(s)
    }

    /// The compact JSON text of this value.
    pub fn to_text(&self) -> (r: String)
        ensures
            r@ == json_text(*self),
    {
        write_json(self)
    }

    /// Relies on the variants of serde_json::Value: rebuilds its tree one
    /// node for one node.
    #[verifier::external_body]
    fn from_value(v: serde_json::Value) -> Json {
        match v {
            serde_json::Value::Null => Json::Null,
            serde_json::Value::Bool(b) => Json::Bool(b),
            serde_json::Value::Number(n) => Json::Number(n),
            serde_json::Value::String(s) => Json::Str(s),
            serde_json::Value::Array(a) => Json::Array(a.into_iter().map(Json::from_value).collect()),
            serde_json::Value::Object(o) => Json::Object(
                o.into_iter().map(|(k, x)| (k, Json::from_value(x))).collect(),
            ),
        }
    }

    /// Relies on the variants of serde_json::Value: builds its tree one node
    /// for one node.
    #[verifier::external_body]
    fn to_value(&self) -> serde_json::Value {
        match self {
            Json::Null => serde_json::Value::Null,
            Json::Bool(b) => serde_json::Value::Bool(*b),
            Json::Number(n) => serde_json::Value::Number(n.clone()),
            Json::Str(s) => serde_json::Value::String(s.clone()),
            Json::Array(a) => serde_json::Value::Array(a.iter().map(Json::to_value).collect()),
            Json::Object(m) => serde_json::Value::Object(
                m.iter().map(|(k, x)| (k.clone(), x.to_value())).collect(),
            ),
        }
    }

    /// The member `key` of this value, when it is an object that has it.
    pub fn get(&self, key: &str) -> (r: Option<&Json>)
        ensures
            match r {
                Some(x) => member(Some(*self), key@) == Some(*x),
                None => member(Some(*self), key@) is None,
            },
    {
        match self {
            Json::Object(m) => {
                let mut i: usize = 0;
                assert(m@.subrange(0, m@.len() as int) =~= m@);
                while i < m.len()
                    invariant
                        i <= m@.len(),
                        *self == Json::Object(*m),
                        lookup(m@, key@) == lookup(m@.subrange(i as int, m@.len() as int), key@),
                    decreases m.len() - i,
                {
                    assert(m@.subrange(i as int, m@.len() as int).drop_first() =~= m@.subrange(
                        i + 1,
                        m@.len() as int,
                    ));
                    assert(m@.subrange(i as int, m@.len() as int)[0] == m@[i as int]);
                    let e = &m[i];
                    if text_eq(e.0.as_str(), key) {
                        assert(lookup(m@, key@) == Some(e.1));
                        return Some(&e.1);
                    }
                    i = i + 1;
                }
                None
            },
            _ => None,
        }
    }

    /// The text of this value when it is a string.
    pub fn as_str(&self) -> (r: Option<&str>)
        ensures
            match r {
                Some(s) => str_value(Some(*self)) == Some(s@),
                None => str_value(Some(*self)) is None,
            },
    {
        match self {
            Json::Str(s) => Some(s.as_str()),
            _ => None,
        }
    }
}

/// The member `key` of `v` when it is a string, else `d`.
pub fn member_str<'a>(v: Option<&'a Json>, key: &str, d: &'a str) -> (r: &'a str)
    ensures
        r@ == str_or(
            member(
                match v {
                    Some(x) => Some(*x),
                    None => None,
                },
                key@,
            ),
            d@,
        ),
{
    match v {
        Some(x) => match x.get(key) {
            Some(y) => match y.as_str() {
                Some(s) => s,
                None => d,
            },
            None => d,
        },
        None => d,
    }
}

/// Relies on serde_json::from_str: reads one JSON document, or fails;
/// the result depends on the text alone.
#[verifier::external_body]
fn parse_json(s: &str) -> (r: Option<Json>)
    ensures
        r == json_parse(s@),
{
    serde_json::from_str::<serde_json::Value>(s).ok().map(Json::from_value)
}

/// Relies on serde_json::to_string: writes a value as compact JSON text,
/// which depends on the value alone; an object without members is `{}`.
#[verifier::external_body]
pub(crate) fn write_json(v: &Json) -> (r: String)
    ensures
        r@ == json_text(*v),
        v matches Json::Object(m) && m@.len() == 0 ==> r@ == "{}"@,
{
    serde_json::to_string(&v.to_value()).unwrap_or_default()
}

} // verus!
