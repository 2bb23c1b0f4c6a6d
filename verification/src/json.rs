//! JSON values as the library reads them.
use vstd::prelude::*;

verus! {

/// A JSON number.
///
/// `key` stands for the number's value as a 64-bit float: keys compare as the values do,
/// and two values are equal exactly when their keys are.
#[derive(Clone, Copy, PartialEq, Eq, Structural, Debug)]
pub struct Number {
    /// The value, if it is a non-negative integer that fits in 64 bits.
    pub as_u64: Option<u64>,
    /// The order key of the value as a 64-bit float.
    pub key: u64,
}

/// A JSON value. An object keeps its members in order; its member names are distinct.
#[derive(Debug)]
pub enum Json {
    Null,
    Bool(bool),
    Number(Number),
    String(String),
    Array(Vec<Json>),
    Object(Vec<(String, Json)>),
}

/// The value of the first member named `k`.
pub open spec fn member(ms: Seq<(String, Json)>, k: Seq<char>) -> Option<Json>
    decreases ms.len(),
{
    if ms.len() == 0 {
        None
    } else if ms[0].0@ == k {
        Some(ms[0].1)
    } else {
        member(ms.drop_first(), k)
    }
}

/// Whether two strings are equal.
pub fn str_eq(a: &str, b: &str) -> (r: bool)
    ensures
        r == (a@ == b@),
{
    a.to_owned() == b.to_owned()
}

/// Whether a string equals a given sequence of characters, spelled out by a literal.
pub fn equals(s: &str, literal: &str) -> (r: bool)
    ensures
        r == (s@ == literal@),
{
    str_eq(s, literal)
}

impl Json {
    /// The member `k` of an object; nothing for other values.
    pub open spec fn field(self, k: Seq<char>) -> Option<Json> {
        match self {
            Json::Object(ms) => member(ms@, k),
            _ => None,
        }
    }

    /// The string held by a string value.
    pub open spec fn string(self) -> Option<Seq<char>> {
        match self {
            Json::String(s) => Some(s@),
            _ => None,
        }
    }

    /// The member `k` of an object, if it is a string.
    pub open spec fn string_field(self, k: Seq<char>) -> Option<Seq<char>> {
        match self.field(k) {
            Some(v) => v.string(),
            None => None,
        }
    }

    /// The member `k` of an object, if it is an array.
    pub open spec fn array_field(self, k: Seq<char>) -> Option<Seq<Json>> {
        match self.field(k) {
            Some(Json::Array(vs)) => Some(vs@),
            _ => None,
        }
    }

    /// Whether the member `k` of an object is an object.
    pub open spec fn has_object_field(self, k: Seq<char>) -> bool {
        self.field(k) matches Some(Json::Object(_))
    }

    /// The member `k` of the member `o` of an object, if both are present and the latter is a string.
    pub open spec fn nested_string(self, o: Seq<char>, k: Seq<char>) -> Option<Seq<char>> {
        match self.field(o) {
            Some(inner) => if inner is Object {
                inner.string_field(k)
            } else {
                None
            },
            None => None,
        }
    }

    /// Looks up the member `k` of an object. Like `serde_json::Value::get`, it gives nothing
    /// for values that are not objects.
    pub fn get(&self, k: &str) -> (r: Option<&Json>)
        ensures
            match r {
                Some(v) => self.field(k@) == Some(*v),
                None => self.field(k@) is None,
            },
    {
        match self {
            Json::Object(ms) => {
                let mut i: usize = 0;
                assert(ms@.subrange(0, ms@.len() as int) =~= ms@);
                while i < ms.len()
                    invariant
                        i <= ms@.len(),
                        self.field(k@) == member(ms@, k@),
                        member(ms@, k@) == member(ms@.subrange(i as int, ms@.len() as int), k@),
                    decreases ms.len() - i,
                {
                    assert(ms@.subrange(i as int, ms@.len() as int).drop_first() =~= ms@.subrange(
                        i + 1,
                        ms@.len() as int,
                    ));
                    assert(ms@.subrange(i as int, ms@.len() as int)[0] == ms@[i as int]);
                    if str_eq(ms[i].0.as_str(), k) {
                        assert(ms@[i as int].0@ == k@);
                        assert(member(ms@.subrange(i as int, ms@.len() as int), k@) == Some(ms@[i as int].1));
                        return Some(&ms[i].1);
                    }
                    i += 1;
                }
                None
            },
            _ => None,
        }
    }

    /// The string held by a string value.
    pub fn as_string(&self) -> (r: Option<&String>)
        ensures
            match r {
                Some(s) => self.string() == Some(s@),
                None => self.string() is None,
            },
    {
        match self {
            Json::String(s) => Some(s),
            _ => None,
        }
    }

    /// The member `k` of an object, if it is a string.
    pub fn get_string(&self, k: &str) -> (r: Option<&String>)
        ensures
            match r {
                Some(s) => self.string_field(k@) == Some(s@),
                None => self.string_field(k@) is None,
            },
    {
        match self.get(k) {
            Some(v) => v.as_string(),
            None => None,
        }
    }

    /// The member `k` of an object, if it is an array.
    pub fn get_array(&self, k: &str) -> (r: Option<&Vec<Json>>)
        ensures
            match r {
                Some(vs) => self.array_field(k@) == Some(vs@),
                None => self.array_field(k@) is None,
            },
    {
        match self.get(k) {
            Some(Json::Array(vs)) => Some(vs),
            _ => None,
        }
    }

    /// The member `k` of an object, if it is an object.
    pub fn get_object(&self, k: &str) -> (r: Option<&Json>)
        ensures
            match r {
                Some(v) => self.field(k@) == Some(*v) && v is Object,
                None => !self.has_object_field(k@),
            },
    {
        match self.get(k) {
            Some(v) => match v {
                Json::Object(_) => Some(v),
                _ => None,
            },
            None => None,
        }
    }

    /// The member `k` of the member `o` of an object, if the latter is an object and the former a string.
    pub fn get_nested_string(&self, o: &str, k: &str) -> (r: Option<&String>)
        ensures
            match r {
                Some(s) => self.nested_string(o@, k@) == Some(s@),
                None => self.nested_string(o@, k@) is None,
            },
    {
        match self.get_object(o) {
            Some(inner) => inner.get_string(k),
            None => None,
        }
    }
}

} // verus!
