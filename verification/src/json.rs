//! JSON documents.
//!
//! `serde_json` reads the text. The rest of the library works on [`Json`], which
//! holds what a document says as plain values.

use vstd::prelude::*;

use serde_json::Value;

use crate::text::same_text;

verus! {

/// A JSON value. Numbers are whole and not negative, whole and negative, or the
/// pattern of a double.
#[derive(Debug)]
pub enum Json {
    Null,
    Bool(bool),
    Unsigned(u64),
    Negative(i64),
    Double(u64),
    Text(String),
    Array(Vec<Json>),
    Object(Vec<(String, Json)>),
}

/// What a JSON value says.
pub enum JsonView {
    Null,
    Bool(bool),
    Unsigned(u64),
    Negative(i64),
    Double(u64),
    Text(Seq<char>),
    Array(Seq<JsonView>),
    Object(Seq<(Seq<char>, JsonView)>),
}

/// What a JSON value says.
pub open spec fn said(j: Json) -> JsonView
    decreases j,
{
    match j {
        Json::Null => JsonView::Null,
        Json::Bool(b) => JsonView::Bool(b),
        Json::Unsigned(n) => JsonView::Unsigned(n),
        Json::Negative(n) => JsonView::Negative(n),
        Json::Double(d) => JsonView::Double(d),
        Json::Text(s) => JsonView::Text(s@),
        Json::Array(a) => JsonView::Array(
            Seq::new(
                a@.len(),
                |i: int|
                    if 0 <= i < a@.len() {
                        said(a@[i])
                    } else {
                        JsonView::Null
                    },
            ),
        ),
        Json::Object(o) => JsonView::Object(
            Seq::new(
                o@.len(),
                |i: int|
                    if 0 <= i < o@.len() {
                        (o@[i].0@, said(o@[i].1))
                    } else {
                        (Seq::empty(), JsonView::Null)
                    },
            ),
        ),
    }
}

impl View for Json {
    type V = JsonView;

    open spec fn view(&self) -> JsonView {
        said(*self)
    }
}

/// A value that `serde_json` holds.
#[verifier::external_type_specification]
#[verifier::external_body]
pub struct ExValue(serde_json::Value);

/// What a value of `serde_json` holds.
pub uninterp spec fn value_holds(v: Value) -> JsonView;

/// What the text of a document says, or nothing where it is no JSON.
pub uninterp spec fn json_parsed(bytes: Seq<u8>) -> Option<JsonView>;

/// Calls `serde_json::from_slice` for a `serde_json::Value`. What comes back
/// depends on the bytes alone and is given the name [`json_parsed`]: a document
/// gives the value that holds what it says, anything else an error. How a text
/// is read is not said here.
#[verifier::external_body]
fn parse_value(bytes: &[u8]) -> (r: Option<Value>)
    ensures
        match r {
            Some(v) => json_parsed(bytes@) == Some(value_holds(v)),
            None => json_parsed(bytes@) is None,
        },
{
    serde_json::from_slice::<Value>(bytes).ok()
}

/// Moves the parts of a `serde_json::Value` over, variant by variant: whole
/// numbers by `Number::as_u64` and `Number::as_i64`, any other number as the
/// pattern of `Number::as_f64`, members in the order of the map.
#[verifier::external_body]
fn json_of(v: Value) -> (r: Json)
    ensures
        r@ == value_holds(v),
{
    match v {
        Value::Null => Json::Null,
        Value::Bool(b) => Json::Bool(b),
        Value::Number(n) => match (n.as_u64(), n.as_i64(), n.as_f64()) {
            (Some(u), _, _) => Json::Unsigned(u),
            (_, Some(i), _) => Json::Negative(i),
            (_, _, d) => Json::Double(d.unwrap_or_default().to_bits()),
        },
        Value::String(s) => Json::Text(s),
        Value::Array(a) => Json::Array(a.into_iter().map(json_of).collect()),
        Value::Object(m) => {
            Json::Object(m.into_iter().map(|(k, x)| (k, json_of(x))).collect())
        },
    }
}

/// Reads a document, or nothing where it is no JSON.
pub fn read_json(bytes: &[u8]) -> (r: Option<Json>)
    ensures
        match r {
            Some(v) => json_parsed(bytes@) == Some(v@),
            None => json_parsed(bytes@) is None,
        },
{
    match parse_value(bytes) {
        Some(v) => Some(json_of(v)),
        None => None,
    }
}

/// The member of an object under a name, the first where there are several.
pub open spec fn member_in(o: Seq<(Seq<char>, JsonView)>, name: Seq<char>) -> Option<JsonView>
    decreases o.len(),
{
    if o.len() == 0 {
        None
    } else if o[0].0 == name {
        Some(o[0].1)
    } else {
        member_in(o.drop_first(), name)
    }
}

/// The member of a value under a name; only objects have members.
pub open spec fn member(v: JsonView, name: Seq<char>) -> Option<JsonView> {
    match v {
        JsonView::Object(o) => member_in(o, name),
        _ => None,
    }
}

/// The whole number a value is, if it is one and not negative.
pub open spec fn as_u64_spec(v: Option<JsonView>) -> Option<u64> {
    match v {
        Some(JsonView::Unsigned(n)) => Some(n),
        _ => None,
    }
}

/// The signed number a value is, if it is whole and fits.
pub open spec fn as_i64_spec(v: Option<JsonView>) -> Option<i64> {
    match v {
        Some(JsonView::Unsigned(n)) => if n <= i64::MAX {
            Some(n as i64)
        } else {
            None
        },
        Some(JsonView::Negative(n)) => Some(n),
        _ => None,
    }
}

/// The text a value is, if it is one.
pub open spec fn as_text_spec(v: Option<JsonView>) -> Option<Seq<char>> {
    match v {
        Some(JsonView::Text(s)) => Some(s),
        _ => None,
    }
}

/// The elements of a value, if it is an array.
pub open spec fn as_array_spec(v: Option<JsonView>) -> Option<Seq<JsonView>> {
    match v {
        Some(JsonView::Array(a)) => Some(a),
        _ => None,
    }
}

/// What an optional value says.
pub open spec fn seen(v: Option<&Json>) -> Option<JsonView> {
    match v {
        Some(j) => Some(j@),
        None => None,
    }
}

impl Json {
    /// The member under a name.
    pub fn get(&self, name: &str) -> (r: Option<&Json>)
        ensures
            seen(r) == member(self@, name@),
    {
        match self {
            Json::Object(o) => {
                let ghost all = self@->Object_0;
                let mut i: usize = 0;
                assert(all.skip(0) =~= all);
                while i < o.len()
                    invariant
                        i <= o.len(),
                        self matches Json::Object(p) && p == o,
                        all == self@->Object_0,
                        all.len() == o@.len(),
                        member_in(all, name@) == member_in(all.skip(i as int), name@),
                    decreases o.len() - i,
                {
                    let ghost rest = all.skip(i as int);
                    assert(rest[0] == (o@[i as int].0@, o@[i as int].1@));
                    assert(rest.drop_first() =~= all.skip(i + 1));
                    if same_text(o[i].0.as_str(), name) {
                        return Some(&o[i].1);
                    }
                    i = i + 1;
                }
                None
            },
            _ => None,
        }
    }

    /// The whole number this is, if it is one and not negative.
    pub fn as_u64(&self) -> (r: Option<u64>)
        ensures
            r == as_u64_spec(Some(self@)),
    {
        match self {
            Json::Unsigned(n) => Some(*n),
            _ => None,
        }
    }

    /// The signed number this is, if it is whole and fits.
    pub fn as_i64(&self) -> (r: Option<i64>)
        ensures
            r == as_i64_spec(Some(self@)),
    {
        match self {
            Json::Unsigned(n) => if *n <= 0x7fff_ffff_ffff_ffff {
                Some(*n as i64)
            } else {
                None
            },
            Json::Negative(n) => Some(*n),
            _ => None,
        }
    }

    /// The text this is, if it is one.
    pub fn as_str(&self) -> (r: Option<&str>)
        ensures
            match r {
                Some(s) => as_text_spec(Some(self@)) == Some(s@),
                None => as_text_spec(Some(self@)) is None,
            },
    {
        match self {
            Json::Text(s) => Some(s.as_str()),
            _ => None,
        }
    }

    /// The elements of this, if it is an array.
    pub fn as_array(&self) -> (r: Option<&Vec<Json>>)
        ensures
            match r {
                Some(a) => self matches Json::Array(v) && *a == v && as_array_spec(Some(self@)) == Some(
                    Seq::new(a@.len(), |i: int| a@[i]@),
                ),
                None => as_array_spec(Some(self@)) is None,
            },
    {
        match self {
            Json::Array(a) => {
                assert(self@->Array_0 =~= Seq::new(a@.len(), |i: int| a@[i]@));
                Some(a)
            },
            _ => None,
        }
    }

    /// The member under a name, where it is a whole number and not negative.
    pub fn get_u64(&self, name: &str) -> (r: Option<u64>)
        ensures
            r == as_u64_spec(member(self@, name@)),
    {
        match self.get(name) {
            Some(v) => v.as_u64(),
            None => None,
        }
    }

    /// The member under a name, where it is a whole number that fits.
    pub fn get_i64(&self, name: &str) -> (r: Option<i64>)
        ensures
            r == as_i64_spec(member(self@, name@)),
    {
        match self.get(name) {
            Some(v) => v.as_i64(),
            None => None,
        }
    }

    /// The member under a name, where it is a text.
    pub fn get_str(&self, name: &str) -> (r: Option<&str>)
        ensures
            match r {
                Some(s) => as_text_spec(member(self@, name@)) == Some(s@),
                None => as_text_spec(member(self@, name@)) is None,
            },
    {
        match self.get(name) {
            Some(v) => v.as_str(),
            None => None,
        }
    }

    /// The member under a name, where it is an array.
    pub fn get_array(&self, name: &str) -> (r: Option<&Vec<Json>>)
        ensures
            match r {
                Some(a) => as_array_spec(member(self@, name@)) == Some(
                    Seq::new(a@.len(), |i: int| a@[i]@),
                ),
                None => as_array_spec(member(self@, name@)) is None,
            },
    {
        match self.get(name) {
            Some(v) => v.as_array(),
            None => None,
        }
    }
}

/// Of several members of a name the first counts, and only an object has members.
pub proof fn law_the_first_member_counts(
    o: Seq<(Seq<char>, JsonView)>,
    name: Seq<char>,
    v: JsonView,
    other: Seq<char>,
)
    ensures
        member(JsonView::Object(seq![(name, v)] + o), name) == Some(v),
        other != name ==> member(JsonView::Object(seq![(name, v)] + o), other) == member(
            JsonView::Object(o),
            other,
        ),
        member(JsonView::Object(Seq::empty()), name) is None,
        !(v is Object) ==> member(v, name) is None,
{
    let all = seq![(name, v)] + o;
    assert(all[0] == (name, v));
    assert(all.drop_first() =~= o);
}

/// A number is read as what it is: one without a sign as either kind where it fits, one with a sign only as
/// a signed one, and one with a point as neither.
pub proof fn law_whole_numbers_are_read_as_they_are(n: u64, m: i64, d: JsonView)
    ensures
        as_u64_spec(Some(JsonView::Unsigned(n))) == Some(n),
        n <= 0x7fff_ffff_ffff_ffff ==> as_i64_spec(Some(JsonView::Unsigned(n))) == Some(n as i64),
        n > 0x7fff_ffff_ffff_ffff ==> as_i64_spec(Some(JsonView::Unsigned(n))) is None,
        as_u64_spec(Some(JsonView::Negative(m))) is None,
        as_i64_spec(Some(JsonView::Negative(m))) == Some(m),
        !(d is Unsigned || d is Negative) ==> as_i64_spec(Some(d)) is None && as_u64_spec(Some(d)) is None,
        as_u64_spec(None) is None && as_i64_spec(None) is None,
{
}

} // verus!
