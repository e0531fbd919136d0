//! JSON values as the engine sees them.
//!
//! A node's data is JSON text. The engine looks at single members of it, at
//! what kind of value they are, and at how they compare; the text itself is
//! read and written by serde_json.

use vstd::prelude::*;

use crate::decimal::digits_of;
use crate::text::{own, str_eq, utf8};

verus! {

/// What kind of value a JSON text is.
#[derive(Debug)]
pub enum Shape {
    Null,
    Bool(bool),
    /// A number: its value where that is an unsigned integer, and the bits
    /// of the nearest double.
    Number { unsigned: Option<u64>, bits: u64 },
    Text(String),
    Array,
    Object,
}

pub enum ShapeView {
    Null,
    Bool(bool),
    Number { unsigned: Option<u64>, bits: u64 },
    Text(Seq<char>),
    Array,
    Object,
}

impl View for Shape {
    type V = ShapeView;

    open spec fn view(&self) -> ShapeView {
        match *self {
            Shape::Null => ShapeView::Null,
            Shape::Bool(b) => ShapeView::Bool(b),
            Shape::Number { unsigned, bits } => ShapeView::Number { unsigned, bits },
            Shape::Text(s) => ShapeView::Text(s@),
            Shape::Array => ShapeView::Array,
            Shape::Object => ShapeView::Object,
        }
    }
}

/// A JSON value: its text and what kind of value it is.
#[derive(Debug)]
pub struct Json {
    pub text: String,
    pub shape: Shape,
}

pub struct JsonView {
    pub text: Seq<char>,
    pub shape: ShapeView,
}

impl View for Json {
    type V = JsonView;

    open spec fn view(&self) -> JsonView {
        JsonView { text: self.text@, shape: self.shape@ }
    }
}

pub open spec fn json_view(v: Option<Json>) -> Option<JsonView> {
    match v {
        Some(j) => Some(j@),
        None => None,
    }
}

impl Json {
    pub fn copy(&self) -> (r: Json)
        ensures
            r@ == self@,
    {
        let shape = match &self.shape {
            Shape::Null => Shape::Null,
            Shape::Bool(b) => Shape::Bool(*b),
            Shape::Number { unsigned, bits } => Shape::Number { unsigned: *unsigned, bits: *bits },
            Shape::Text(s) => Shape::Text(s.clone()),
            Shape::Array => Shape::Array,
            Shape::Object => Shape::Object,
        };
        Json { text: self.text.clone(), shape }
    }

    pub fn is_null(&self) -> (r: bool)
        ensures
            r == (self@.shape is Null),
    {
        match &self.shape {
            Shape::Null => true,
            _ => false,
        }
    }
}

pub fn copy_json(v: &Option<Json>) -> (r: Option<Json>)
    ensures
        json_view(r) == json_view(*v),
{
    match v {
        Some(j) => Some(j.copy()),
        None => None,
    }
}

/// The value that a text is read as, if it is JSON.
pub uninterp spec fn json_value(text: Seq<char>) -> Option<JsonView>;

/// Calls `serde_json::from_str` for a value, and `Value::to_string`,
/// `Number::as_u64` and `Number::as_f64` on what it gives. The text that comes
/// out is read as the same value. Nothing is said of which texts are read as
/// which values.
#[verifier::external_body]
fn parse_value(text: &str) -> (r: Option<Json>)
    ensures
        json_view(r) == json_value(text@),
        r matches Some(j) ==> json_value(j@.text) == Some(j@),
{
    let value = serde_json::from_str::<serde_json::Value>(text).ok()?;
    let text = value.to_string();
    let shape = match value {
        serde_json::Value::Null => Shape::Null,
        serde_json::Value::Bool(b) => Shape::Bool(b),
        serde_json::Value::Number(n) => {
            Shape::Number { unsigned: n.as_u64(), bits: n.as_f64()?.to_bits() }
        },
        serde_json::Value::String(s) => Shape::Text(s),
        serde_json::Value::Array(_) => Shape::Array,
        serde_json::Value::Object(_) => Shape::Object,
    };
    Some(Json { text, shape })
}

/// The members of the object that a text is read as, each as its name and
/// the text of its value, if it is an object.
pub uninterp spec fn json_members(text: Seq<char>) -> Option<Seq<(Seq<char>, Seq<char>)>>;

pub open spec fn members_view(members: Seq<(String, String)>) -> Seq<(Seq<char>, Seq<char>)> {
    Seq::new(members.len(), |i: int| (members[i].0@, members[i].1@))
}

/// The text is that of the value that it is read as.
pub open spec fn is_canonical(text: Seq<char>) -> bool {
    json_value(text) matches Some(j) && j.text == text
}

/// Calls `serde_json::from_str` for an object, and `Value::to_string` on the
/// value of each member, which gives a text that is read as a value with that
/// text. Nothing is said of which texts are objects.
#[verifier::external_body]
fn parse_members(text: &str) -> (r: Option<Vec<(String, String)>>)
    ensures
        match r {
            Some(members) => json_members(text@) == Some(members_view(members@)) && forall|i: int|
                0 <= i < members@.len() ==> is_canonical((#[trigger] members@[i]).1@),
            None => json_members(text@) is None,
        },
{
    let object = serde_json::from_str::<serde_json::Map<String, serde_json::Value>>(text).ok()?;
    Some(object.into_iter().map(|(name, value)| (name, value.to_string())).collect())
}

/// The text of an object with these members, if the texts of their values
/// are JSON.
pub uninterp spec fn json_object(members: Seq<(Seq<char>, Seq<char>)>) -> Option<Seq<char>>;

/// The names of the members differ.
pub open spec fn names_differ(members: Seq<(Seq<char>, Seq<char>)>) -> bool {
    forall|i: int, j: int| 0 <= i < j < members.len() ==> (#[trigger] members[i]).0 != (#[trigger] members[j]).0
}

/// The same members, with texts that are read as the same values.
pub open spec fn same_members(a: Seq<(Seq<char>, Seq<char>)>, b: Seq<(Seq<char>, Seq<char>)>) -> bool {
    forall|name: Seq<char>|
        match (#[trigger] member_text(a, name), member_text(b, name)) {
            (Some(s), Some(t)) => json_value(s) == json_value(t),
            (None, None) => true,
            _ => false,
        }
}

/// The text is read as a value that is neither array nor object.
pub open spec fn is_flat(text: Seq<char>) -> bool {
    json_value(text) matches Some(j) && !(j.shape is Array) && !(j.shape is Object)
}

/// The text is that of a member's value in an object that is read.
pub open spec fn is_part(text: Seq<char>) -> bool {
    exists|data: Seq<char>, name: Seq<char>|
        json_members(data) is Some && #[trigger] member_text(json_members(data)->0, name) == Some(text)
}

/// Every member's value is flat, or that of a member in an object that is
/// read: none is nested too deep for an object to be read again.
pub open spec fn all_shallow(members: Seq<(Seq<char>, Seq<char>)>) -> bool {
    forall|i: int| 0 <= i < members.len() ==> is_flat((#[trigger] members[i]).1) || is_part(members[i].1)
}

/// Calls `serde_json::from_str` on the text of each member's value,
/// `Map::insert` for each in turn, and `Value::to_string`. Where the text
/// that comes out is read as an object, that has the same members. It is
/// read as one where no value is nested deeper than in an object that is
/// read; of others that is not said, as values nested too deep are not read.
#[verifier::external_body]
fn render_members(members: &Vec<(String, String)>) -> (r: Option<String>)
    ensures
        match r {
            Some(text) => {
                &&& json_object(members_view(members@)) == Some(text@)
                &&& names_differ(members_view(members@)) && json_members(text@) is Some ==> same_members(
                    json_members(text@)->0,
                    members_view(members@),
                )
                &&& all_shallow(members_view(members@)) ==> json_members(text@) is Some
                &&& text@.len() > 0
            },
            None => json_object(members_view(members@)) is None && !all_shallow(members_view(members@)),
        },
{
    let mut object = serde_json::Map::new();
    for (name, text) in members {
        object.insert(name.clone(), serde_json::from_str::<serde_json::Value>(text).ok()?);
    }
    Some(serde_json::Value::Object(object).to_string())
}

/// A text as a JSON string.
pub uninterp spec fn json_quoted(s: Seq<char>) -> Seq<char>;

/// Calls `Value::to_string` on a string value; what comes out is read as
/// that string.
#[verifier::external_body]
fn render_text(s: &str) -> (r: String)
    ensures
        r@ == json_quoted(s@),
        json_value(r@) == Some(JsonView { text: r@, shape: ShapeView::Text(s@) }),
{
    serde_json::Value::String(s.to_owned()).to_string()
}

/// The shape is that of the number.
pub open spec fn counts(shape: ShapeView, n: u64) -> bool {
    shape matches ShapeView::Number { unsigned, bits } && unsigned == Some(n)
}

/// Calls `Value::from` on a number, `Value::to_string` and `Value::as_f64`:
/// the text is the number's decimal digits, and is read as that number.
#[verifier::external_body]
fn render_number(n: u64) -> (r: Option<Json>)
    ensures
        r is Some,
        utf8(r->0@.text) == digits_of(n as nat),
        json_value(r->0@.text) == Some(r->0@),
        counts(r->0@.shape, n),
{
    let value = serde_json::Value::from(n);
    let bits = value.as_f64()?.to_bits();
    Some(Json { text: value.to_string(), shape: Shape::Number { unsigned: Some(n), bits } })
}

/// A number as a JSON value.
pub fn number(n: u64) -> (r: Json)
    ensures
        utf8(r@.text) == digits_of(n as nat),
        json_value(r@.text) == Some(r@),
        counts(r@.shape, n),
{
    match render_number(n) {
        Some(j) => j,
        None => Json { text: String::new(), shape: Shape::Null },
    }
}

/// A text as a JSON value.
pub fn quoted(s: &str) -> (r: Json)
    ensures
        r@ == (JsonView { text: json_quoted(s@), shape: ShapeView::Text(s@) }),
        json_value(r@.text) == Some(r@),
{
    Json { text: render_text(s), shape: Shape::Text(own(s)) }
}

/// The texts of two values stand for equal values.
pub uninterp spec fn json_equal(a: Seq<char>, b: Seq<char>) -> bool;

/// Calls `serde_json::from_str` on both texts and compares the values with
/// `==`; a text that is no JSON equals only another such.
#[verifier::external_body]
fn equal_values(a: &str, b: &str) -> (r: bool)
    ensures
        r == json_equal(a@, b@),
{
    serde_json::from_str::<serde_json::Value>(a).ok() == serde_json::from_str::<serde_json::Value>(b).ok()
}

// ---------------------------------------------------------------------
// Members
// ---------------------------------------------------------------------

/// Position of the member called `name`, or the list's length.
pub open spec fn member_index(members: Seq<(Seq<char>, Seq<char>)>, name: Seq<char>) -> int
    decreases members.len(),
{
    if members.len() == 0 || members[0].0 == name {
        0
    } else {
        1 + member_index(members.drop_first(), name)
    }
}

proof fn lemma_member_index(members: Seq<(Seq<char>, Seq<char>)>, name: Seq<char>, k: int)
    requires
        0 <= k <= members.len(),
        forall|i: int| 0 <= i < k ==> (#[trigger] members[i]).0 != name,
        k < members.len() ==> members[k].0 == name,
    ensures
        member_index(members, name) == k,
    decreases members.len(),
{
    if k > 0 {
        assert(members[0].0 != name);
        let rest = members.drop_first();
        assert forall|i: int| 0 <= i < k - 1 implies (#[trigger] rest[i]).0 != name by {
            assert(rest[i] == members[i + 1]);
        }
        lemma_member_index(rest, name, k - 1);
    }
}

/// The text of a member's value.
pub open spec fn member_text(members: Seq<(Seq<char>, Seq<char>)>, name: Seq<char>) -> Option<Seq<char>> {
    let k = member_index(members, name);
    if 0 <= k < members.len() {
        Some(members[k].1)
    } else {
        None
    }
}

/// The members with one of them set.
pub open spec fn with_member(
    members: Seq<(Seq<char>, Seq<char>)>,
    name: Seq<char>,
    text: Seq<char>,
) -> Seq<(Seq<char>, Seq<char>)> {
    let k = member_index(members, name);
    if 0 <= k < members.len() {
        members.update(k, (name, text))
    } else {
        members.push((name, text))
    }
}

/// The value of the member `field` of the object that `data` is; nothing
/// where `data` is no object or has no such member.
pub open spec fn field_of(data: Seq<char>, field: Seq<char>) -> Option<JsonView> {
    match json_members(data) {
        Some(members) => match member_text(members, field) {
            Some(text) => json_value(text),
            None => None,
        },
        None => None,
    }
}

fn find_member(members: &Vec<(String, String)>, name: &str) -> (r: usize)
    ensures
        r == member_index(members_view(members@), name@),
        r <= members@.len(),
{
    let ghost view = members_view(members@);
    let mut i: usize = 0;
    while i < members.len()
        invariant
            i <= members@.len(),
            view == members_view(members@),
            forall|j: int| 0 <= j < i ==> (#[trigger] view[j]).0 != name@,
        decreases members.len() - i,
    {
        if str_eq(&members[i].0, name) {
            proof {
                lemma_member_index(view, name@, i as int);
            }
            return i;
        }
        i = i + 1;
    }
    proof {
        lemma_member_index(view, name@, i as int);
    }
    i
}

/// The text of a member's value.
pub fn member(members: &Vec<(String, String)>, name: &str) -> (r: Option<String>)
    ensures
        match r {
            Some(text) => member_text(members_view(members@), name@) == Some(text@),
            None => member_text(members_view(members@), name@) is None,
        },
{
    let at: usize = find_member(members, name);
    if at < members.len() {
        Some(members[at].1.clone())
    } else {
        None
    }
}

/// The value of the member `field` of the object that `data` is. Its text is
/// read as the same value.
pub fn field(data: &str, name: &str) -> (r: Option<Json>)
    ensures
        json_view(r) == field_of(data@, name@),
        r matches Some(j) ==> json_value(j@.text) == Some(j@) && is_part(j@.text),
{
    match parse_members(data) {
        Some(members) => {
            let at: usize = find_member(&members, name);
            if at < members.len() {
                let r = parse_value(&members[at].1);
                proof {
                    assert(is_canonical(members@[at as int].1@));
                    assert(member_text(json_members(data@)->0, name@) == Some(members@[at as int].1@));
                }
                r
            } else {
                None
            }
        },
        None => None,
    }
}

/// The value that a text is read as.
pub fn value(text: &str) -> (r: Option<Json>)
    ensures
        json_view(r) == json_value(text@),
{
    parse_value(text)
}

/// Whether two values are equal.
pub fn same_value(a: &Json, b: &Json) -> (r: bool)
    ensures
        r == json_equal(a@.text, b@.text),
{
    equal_values(&a.text, &b.text)
}

/// The members of the object that a text is read as.
pub fn members(text: &str) -> (r: Option<Vec<(String, String)>>)
    ensures
        match r {
            Some(members) => json_members(text@) == Some(members_view(members@)),
            None => json_members(text@) is None,
        },
{
    parse_members(text)
}

/// Sets one member.
pub fn set_member(members: &mut Vec<(String, String)>, name: &str, text: &str)
    ensures
        members_view(final(members)@) == with_member(members_view(old(members)@), name@, text@),
{
    let at: usize = find_member(members, name);
    let ghost before = members_view(members@);
    if at < members.len() {
        members[at] = (own(name), own(text));
        proof {
            assert(members_view(members@) =~= before.update(at as int, (name@, text@)));
        }
    } else {
        members.push((own(name), own(text)));
        proof {
            assert(members_view(members@) =~= before.push((name@, text@)));
        }
    }
}

/// The text of an object with these members.
pub fn object(members: &Vec<(String, String)>) -> (r: Option<String>)
    ensures
        match r {
            Some(text) => {
                &&& json_object(members_view(members@)) == Some(text@)
                &&& names_differ(members_view(members@)) && json_members(text@) is Some ==> same_members(
                    json_members(text@)->0,
                    members_view(members@),
                )
                &&& all_shallow(members_view(members@)) ==> json_members(text@) is Some
                &&& text@.len() > 0
            },
            None => json_object(members_view(members@)) is None && !all_shallow(members_view(members@)),
        },
{
    render_members(members)
}

} // verus!
