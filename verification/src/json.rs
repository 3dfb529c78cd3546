//! JSON documents.
//!
//! The documents themselves are those of `serde_json`. What one holds is its tree,
//! and each function here says what the library's own does in terms of trees.

use vstd::prelude::*;

use crate::text::digits;

verus! {

/// What a JSON number can be read as.
pub struct JsonNumber {
    /// The number as an unsigned integer, if it is one.
    pub unsigned: Option<u64>,
    /// The number as a signed integer, if it is one.
    pub signed: Option<i64>,
    /// The bit pattern of the number as a binary64 number.
    pub bits: u64,
    /// The binary64 number without its fraction, or the integer nearest to it.
    pub whole: i64,
}

/// What a JSON document holds.
pub enum Json {
    Null,
    Bool(bool),
    Number(JsonNumber),
    Text(Seq<char>),
    List(Seq<Json>),
    Object(Map<Seq<char>, Json>),
}

/// A document of `serde_json`.
#[verifier::external_type_specification]
#[verifier::external_body]
pub struct ExValue(serde_json::Value);

/// What a document holds.
pub uninterp spec fn json_tree(v: serde_json::Value) -> Json;

/// What each document of a list holds.
pub open spec fn trees(s: Seq<serde_json::Value>) -> Seq<Json> {
    Seq::new(s.len(), |i: int| json_tree(s[i]))
}

/// The member of an object with the given name.
pub open spec fn field(j: Json, key: Seq<char>) -> Option<Json> {
    if let Json::Object(m) = j {
        if m.dom().contains(key) {
            Some(m[key])
        } else {
            None
        }
    } else {
        None
    }
}

/// The text that a document is.
pub open spec fn as_text(j: Json) -> Option<Seq<char>> {
    if let Json::Text(s) = j {
        Some(s)
    } else {
        None
    }
}

/// The text of a member.
pub open spec fn text_field(j: Json, key: Seq<char>) -> Option<Seq<char>> {
    if let Some(m) = field(j, key) {
        as_text(m)
    } else {
        None
    }
}

/// The number that a document is.
pub open spec fn as_number(j: Json) -> Option<JsonNumber> {
    if let Json::Number(n) = j {
        Some(n)
    } else {
        None
    }
}

/// The number of a member.
pub open spec fn number_field(j: Json, key: Seq<char>) -> Option<JsonNumber> {
    if let Some(m) = field(j, key) {
        as_number(m)
    } else {
        None
    }
}

/// The elements of a member that is a list.
pub open spec fn list_field(j: Json, key: Seq<char>) -> Option<Seq<Json>> {
    if let Some(Json::List(s)) = field(j, key) {
        Some(s)
    } else {
        None
    }
}

/// `serde_json::Value::get` with a name gives the member of an object with that
/// name, and nothing of a document that is no object or has no such member.
#[verifier::external_body]
fn member<'a>(v: &'a serde_json::Value, key: &str) -> (r: Option<&'a serde_json::Value>)
    ensures
        field(json_tree(*v), key@) == (match r {
            Some(m) => Some(json_tree(*m)),
            None => None,
        }),
{
    v.get(key)
}

/// `serde_json::Value::as_str` gives the text of a document that is one.
#[verifier::external_body]
fn text_in<'a>(v: &'a serde_json::Value) -> (r: Option<&'a str>)
    ensures
        as_text(json_tree(*v)) == (match r {
            Some(s) => Some(s@),
            None => None,
        }),
{
    v.as_str()
}

/// `serde_json::Value::as_f64` gives the number that a document is. Here it comes
/// as its bit pattern and as what is left of it without its fraction.
#[verifier::external_body]
fn number_in(v: &serde_json::Value) -> (r: Option<(u64, i64)>)
    ensures
        (match as_number(json_tree(*v)) {
            Some(n) => r == Some((n.bits, n.whole)),
            None => r is None,
        }),
{
    v.as_f64().map(|x| (x.to_bits(), x as i64))
}

/// `serde_json::Value::as_i64` gives the signed integer that a document is.
#[verifier::external_body]
fn signed_in(v: &serde_json::Value) -> (r: Option<i64>)
    ensures
        (match as_number(json_tree(*v)) {
            Some(n) => r == n.signed,
            None => r is None,
        }),
{
    v.as_i64()
}

/// `serde_json::Value::as_u64` gives the unsigned integer that a document is.
#[verifier::external_body]
pub(crate) fn unsigned_in(v: &serde_json::Value) -> (r: Option<u64>)
    ensures
        (match as_number(json_tree(*v)) {
            Some(n) => r == n.unsigned,
            None => r is None,
        }),
{
    v.as_u64()
}

/// `serde_json::Value::as_array` gives the elements of a document that is a list.
#[verifier::external_body]
fn items_in<'a>(v: &'a serde_json::Value) -> (r: Option<&'a Vec<serde_json::Value>>)
    ensures
        (match r {
            Some(s) => json_tree(*v) == Json::List(trees(s@)),
            None => !(json_tree(*v) is List),
        }),
{
    v.as_array()
}

/// `serde_json::Value::is_object`.
#[verifier::external_body]
pub(crate) fn is_object(v: &serde_json::Value) -> (r: bool)
    ensures
        r == (json_tree(*v) is Object),
{
    v.is_object()
}

/// `serde_json::Value::is_null`.
#[verifier::external_body]
pub(crate) fn is_null(v: &serde_json::Value) -> (r: bool)
    ensures
        r == (json_tree(*v) is Null),
{
    v.is_null()
}

/// `serde_json::Value::clone` gives a document that holds the same.
#[verifier::external_body]
pub(crate) fn copied(v: &serde_json::Value) -> (r: serde_json::Value)
    ensures
        json_tree(r) == json_tree(*v),
{
    v.clone()
}

/// `serde_json::Value::from` a text gives a document that is this text.
#[verifier::external_body]
pub(crate) fn text_value(s: &str) -> (r: serde_json::Value)
    ensures
        json_tree(r) == Json::Text(s@),
{
    serde_json::Value::from(s)
}

/// `serde_json::Value::from` a `bool`.
#[verifier::external_body]
pub(crate) fn bool_value(b: bool) -> (r: serde_json::Value)
    ensures
        json_tree(r) == Json::Bool(b),
{
    serde_json::Value::from(b)
}

/// What an integer is as a JSON number. A number of at most 53 bits is exact in
/// binary64, so nothing is lost on the way through it.
pub open spec fn is_integer(j: Json, n: int) -> bool {
    &&& j matches Json::Number(x)
    &&& x.signed == (if i64::MIN <= n <= i64::MAX {
        Some(n as i64)
    } else {
        None
    })
    &&& x.unsigned == (if 0 <= n <= u64::MAX {
        Some(n as u64)
    } else {
        None
    })
    &&& -0x20_0000_0000_0000 <= n <= 0x20_0000_0000_0000 ==> x.whole == n
}

/// `serde_json::Value::from` an `i64` gives this integer as a number.
#[verifier::external_body]
pub(crate) fn signed_value(n: i64) -> (r: serde_json::Value)
    ensures
        is_integer(json_tree(r), n as int),
{
    serde_json::Value::from(n)
}

/// `serde_json::Value::from` a `usize` gives this integer as a number.
#[verifier::external_body]
pub(crate) fn unsigned_value(n: usize) -> (r: serde_json::Value)
    ensures
        is_integer(json_tree(r), n as int),
{
    serde_json::Value::from(n)
}

/// `serde_json::Value::from` a list of documents gives the list of them.
#[verifier::external_body]
pub(crate) fn list_value(s: Vec<serde_json::Value>) -> (r: serde_json::Value)
    ensures
        json_tree(r) == Json::List(trees(s@)),
{
    serde_json::Value::from(s)
}

/// An object of `serde_json` without members, made of `serde_json::Map::new`.
#[verifier::external_body]
pub(crate) fn empty_object() -> (r: serde_json::Value)
    ensures
        json_tree(r) == Json::Object(Map::empty()),
{
    serde_json::Value::from(serde_json::Map::new())
}

/// Assigning to an indexed `serde_json::Value` sets the member of an object with
/// that name. Null counts as an object without members there.
#[verifier::external_body]
pub(crate) fn put(v: &mut serde_json::Value, key: &str, m: serde_json::Value)
    requires
        json_tree(*old(v)) is Object || json_tree(*old(v)) is Null,
    ensures
        json_tree(*final(v)) == Json::Object(
            (match json_tree(*old(v)) {
                Json::Object(fields) => fields,
                _ => Map::empty(),
            }).insert(key@, json_tree(m)),
        ),
{
    v[key] = m;
}

/// What `serde_json::from_str` reads a text as, if it is a JSON document.
pub uninterp spec fn json_of(text: Seq<char>) -> Option<Json>;

/// `serde_json::from_str` reads a text as a document, if it is one.
#[verifier::external_body]
pub(crate) fn read_json(text: &str) -> (r: Option<serde_json::Value>)
    ensures
        json_of(text@) == (match r {
            Some(v) => Some(json_tree(v)),
            None => None,
        }),
{
    serde_json::from_str(text).ok()
}

/// The text that `serde_json` writes for what a document holds.
pub uninterp spec fn json_text(j: Json) -> Seq<char>;

/// Whether a document is written without loss: it is nested less than `depth`
/// times, its numbers are integers, and no member has the name that `serde_json`
/// keeps for itself.
pub open spec fn lossless(j: Json, depth: nat) -> bool
    decreases depth,
{
    match j {
        Json::Null => true,
        Json::Bool(_) => true,
        Json::Number(n) => n.unsigned is Some || n.signed is Some,
        Json::Text(_) => true,
        Json::List(s) => depth > 0 && forall|i: int|
            0 <= i < s.len() ==> lossless(#[trigger] s[i], (depth - 1) as nat),
        Json::Object(m) => depth > 0 && !m.dom().contains("$serde_json::private::RawValue"@) && forall|k: Seq<char>|
            m.dom().contains(k) ==> lossless(#[trigger] m[k], (depth - 1) as nat),
    }
}

/// `serde_json::Value::to_string` writes a document as a text, which
/// `serde_json::from_str` reads as the same document again. The latter is claimed
/// only of documents whose numbers are integers and which are nested no deeper than
/// the reader goes: how close a fraction comes back is not stated.
#[verifier::external_body]
pub(crate) fn write_json(v: &serde_json::Value) -> (r: String)
    ensures
        r@ == json_text(json_tree(*v)),
        lossless(json_tree(*v), 100) ==> json_of(r@) == Some(json_tree(*v)),
{
    v.to_string()
}

/// The first `n` numbers of a list, with commas between them.
pub open spec fn comma_separated(s: Seq<usize>, n: int) -> Seq<char>
    decreases n,
{
    if n <= 0 {
        Seq::empty()
    } else if n == 1 {
        digits(s[0] as nat)
    } else {
        comma_separated(s, n - 1) + seq![','] + digits(s[n - 1] as nat)
    }
}

/// The compact notation of a list of numbers.
pub open spec fn list_text(s: Seq<usize>) -> Seq<char> {
    seq!['['] + comma_separated(s, s.len() as int) + seq![']']
}

/// The list of numbers that `serde_json::from_str` reads a text as, if it is one.
pub uninterp spec fn list_of(text: Seq<char>) -> Option<Seq<usize>>;

/// `serde_json::from_str` reads a text as a list of numbers, if it is one.
#[verifier::external_body]
pub(crate) fn read_numbers(text: &str) -> (r: Option<Vec<usize>>)
    ensures
        list_of(text@) == (match r {
            Some(s) => Some(s@),
            None => None,
        }),
{
    serde_json::from_str(text).ok()
}

/// `serde_json::to_string` writes a list of numbers in its compact notation, which
/// `serde_json::from_str` reads as the same list again. Writing one cannot fail.
#[verifier::external_body]
pub(crate) fn write_numbers(s: &Vec<usize>) -> (r: String)
    ensures
        r@ == list_text(s@),
        list_of(r@) == Some(s@),
{
    serde_json::to_string(s).unwrap()
}

// ---------------------------------------------------------------- reading

/// The text of a member.
pub(crate) fn read_text<'a>(v: &'a serde_json::Value, key: &str) -> (r: Option<&'a str>)
    ensures
        text_field(json_tree(*v), key@) == (match r {
            Some(s) => Some(s@),
            None => None,
        }),
{
    match member(v, key) {
        Some(m) => text_in(m),
        None => None,
    }
}

/// The number of a member, as its bit pattern and without its fraction.
pub(crate) fn read_number(v: &serde_json::Value, key: &str) -> (r: Option<(u64, i64)>)
    ensures
        (match number_field(json_tree(*v), key@) {
            Some(n) => r == Some((n.bits, n.whole)),
            None => r is None,
        }),
{
    match member(v, key) {
        Some(m) => number_in(m),
        None => None,
    }
}

/// The signed integer of a member.
pub(crate) fn read_signed(v: &serde_json::Value, key: &str) -> (r: Option<i64>)
    ensures
        (match number_field(json_tree(*v), key@) {
            Some(n) => r == n.signed,
            None => r is None,
        }),
{
    match member(v, key) {
        Some(m) => signed_in(m),
        None => None,
    }
}

/// The elements of a member that is a list.
pub(crate) fn read_list<'a>(v: &'a serde_json::Value, key: &str) -> (r: Option<&'a Vec<serde_json::Value>>)
    ensures
        list_field(json_tree(*v), key@) == (match r {
            Some(s) => Some(trees(s@)),
            None => None,
        }),
{
    match member(v, key) {
        Some(m) => items_in(m),
        None => None,
    }
}

/// A copy of a member.
pub(crate) fn read_member(v: &serde_json::Value, key: &str) -> (r: Option<serde_json::Value>)
    ensures
        field(json_tree(*v), key@) == (match r {
            Some(m) => Some(json_tree(m)),
            None => None,
        }),
{
    match member(v, key) {
        Some(m) => Some(copied(m)),
        None => None,
    }
}

} // verus!
