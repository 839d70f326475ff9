//! JSON values as the library reads them: the tree that a decoder hands
//! over, with object members kept in order and numbers kept as their text.

use vstd::prelude::*;
use crate::text::decimal;

verus! {

/// A JSON number: its decimal text and, where it is an integer that fits,
/// its `i64` value.
#[derive(Debug, Clone)]
pub struct JsonNumber {
    /// The number as written by the decoder (shortest round-trip form).
    pub text: String,
    /// The value as an `i64`, where the number is an integer within range.
    pub int: Option<i64>,
}

/// A JSON value.
#[derive(Debug)]
pub enum JsonValue {
    Null,
    Bool(bool),
    Number(JsonNumber),
    Str(String),
    Array(Vec<JsonValue>),
    /// Members in order; a key is looked up at its last occurrence.
    Object(Vec<(String, JsonValue)>),
}

/// The value of the last member of `entries` whose key is `key`, as a map
/// built by inserting the members in order holds it.
pub open spec fn lookup(entries: Seq<(String, JsonValue)>, key: Seq<char>) -> Option<JsonValue>
    decreases entries.len(),
{
    if entries.len() == 0 {
        None
    } else if entries.last().0@ == key {
        Some(entries.last().1)
    } else {
        lookup(entries.drop_last(), key)
    }
}

/// The text of a JSON string value.
pub open spec fn text_of(v: JsonValue) -> Option<Seq<char>> {
    match v {
        JsonValue::Str(s) => Some(s@),
        _ => None,
    }
}

/// The index of the last member of `entries` whose key is `key`.
pub fn find_key(entries: &Vec<(String, JsonValue)>, key: &String) -> (r: Option<usize>)
    ensures
        r matches Some(i) ==> i < entries@.len() && entries@[i as int].0@ == key@
            && lookup(entries@, key@) == Some(entries@[i as int].1),
        r is None ==> lookup(entries@, key@) is None,
{
    let mut i: usize = entries.len();
    assert(entries@.take(i as int) =~= entries@);
    while i > 0
        invariant
            i <= entries@.len(),
            lookup(entries@, key@) == lookup(entries@.take(i as int), key@),
        decreases i,
    {
        let ghost pre = entries@.take(i as int);
        assert(pre.last() == entries@[i - 1]);
        if entries[i - 1].0 == *key {
            return Some(i - 1);
        }
        assert(pre.drop_last() =~= entries@.take(i - 1));
        i = i - 1;
    }
    None
}

/// A JSON value of the kinds that decode without loss, as a tree of texts:
/// used to say what decoding a text gives.
pub enum PlainJson {
    Null,
    Bool(bool),
    /// An integer, written as its decimal.
    Int(i64),
    /// A string, written between quotes as it is.
    Str(Seq<char>),
    Array(Seq<PlainJson>),
    /// Members in order.
    Object(Seq<(Seq<char>, PlainJson)>),
}

/// `s` can stand between the quotes of a JSON string as it is: no quote, no
/// backslash, no control char.
pub open spec fn plain_text(s: Seq<char>) -> bool {
    forall|i: int| 0 <= i < s.len() ==> s[i] != '"' && s[i] != '\\' && (#[trigger] s[i] as u32) >= 32
}

/// `s` is plain text of ASCII chars.
pub open spec fn ascii_text(s: Seq<char>) -> bool {
    plain_text(s) && forall|i: int| 0 <= i < s.len() ==> (#[trigger] s[i] as u32) < 128
}

/// `a` comes strictly before `b` in the lexicographic order of char codes.
pub open spec fn key_before(a: Seq<char>, b: Seq<char>) -> bool
    decreases a.len(),
{
    if a.len() == 0 {
        b.len() > 0
    } else if b.len() == 0 {
        false
    } else if a[0] != b[0] {
        (a[0] as u32) < (b[0] as u32)
    } else {
        key_before(a.drop_first(), b.drop_first())
    }
}

/// The decimal text of the integer `i`, with a `-` where it is negative.
pub open spec fn int_text(i: int) -> Seq<char> {
    if i < 0 {
        seq!['-'] + decimal((-i) as nat)
    } else {
        decimal(i as nat)
    }
}

/// The compact JSON text of `t`, containers nested at most `depth` deep.
pub open spec fn compact_text(t: PlainJson, depth: nat) -> Seq<char>
    decreases depth, 0nat,
{
    match t {
        PlainJson::Null => seq!['n', 'u', 'l', 'l'],
        PlainJson::Bool(b) => if b { seq!['t', 'r', 'u', 'e'] } else { seq!['f', 'a', 'l', 's', 'e'] },
        PlainJson::Int(i) => int_text(i as int),
        PlainJson::Str(s) => seq!['"'] + s + seq!['"'],
        PlainJson::Array(a) => if depth == 0 {
            Seq::empty()
        } else {
            seq!['['] + compact_items(a, (depth - 1) as nat) + seq![']']
        },
        PlainJson::Object(m) => if depth == 0 {
            Seq::empty()
        } else {
            seq!['{'] + compact_members(m, (depth - 1) as nat) + seq!['}']
        },
    }
}

/// The compact texts of `a`, separated by commas.
pub open spec fn compact_items(a: Seq<PlainJson>, depth: nat) -> Seq<char>
    decreases depth, a.len(),
{
    if a.len() == 0 {
        Seq::empty()
    } else if a.len() == 1 {
        compact_text(a[0], depth)
    } else {
        compact_items(a.drop_last(), depth) + seq![','] + compact_text(a.last(), depth)
    }
}

/// The compact texts of the members `m`, `"key":value`, separated by commas.
pub open spec fn compact_members(m: Seq<(Seq<char>, PlainJson)>, depth: nat) -> Seq<char>
    decreases depth, m.len(),
{
    if m.len() == 0 {
        Seq::empty()
    } else {
        let last = seq!['"'] + m.last().0 + seq!['"', ':'] + compact_text(m.last().1, depth);
        if m.len() == 1 {
            last
        } else {
            compact_members(m.drop_last(), depth) + seq![','] + last
        }
    }
}

/// `t` decodes without loss from its compact text: strings of plain text,
/// containers nested at most `depth` deep, object keys ASCII plain text in
/// strictly increasing order (so no key twice).
pub open spec fn decodable(t: PlainJson, depth: nat) -> bool
    decreases depth, 0nat,
{
    match t {
        PlainJson::Str(s) => plain_text(s),
        PlainJson::Array(a) => depth > 0 && decodable_items(a, (depth - 1) as nat),
        PlainJson::Object(m) => depth > 0 && decodable_members(m, (depth - 1) as nat),
        _ => true,
    }
}

/// Each of `a` is decodable.
pub open spec fn decodable_items(a: Seq<PlainJson>, depth: nat) -> bool
    decreases depth, a.len(),
{
    a.len() == 0 || (decodable_items(a.drop_last(), depth) && decodable(a.last(), depth))
}

/// Each member of `m` is decodable, with ASCII plain keys in strictly
/// increasing order.
pub open spec fn decodable_members(m: Seq<(Seq<char>, PlainJson)>, depth: nat) -> bool
    decreases depth, m.len(),
{
    m.len() == 0 || {
        &&& decodable_members(m.drop_last(), depth)
        &&& ascii_text(m.last().0)
        &&& decodable(m.last().1, depth)
        &&& m.len() >= 2 ==> key_before(m[m.len() - 2].0, m.last().0)
    }
}

/// `v` is the value `t`: same kind, same texts, each integer a number with
/// that decimal text and that `i64` value; containers at most `depth` deep.
pub open spec fn denotes(v: JsonValue, t: PlainJson, depth: nat) -> bool
    decreases depth, 0nat,
{
    match (v, t) {
        (JsonValue::Null, PlainJson::Null) => true,
        (JsonValue::Bool(b), PlainJson::Bool(c)) => b == c,
        (JsonValue::Number(n), PlainJson::Int(i)) => n.text@ == int_text(i as int) && n.int == Some(i),
        (JsonValue::Str(s), PlainJson::Str(u)) => s@ == u,
        (JsonValue::Array(a), PlainJson::Array(b)) => depth > 0 && denotes_items(a@, b, (depth - 1) as nat),
        (JsonValue::Object(e), PlainJson::Object(m)) => depth > 0 && denotes_members(e@, m, (depth - 1) as nat),
        _ => false,
    }
}

/// `a` are the values `b`, one for one.
pub open spec fn denotes_items(a: Seq<JsonValue>, b: Seq<PlainJson>, depth: nat) -> bool
    decreases depth, b.len(),
{
    a.len() == b.len() && (b.len() == 0 || (denotes_items(a.drop_last(), b.drop_last(), depth)
        && denotes(a.last(), b.last(), depth)))
}

/// `e` are the members `m`, one for one: same keys, values as [`denotes`].
pub open spec fn denotes_members(e: Seq<(String, JsonValue)>, m: Seq<(Seq<char>, PlainJson)>, depth: nat) -> bool
    decreases depth, m.len(),
{
    e.len() == m.len() && (m.len() == 0 || (denotes_members(e.drop_last(), m.drop_last(), depth)
        && e.last().0@ == m.last().0 && denotes(e.last().1, m.last().1, depth)))
}

#[verifier::external_type_specification]
#[verifier::external_body]
pub struct ExSerdeJsonValue(serde_json::Value);

/// The value that serde_json decodes from `text`, where `text` is one JSON
/// value: arrays and objects in order, each number as its text and, where
/// it is an integer within range, its `i64` value.
pub uninterp spec fn parsed_json(text: Seq<char>) -> Option<JsonValue>;

/// Decodes the JSON text `text`.
///
/// Wraps `serde_json::from_str::<serde_json::Value>`, converted into
/// [`JsonValue`]. Claimed: the result is the value [`parsed_json`] names for
/// `text` (it depends on `text` alone); and where `text` is the compact text
/// of a decodable [`PlainJson`] `t`, the result is `t` (see [`denotes`]).
/// That second claim rests on serde_json's source: `null`, `true`, `false`
/// and a string with no escape or control char decode as they are; an
/// integer with no leading zero (not `-0`) within `i64` decodes as a `u64`
/// or negative `i64` (`parse_integer`, `parse_number`), whose `Display` is
/// its decimal and whose `as_i64` is its value; arrays keep their order;
/// objects go into a `Map` sorted by key (or in insertion order with
/// `preserve_order`), which for ASCII keys given in increasing order is the
/// order of the text; nesting stays far below the recursion limit of 128.
/// Texts of other shapes are left to the name.
#[verifier::external_body]
pub fn parse_json(text: &str) -> (r: Option<JsonValue>)
    ensures
        r == parsed_json(text@),
        forall|t: PlainJson| decodable(t, 100) && #[trigger] compact_text(t, 100) == text@
            ==> r is Some && denotes(r->0, t, 100),
{
    serde_json::from_str::<serde_json::Value>(text).ok().map(json_from_serde)
}

/// The [`JsonValue`] of a serde_json value, member for member.
#[verifier::external_body]
fn json_from_serde(v: serde_json::Value) -> JsonValue {
    match v {
        serde_json::Value::Null => JsonValue::Null,
        serde_json::Value::Bool(b) => JsonValue::Bool(b),
        serde_json::Value::Number(n) => JsonValue::Number(JsonNumber { text: n.to_string(), int: n.as_i64() }),
        serde_json::Value::String(s) => JsonValue::Str(s),
        serde_json::Value::Array(a) => JsonValue::Array(a.into_iter().map(json_from_serde).collect()),
        serde_json::Value::Object(m) => JsonValue::Object(m.into_iter().map(|(k, v)| (k, json_from_serde(v))).collect()),
    }
}

} // verus!
