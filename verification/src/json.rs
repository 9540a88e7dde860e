//! JSON values. Reading, writing and holding them is left to `serde_json`; this module says
//! what the library relies on.
//!
//! The order of keys, and what is read of numbers and objects, hold of `serde_json` built
//! without its features `preserve_order`, `arbitrary_precision` and `raw_value`. This library
//! switches none of them on, but another crate of the same build can.

use crate::scan;
use crate::text;
use serde_json::Value;
use vstd::prelude::*;

verus! {

/// What a JSON value holds.
pub enum Json {
    /// `null`.
    Null,
    /// `true` or `false`.
    Bool(bool),
    /// A number held as a 64-bit integer.
    Integer(int),
    /// A number held as a floating-point number, by the text it is written as.
    Float(Seq<char>),
    /// A string.
    Text(Seq<char>),
    /// An array.
    Array(Seq<Json>),
    /// An object.
    Object(Map<Seq<char>, Json>),
}

/// `serde_json::Value`, a JSON value.
#[verifier::external_type_specification]
#[verifier::external_body]
pub struct ExValue(serde_json::Value);

/// `serde_json::Error`, the reason why a text is not JSON.
#[verifier::external_type_specification]
#[verifier::external_body]
pub struct ExError(serde_json::Error);

/// `serde_json::Map`, the members of a JSON object.
#[verifier::external_type_specification]
#[verifier::external_body]
#[verifier::reject_recursive_types(K)]
#[verifier::reject_recursive_types(V)]
pub struct ExMembers<K, V>(serde_json::Map<K, V>);

/// What a `serde_json::Value` holds.
pub uninterp spec fn json_of(v: serde_json::Value) -> Json;

/// What a `serde_json::Map` holds.
pub uninterp spec fn members(m: serde_json::Map<String, serde_json::Value>) -> Map<Seq<char>, Json>;

/// The value that `serde_json::from_str` reads from a text; nothing where it reports an error.
pub uninterp spec fn json_parse(source: Seq<char>) -> Option<Json>;

/// The compact text that the `Display` of `serde_json::Value` writes for a value.
pub uninterp spec fn json_text(value: Json) -> Seq<char>;

/// A value that holds no floating-point number, at any depth.
pub open spec fn whole(value: Json) -> bool
    decreases value,
{
    match value {
        Json::Float(_) => false,
        Json::Array(items) => forall|i: int| 0 <= i < items.len() ==> whole(#[trigger] items[i]),
        Json::Object(m) => forall|k: Seq<char>| m.dom().contains(k) ==> whole(#[trigger] m[k]),
        _ => true,
    }
}

/// A value whose arrays and objects are nested at most `depth` deep.
pub open spec fn within(value: Json, depth: nat) -> bool
    decreases depth,
{
    match value {
        Json::Array(items) => depth > 0 && forall|i: int|
            0 <= i < items.len() ==> within(#[trigger] items[i], (depth - 1) as nat),
        Json::Object(m) => depth > 0 && forall|k: Seq<char>|
            m.dom().contains(k) ==> within(#[trigger] m[k], (depth - 1) as nat),
        _ => true,
    }
}

/// The deepest nesting that `serde_json` reads.
pub const MAX_DEPTH: u8 = 127;

/// The member `key` of a value; only objects have members.
pub open spec fn member(value: Json, key: Seq<char>) -> Option<Json> {
    match value {
        Json::Object(m) => if m.dom().contains(key) {
            Some(m[key])
        } else {
            None
        },
        _ => None,
    }
}

/// Whether `keys` lists the keys of `m`, each once, in the order of strings.
pub open spec fn lists_keys(keys: Seq<Seq<char>>, m: Map<Seq<char>, Json>) -> bool {
    &&& forall|i: int| 0 <= i < keys.len() ==> m.dom().contains(#[trigger] keys[i])
    &&& forall|k: Seq<char>| m.dom().contains(k) ==> #[trigger] keys.contains(k)
    &&& forall|i: int, j: int| 0 <= i < j < keys.len() ==> text::precedes(keys[i], keys[j])
}

/// The keys of `m` in the order of strings.
pub open spec fn key_order(m: Map<Seq<char>, Json>) -> Seq<Seq<char>> {
    choose|keys: Seq<Seq<char>>| lists_keys(keys, m)
}

/// The keys of the entries that a map hands out.
pub open spec fn entry_keys(entries: Seq<(&String, &Value)>) -> Seq<Seq<char>> {
    Seq::new(entries.len(), |i: int| entries[i].0@)
}

/// `serde_json::Value::as_object`: the members of an object, nothing for any other value.
pub assume_specification[ serde_json::Value::as_object ](value: &serde_json::Value) -> (r: Option<
    &serde_json::Map<String, serde_json::Value>,
>)
    ensures
        match r {
            Some(m) => json_of(*value) == Json::Object(members(*m)),
            None => !(json_of(*value) is Object),
        },
;

/// `serde_json::Value::as_str`: the content of a string, nothing for any other value.
pub assume_specification[ serde_json::Value::as_str ](value: &serde_json::Value) -> (r: Option<&str>)
    ensures
        match r {
            Some(s) => json_of(*value) == Json::Text(s@),
            None => !(json_of(*value) is Text),
        },
;

/// `serde_json::Map::new`: a map without members.
pub assume_specification[ serde_json::Map::<String, serde_json::Value>::new ]() -> (r:
    serde_json::Map<String, serde_json::Value>)
    ensures
        members(r) == (Map::<Seq<char>, Json>::empty()),
;

/// `serde_json::Map::insert`: sets the member `k` to `v` and returns the value it had before.
pub assume_specification[ serde_json::Map::<String, serde_json::Value>::insert ](
    m: &mut serde_json::Map<String, serde_json::Value>,
    k: String,
    v: serde_json::Value,
) -> (r: Option<serde_json::Value>)
    ensures
        members(*final(m)) == members(*old(m)).insert(k@, json_of(v)),
        match r {
            Some(prior) => member(Json::Object(members(*old(m))), k@) == Some(json_of(prior)),
            None => !members(*old(m)).dom().contains(k@),
        },
;

/// `serde_json::from_str`: reads a JSON text. The value is a function of the text alone, and
/// its arrays and objects are nested no deeper than the reader goes: of a text that nests them
/// deeper it reports an error.
#[verifier::external_body]
pub(crate) fn read_value(source: &str) -> (r: Result<Value, serde_json::Error>)
    ensures
        match r {
            Ok(value) => {
                &&& json_parse(source@) == Some(json_of(value))
                &&& within(json_of(value), MAX_DEPTH as nat)
            },
            Err(_) => json_parse(source@) is None,
        },
{
    serde_json::from_str(source)
}

/// `to_string` of `serde_json::Value`: writes a value as compact JSON. The text is a function
/// of what the value holds. In it strings are quoted, with quotes, backslashes and control
/// characters escaped, brackets are matched, commas stand between brackets only, and there are
/// no parentheses and no white space outside strings; so it can stand as the value of an
/// argument. Reading it gives the value back, unless that holds a floating-point number or is
/// nested deeper than the reader goes.
#[verifier::external_body]
pub(crate) fn write_value(value: &Value) -> (r: String)
    ensures
        r@ == json_text(json_of(*value)),
        scan::standalone(r@),
        whole(json_of(*value)) && within(json_of(*value), MAX_DEPTH as nat) ==> json_parse(r@)
            == Some(json_of(*value)),
{
    value.to_string()
}

/// `serde_json::Value::get` with a string: the member of that key, nothing if the value is no
/// object or has no such member.
#[verifier::external_body]
pub(crate) fn get_member<'a>(value: &'a Value, key: &str) -> (r: Option<&'a Value>)
    ensures
        match r {
            Some(found) => member(json_of(*value), key@) == Some(json_of(*found)),
            None => member(json_of(*value), key@) is None,
        },
{
    value.get(key)
}

/// `serde_json::Map::iter`: the members of a map, in the order of their keys.
#[verifier::external_body]
pub(crate) fn list_members<'a>(m: &'a serde_json::Map<String, Value>) -> (r: Vec<
    (&'a String, &'a Value),
>)
    ensures
        lists_keys(entry_keys(r@), members(*m)),
        forall|i: int|
            0 <= i < r@.len() ==> json_of(*(#[trigger] r@[i]).1) == members(*m)[r@[i].0@],
{
    m.iter().collect()
}

/// `serde_json::Value::Object`: the object with the members of `m`.
#[verifier::external_body]
pub(crate) fn object_value(m: serde_json::Map<String, Value>) -> (r: Value)
    ensures
        json_of(r) == Json::Object(members(m)),
{
    Value::Object(m)
}

/// `serde_json::Value::String`: the string value `s`.
#[verifier::external_body]
pub(crate) fn string_value(s: String) -> (r: Value)
    ensures
        json_of(r) == Json::Text(s@),
{
    Value::String(s)
}

/// A value that is nested at most `depth` deep is nested no deeper than any more than that.
proof fn lemma_within_more(value: Json, depth: nat, more: nat)
    requires
        within(value, depth),
        depth <= more,
    ensures
        within(value, more),
    decreases depth,
{
    match value {
        Json::Array(items) => {
            assert forall|i: int| 0 <= i < items.len() implies within(
                #[trigger] items[i],
                (more - 1) as nat,
            ) by {
                lemma_within_more(items[i], (depth - 1) as nat, (more - 1) as nat);
            }
        },
        Json::Object(m) => {
            assert forall|k: Seq<char>| m.dom().contains(k) implies within(
                #[trigger] m[k],
                (more - 1) as nat,
            ) by {
                lemma_within_more(m[k], (depth - 1) as nat, (more - 1) as nat);
            }
        },
        _ => {},
    }
}

/// The members of an object are nested no deeper than the object.
pub(crate) proof fn lemma_member_within(m: Map<Seq<char>, Json>, key: Seq<char>, depth: nat)
    requires
        within(Json::Object(m), depth),
        m.dom().contains(key),
    ensures
        within(m[key], depth),
{
    assert(Json::Object(m)->Object_0[key] == m[key]);
    lemma_within_more(m[key], (depth - 1) as nat, depth);
}

/// There is one way to list the keys of a map in order.
pub proof fn lemma_key_order(keys: Seq<Seq<char>>, m: Map<Seq<char>, Json>)
    requires
        lists_keys(keys, m),
    ensures
        key_order(m) == keys,
{
    lemma_same_order(keys, key_order(m), m, 0);
    assert(keys == key_order(m));
}

/// Two ordered lists of the keys of a map that agree up to `n` agree throughout.
proof fn lemma_same_order(
    a: Seq<Seq<char>>,
    b: Seq<Seq<char>>,
    m: Map<Seq<char>, Json>,
    n: int,
)
    requires
        lists_keys(a, m),
        lists_keys(b, m),
        0 <= n <= a.len(),
        n <= b.len(),
        forall|i: int| 0 <= i < n ==> a[i] == b[i],
    ensures
        a == b,
    decreases a.len() - n,
{
    if n < a.len() && n < b.len() {
        assert(b.contains(a[n]) && a.contains(b[n]));
        let j = choose|j: int| 0 <= j < b.len() && b[j] == a[n];
        let i = choose|i: int| 0 <= i < a.len() && a[i] == b[n];
        if j < n {
            lemma_precedes_one_way_at(a, j, n);
        }
        if i < n {
            lemma_precedes_one_way_at(b, i, n);
        }
        if a[n] != b[n] {
            text::lemma_precedes_one_way(a[n], b[n]);
        }
        lemma_same_order(a, b, m, n + 1);
    } else if n < a.len() {
        assert(b.contains(a[n]));
        let j = choose|j: int| 0 <= j < b.len() && b[j] == a[n];
        lemma_precedes_one_way_at(a, j, n);
    } else if n < b.len() {
        assert(a.contains(b[n]));
        let i = choose|i: int| 0 <= i < a.len() && a[i] == b[n];
        lemma_precedes_one_way_at(b, i, n);
    }
}

/// An ordered list does not repeat itself.
proof fn lemma_precedes_one_way_at(keys: Seq<Seq<char>>, i: int, j: int)
    requires
        0 <= i < j < keys.len(),
        text::precedes(keys[i], keys[j]),
    ensures
        keys[i] != keys[j],
{
    text::lemma_precedes_one_way(keys[i], keys[j]);
}

} // verus!
