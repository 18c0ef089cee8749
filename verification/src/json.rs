//! JSON values: what a `serde_json::Value` holds, as mathematics, and the calls into
//! `serde_json` that the store makes.

use serde_json::Value;
use vstd::prelude::*;

verus! {

/// What a JSON value holds.
///
/// A number is held as `serde_json` holds it: a non-negative integer, a negative integer, or a
/// finite floating point number, of which the bits are kept here.
pub enum Json {
    Null,
    Bool(bool),
    PosInt(u64),
    NegInt(i64),
    Float(u64),
    Str(Seq<char>),
    Array(Seq<Json>),
    Object(Map<Seq<char>, Json>),
}

/// The two floating point zeros, which compare equal although they are printed differently.
pub open spec fn is_zero(bits: u64) -> bool {
    bits == 0 || bits == 0x8000_0000_0000_0000
}

/// The member of `j` that is called `name`; there is none unless `j` is an object.
pub open spec fn member(j: Json, name: Seq<char>) -> Option<Json> {
    match j {
        Json::Object(m) => if m.contains_key(name) {
            Some(m[name])
        } else {
            None
        },
        _ => None,
    }
}

/// Equality of values: the same but for the sign of a floating point zero.
pub open spec fn json_eq(a: Json, b: Json) -> bool
    decreases a,
{
    match (a, b) {
        (Json::Float(x), Json::Float(y)) => x == y || is_zero(x) && is_zero(y),
        (Json::Array(x), Json::Array(y)) => {
            &&& x.len() == y.len()
            &&& forall|i: int| 0 <= i < x.len() ==> json_eq(#[trigger] x[i], y[i])
        },
        (Json::Object(x), Json::Object(y)) => {
            &&& x.dom() == y.dom()
            &&& forall|k: Seq<char>| x.contains_key(k) ==> json_eq(#[trigger] x[k], y[k])
        },
        _ => a == b,
    }
}

/// `j` holds no floating point zero at any depth.
pub open spec fn zero_free(j: Json) -> bool
    decreases j,
{
    match j {
        Json::Float(x) => !is_zero(x),
        Json::Array(s) => forall|i: int| 0 <= i < s.len() ==> zero_free(#[trigger] s[i]),
        Json::Object(m) => forall|k: Seq<char>| m.contains_key(k) ==> zero_free(#[trigger] m[k]),
        _ => true,
    }
}

/// The member by which `serde_json` marks raw text. An object that is printed with this member
/// first is not read back as an object.
pub open spec fn raw_marker() -> Seq<char> {
    "$serde_json::private::RawValue"@
}

/// `j` holds no floating point number and no object with the member that marks raw text, and nests
/// arrays and objects at most `depth` deep.
pub open spec fn plain(j: Json, depth: nat) -> bool
    decreases depth,
{
    match j {
        Json::Float(_) => false,
        Json::Array(s) => depth > 0 && forall|i: int|
            0 <= i < s.len() ==> plain(#[trigger] s[i], (depth - 1) as nat),
        Json::Object(m) => depth > 0 && !m.contains_key(raw_marker()) && forall|k: Seq<char>|
            m.contains_key(k) ==> plain(#[trigger] m[k], (depth - 1) as nat),
        _ => true,
    }
}

/// Text in one line that starts and ends with a visible ASCII character.
pub open spec fn is_compact(text: Seq<char>) -> bool {
    &&& text.len() > 0
    &&& '!' <= text[0] <= '~'
    &&& '!' <= text.last() <= '~'
    &&& !text.contains('\n')
}

/// What the values in `docs` hold.
pub open spec fn jsons(docs: Seq<Value>) -> Seq<Json> {
    docs.map_values(|v: Value| json_of(v))
}

/// On values without a floating point zero, equality is identity.
pub proof fn lemma_eq_is_identity(a: Json, b: Json)
    requires
        zero_free(b),
    ensures
        json_eq(a, b) <==> a == b,
    decreases a,
{
    match (a, b) {
        (Json::Array(x), Json::Array(y)) => {
            if x.len() == y.len() {
                assert forall|i: int| 0 <= i < x.len() implies (json_eq(#[trigger] x[i], y[i])
                    <==> x[i] == y[i]) by {
                    lemma_eq_is_identity(x[i], y[i]);
                }
                if json_eq(a, b) {
                    assert(x =~= y);
                }
            }
        },
        (Json::Object(x), Json::Object(y)) => {
            if x.dom() == y.dom() {
                assert forall|k: Seq<char>| x.contains_key(k) implies (json_eq(
                    #[trigger] x[k],
                    y[k],
                ) <==> x[k] == y[k]) by {
                    assert(y.contains_key(k));
                    lemma_eq_is_identity(x[k], y[k]);
                }
                if json_eq(a, b) {
                    assert(x =~= y);
                }
            }
        },
        _ => {},
    }
}

// ---- the outside types ----

#[verifier::external_type_specification]
#[verifier::external_body]
pub struct ExValue(serde_json::Value);

#[verifier::external_type_specification]
#[verifier::external_body]
#[verifier::reject_recursive_types(K)]
#[verifier::reject_recursive_types(V)]
pub struct ExJsonMap<K, V>(serde_json::Map<K, V>);

#[verifier::external_type_specification]
#[verifier::external_body]
pub struct ExJsonError(serde_json::Error);

// ---- names for what they hold and for what the outside functions return ----

/// What a `serde_json::Value` holds.
pub uninterp spec fn json_of(v: serde_json::Value) -> Json;

/// What a `serde_json::Map` holds: its members by name.
pub uninterp spec fn members_of(m: serde_json::Map<String, serde_json::Value>) -> Map<
    Seq<char>,
    Json,
>;

/// The text that `serde_json::to_string` gives for a value that holds `j`; empty where no value
/// holds `j`.
pub uninterp spec fn json_text(j: Json) -> Seq<char>;

/// What `serde_json::from_str` reads in `text`, or `None` where it refuses the text.
pub uninterp spec fn json_parse(text: Seq<char>) -> Option<Json>;

// ---- calls ----

/// `serde_json::to_string` on a value.
///
/// It never fails on a `Value`. The compact form stands in one line, since every control
/// character in a string is escaped, and neither starts nor ends with white space. Two values
/// with the same text hold the same. A text without floating point numbers, with fewer than 128
/// levels of nesting, and without an object that has the member `$serde_json::private::RawValue`,
/// is read back as the value; of other texts nothing is said.
#[verifier::external_body]
pub(crate) fn to_string(v: &Value) -> (res: Result<String, serde_json::Error>)
    ensures
        res is Ok,
        res->Ok_0@ == json_text(json_of(*v)),
        is_compact(res->Ok_0@),
        plain(json_of(*v), 127) ==> json_parse(res->Ok_0@) == Some(json_of(*v)),
        forall|w: Json| #[trigger] json_text(w) == res->Ok_0@ ==> w == json_of(*v),
{
    serde_json::to_string(v)
}

/// `serde_json::from_str` into a value.
#[verifier::external_body]
pub(crate) fn from_str(text: &str) -> (res: Result<Value, serde_json::Error>)
    ensures
        match res {
            Ok(v) => json_parse(text@) == Some(json_of(v)),
            Err(_) => json_parse(text@) is None,
        },
{
    serde_json::from_str(text)
}

/// `Value::get` by a member's name.
#[verifier::external_body]
pub(crate) fn get<'a>(v: &'a Value, name: &str) -> (res: Option<&'a Value>)
    ensures
        match res {
            Some(m) => member(json_of(*v), name@) == Some(json_of(*m)),
            None => member(json_of(*v), name@) is None,
        },
{
    v.get(name)
}

/// `==` on two values.
#[verifier::external_body]
pub(crate) fn equal(a: &Value, b: &Value) -> (res: bool)
    ensures
        res == json_eq(json_of(*a), json_of(*b)),
{
    a == b
}

/// `Value::is_object`.
#[verifier::external_body]
pub(crate) fn is_object(v: &Value) -> (res: bool)
    ensures
        res == (json_of(*v) is Object),
{
    v.is_object()
}

/// Tells `Value::Object` from the other variants, and hands back the members or the value.
#[verifier::external_body]
pub(crate) fn into_object(v: Value) -> (res: Result<serde_json::Map<String, Value>, Value>)
    ensures
        match res {
            Ok(m) => json_of(v) == Json::Object(members_of(m)),
            Err(same) => json_of(v) !is Object && same == v,
        },
{
    match v {
        Value::Object(m) => Ok(m),
        other => Err(other),
    }
}

/// Tells `Value::Array` from the other variants, and hands back the elements or the value.
#[verifier::external_body]
pub(crate) fn into_array(v: Value) -> (res: Result<Vec<Value>, Value>)
    ensures
        match res {
            Ok(a) => json_of(v) == Json::Array(jsons(a@)),
            Err(same) => json_of(v) !is Array && same == v,
        },
{
    match v {
        Value::Array(a) => Ok(a),
        other => Err(other),
    }
}

/// `Value::as_u64`: the integer, where the value is a non-negative one.
#[verifier::external_body]
pub(crate) fn as_u64(v: &Value) -> (res: Option<u64>)
    ensures
        match json_of(*v) {
            Json::PosInt(n) => res == Some(n),
            _ => res is None,
        },
{
    v.as_u64()
}

/// `Value::is_f64`: the value is a number that is held in floating point.
#[verifier::external_body]
fn is_f64(v: &Value) -> (res: bool)
    ensures
        res == (json_of(*v) is Float),
{
    v.is_f64()
}

/// `Value::as_f64` on a number that is held in floating point, of which the bits are taken.
#[verifier::external_body]
fn float_bits(v: &Value) -> (res: Option<u64>)
    requires
        json_of(*v) is Float,
    ensures
        res == Some(json_of(*v)->Float_0),
{
    v.as_f64().map(|number| number.to_bits())
}

/// `Value::as_object`.
#[verifier::external_body]
fn as_object(v: &Value) -> (res: Option<&serde_json::Map<String, Value>>)
    ensures
        match res {
            Some(m) => json_of(*v) == Json::Object(members_of(*m)),
            None => json_of(*v) !is Object,
        },
{
    v.as_object()
}

/// `Value::as_array`.
#[verifier::external_body]
pub(crate) fn as_array(v: &Value) -> (res: Option<&Vec<Value>>)
    ensures
        match res {
            Some(a) => json_of(*v) == Json::Array(jsons(a@)),
            None => json_of(*v) !is Array,
        },
{
    v.as_array()
}

/// `Value::as_str`.
#[verifier::external_body]
pub(crate) fn as_str(v: &Value) -> (res: Option<&str>)
    ensures
        match res {
            Some(s) => json_of(*v) == Json::Str(s@),
            None => json_of(*v) !is Str,
        },
{
    v.as_str()
}

/// The variant `Value::String`.
#[verifier::external_body]
pub(crate) fn string_value(s: String) -> (res: Value)
    ensures
        json_of(res) == Json::Str(s@),
{
    Value::String(s)
}

/// `Value::from` on a list of strings: an array of strings.
#[verifier::external_body]
pub(crate) fn strings_value(list: Vec<String>) -> (res: Value)
    ensures
        json_of(res) == Json::Array(list@.map_values(|s: String| Json::Str(s@))),
{
    Value::from(list)
}

/// The variant `Value::Object`.
#[verifier::external_body]
pub(crate) fn object_value(m: serde_json::Map<String, Value>) -> (res: Value)
    ensures
        json_of(res) == Json::Object(members_of(m)),
{
    Value::Object(m)
}

/// `serde_json::Map::new`.
#[verifier::external_body]
pub(crate) fn map_new() -> (res: serde_json::Map<String, Value>)
    ensures
        members_of(res) == (Map::<Seq<char>, Json>::empty()),
{
    serde_json::Map::new()
}

/// `serde_json::Map::insert`, which replaces a member of that name.
#[verifier::external_body]
pub(crate) fn map_insert(m: &mut serde_json::Map<String, Value>, name: String, value: Value)
    ensures
        members_of(*final(m)) == members_of(*old(m)).insert(name@, json_of(value)),
{
    m.insert(name, value);
}

/// `serde_json::Map::remove`.
#[verifier::external_body]
pub(crate) fn map_remove(m: &mut serde_json::Map<String, Value>, name: &str) -> (res: Option<Value>)
    ensures
        members_of(*final(m)) == members_of(*old(m)).remove(name@),
        match res {
            Some(v) => members_of(*old(m)).contains_key(name@) && members_of(*old(m))[name@]
                == json_of(v),
            None => !members_of(*old(m)).contains_key(name@),
        },
{
    m.remove(name)
}

/// `serde_json::Map::into_iter`: every member once.
#[verifier::external_body]
pub(crate) fn map_entries(m: serde_json::Map<String, Value>) -> (res: Vec<(String, Value)>)
    ensures
        forall|i: int, j: int| 0 <= i < j < res@.len() ==> res@[i].0@ != res@[j].0@,
        forall|i: int|
            0 <= i < res@.len() ==> #[trigger] members_of(m).contains_key(res@[i].0@)
                && members_of(m)[res@[i].0@] == json_of(res@[i].1),
        forall|k: Seq<char>| #[trigger]
            members_of(m).contains_key(k) ==> exists|i: int|
                0 <= i < res@.len() && (#[trigger] res@[i]).0@ == k,
{
    m.into_iter().collect()
}

/// One of the members is `j`.
pub open spec fn has_value(members: Map<Seq<char>, Json>, j: Json) -> bool {
    exists|k: Seq<char>| #[trigger] members.contains_key(k) && members[k] == j
}

/// `serde_json::Map::values`: the value of every member.
#[verifier::external_body]
fn map_values(m: &serde_json::Map<String, Value>) -> (res: Vec<&Value>)
    ensures
        forall|i: int|
            0 <= i < res@.len() ==> has_value(members_of(*m), json_of(*(#[trigger] res@[i]))),
        forall|k: Seq<char>| #[trigger]
            members_of(*m).contains_key(k) ==> exists|i: int|
                0 <= i < res@.len() && json_of(*(#[trigger] res@[i])) == members_of(*m)[k],
{
    m.values().collect()
}

// ---- zeros ----

/// An element of an array is smaller than the array, and a zero in it is one in the array.
proof fn lemma_element(j: Json, i: int)
    requires
        j is Array,
        0 <= i < j->Array_0.len(),
    ensures
        decreases_to!(j => j->Array_0[i]),
        zero_free(j) ==> zero_free(j->Array_0[i]),
{
    assert(decreases_to!(j => j->Array_0));
    assert(decreases_to!(j->Array_0 => j->Array_0[i]));
}

/// A member of an object is smaller than the object, and a zero in it is one in the object.
proof fn lemma_member(j: Json, value: Json)
    requires
        j is Object,
        has_value(j->Object_0, value),
    ensures
        decreases_to!(j => value),
        zero_free(j) ==> zero_free(value),
{
    let k = choose|k: Seq<char>| #[trigger]
        j->Object_0.contains_key(k) && j->Object_0[k] == value;
    assert(decreases_to!(j => j->Object_0[k]));
}

/// Whether a value holds a floating point zero, at any depth.
pub fn has_zero(v: &Value) -> (res: bool)
    ensures
        res == !zero_free(json_of(*v)),
    decreases json_of(*v),
{
    if is_f64(v) {
        return match float_bits(v) {
            Some(bits) => bits == 0 || bits == 0x8000_0000_0000_0000,
            None => false,
        };
    }
    if let Some(list) = as_array(v) {
        let mut i: usize = 0;
        while i < list.len()
            invariant
                i <= list@.len(),
                json_of(*v) == Json::Array(jsons(list@)),
                forall|k: int| 0 <= k < i ==> zero_free(#[trigger] jsons(list@)[k]),
            decreases list@.len() - i,
        {
            proof {
                lemma_element(json_of(*v), i as int);
                assert(jsons(list@)[i as int] == json_of(list@[i as int]));
            }
            if has_zero(&list[i]) {
                return true;
            }
            i = i + 1;
        }
        return false;
    }
    if let Some(members) = as_object(v) {
        let values = map_values(members);
        let mut i: usize = 0;
        while i < values.len()
            invariant
                i <= values@.len(),
                json_of(*v) == Json::Object(members_of(*members)),
                forall|n: int|
                    0 <= n < values@.len() ==> has_value(
                        members_of(*members),
                        json_of(*(#[trigger] values@[n])),
                    ),
                forall|n: int| 0 <= n < i ==> zero_free(json_of(*(#[trigger] values@[n]))),
            decreases values@.len() - i,
        {
            let value: &Value = values[i];
            proof {
                assert(has_value(members_of(*members), json_of(*values@[i as int])));
                lemma_member(json_of(*v), json_of(*value));
            }
            if has_zero(value) {
                return true;
            }
            i = i + 1;
        }
        proof {
            let map = members_of(*members);
            assert forall|k: Seq<char>| map.contains_key(k) implies zero_free(
                #[trigger] map[k],
            ) by {
                let n = choose|n: int|
                    0 <= n < values@.len() && json_of(*(#[trigger] values@[n])) == map[k];
                assert(zero_free(json_of(*values@[n])));
            }
        }
    }
    false
}

} // verus!
