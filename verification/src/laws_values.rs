//! Laws of values and texts: members, equality, white space, digits and the order of names.

use crate::json::{json_eq, json_of, jsons, lemma_eq_is_identity, member, plain, zero_free, Json};
use crate::text::{
    bytes_le, decimal, digit, hex, is_whitespace, text_of, texts, texts_ascend, trim, trim_end,
    trim_start,
};
use serde_json::Value;
use vstd::prelude::*;
use vstd::utf8::encode_utf8;

verus! {

// ---- values ----

/// A member that is put into an object is found there, and hides no other; one that is taken out
/// is not found.
pub proof fn law_members_are_found(
    members: Map<Seq<char>, Json>,
    name: Seq<char>,
    value: Json,
    other: Seq<char>,
)
    ensures
        member(Json::Object(members.insert(name, value)), name) == Some(value),
        other != name ==> member(Json::Object(members.insert(name, value)), other) == member(
            Json::Object(members),
            other,
        ),
        member(Json::Object(members.remove(name)), name) is None,
{
}

/// Only an object has members.
pub proof fn law_only_objects_have_members(j: Json, name: Seq<char>)
    requires
        member(j, name) is Some,
    ensures
        j matches Json::Object(m) && m.contains_key(name) && m[name] == member(j, name).unwrap(),
{
}

/// Every value equals itself.
pub proof fn law_equality_is_reflexive(j: Json)
    ensures
        json_eq(j, j),
    decreases j,
{
    match j {
        Json::Array(s) => {
            assert forall|i: int| 0 <= i < s.len() implies json_eq(#[trigger] s[i], s[i]) by {
                law_equality_is_reflexive(s[i]);
            }
        },
        Json::Object(m) => {
            assert forall|k: Seq<char>| m.contains_key(k) implies json_eq(
                #[trigger] m[k],
                m[k],
            ) by {
                law_equality_is_reflexive(m[k]);
            }
        },
        _ => {},
    }
}

/// What equals a value is equalled by it.
pub proof fn law_equality_is_symmetric(a: Json, b: Json)
    requires
        json_eq(a, b),
    ensures
        json_eq(b, a),
    decreases a,
{
    match (a, b) {
        (Json::Array(x), Json::Array(y)) => {
            assert forall|i: int| 0 <= i < y.len() implies json_eq(#[trigger] y[i], x[i]) by {
                assert(json_eq(x[i], y[i]));
                law_equality_is_symmetric(x[i], y[i]);
            }
        },
        (Json::Object(x), Json::Object(y)) => {
            assert forall|k: Seq<char>| y.contains_key(k) implies json_eq(
                #[trigger] y[k],
                x[k],
            ) by {
                assert(x.dom().contains(k));
                assert(json_eq(x[k], y[k]));
                law_equality_is_symmetric(x[k], y[k]);
            }
        },
        _ => {},
    }
}

/// The two floating point zeros are equal; a value without them equals nothing but itself.
pub proof fn law_only_zeros_differ_and_are_equal(a: Json, b: Json)
    ensures
        json_eq(Json::Float(0), Json::Float(0x8000_0000_0000_0000)),
        zero_free(b) ==> (json_eq(a, b) <==> a == b),
{
    if zero_free(b) {
        lemma_eq_is_identity(a, b);
    }
}

/// Values of different kinds are never equal, and floating point numbers only where they are the
/// same or both zero.
pub proof fn law_kinds_are_told_apart(a: Json, b: Json, x: u64, y: u64)
    ensures
        json_eq(a, b) ==> (a is Float <==> b is Float) && (a is Array <==> b is Array) && (
        a is Object <==> b is Object),
        json_eq(a, b) && !(a is Float || a is Array || a is Object) ==> a == b,
        json_eq(Json::Float(x), Json::Float(y)) <==> x == y || (x == 0 || x
            == 0x8000_0000_0000_0000) && (y == 0 || y == 0x8000_0000_0000_0000),
{
}

/// Arrays are equal where they are element by element.
pub proof fn law_arrays_are_compared_by_elements(x: Seq<Json>, y: Seq<Json>, a: Json, b: Json)
    ensures
        json_eq(Json::Array(x.push(a)), Json::Array(y.push(b))) <==> json_eq(
            Json::Array(x),
            Json::Array(y),
        ) && json_eq(a, b),
        json_eq(Json::Array(Seq::empty()), Json::Array(y)) <==> y.len() == 0,
{
    let l = x.push(a);
    let r = y.push(b);
    if json_eq(Json::Array(l), Json::Array(r)) {
        assert(json_eq(l[l.len() - 1], r[l.len() - 1]));
        assert forall|i: int| 0 <= i < x.len() implies json_eq(#[trigger] x[i], y[i]) by {
            assert(json_eq(l[i], r[i]));
        }
    }
}

/// Objects are equal where they are member by member.
pub proof fn law_objects_are_compared_by_members(
    x: Map<Seq<char>, Json>,
    y: Map<Seq<char>, Json>,
    name: Seq<char>,
    a: Json,
    b: Json,
)
    requires
        !x.contains_key(name),
        !y.contains_key(name),
    ensures
        json_eq(Json::Object(x.insert(name, a)), Json::Object(y.insert(name, b))) <==> json_eq(
            Json::Object(x),
            Json::Object(y),
        ) && json_eq(a, b),
        !json_eq(Json::Object(x.insert(name, a)), Json::Object(y)),
{
    let l = x.insert(name, a);
    let r = y.insert(name, b);
    assert(l.dom().contains(name));
    assert(x.dom() =~= l.dom().remove(name));
    assert(y.dom() =~= r.dom().remove(name));
    if json_eq(Json::Object(l), Json::Object(r)) {
        assert(json_eq(l[name], r[name]));
        assert forall|k: Seq<char>| x.contains_key(k) implies json_eq(#[trigger] x[k], y[k]) by {
            assert(l.contains_key(k));
            assert(json_eq(l[k], r[k]));
        }
    }
    if json_eq(Json::Object(x), Json::Object(y)) && json_eq(a, b) {
        assert(l.dom() =~= r.dom());
        assert forall|k: Seq<char>| l.contains_key(k) implies json_eq(#[trigger] l[k], r[k]) by {
            if k != name {
                assert(json_eq(x[k], y[k]));
            }
        }
    }
}

/// A value is free of floating point zeros where all that it holds is.
pub proof fn law_zeros_are_found_in_arrays(s: Seq<Json>, j: Json)
    ensures
        zero_free(Json::Array(Seq::empty())),
        zero_free(Json::Array(s.push(j))) <==> zero_free(Json::Array(s)) && zero_free(j),
{
    let t = s.push(j);
    let whole = Json::Array(t);
    let part = Json::Array(s);
    assert(whole->Array_0 == t && part->Array_0 == s);
    if zero_free(whole) {
        assert(zero_free(whole->Array_0[s.len() as int]));
        assert forall|i: int| 0 <= i < s.len() implies zero_free(#[trigger] s[i]) by {
            assert(zero_free(whole->Array_0[i]));
        }
    }
}

/// A value is free of floating point zeros where all its members are.
pub proof fn law_zeros_are_found_in_objects(m: Map<Seq<char>, Json>, name: Seq<char>, j: Json)
    requires
        !m.contains_key(name),
    ensures
        zero_free(Json::Object(Map::empty())),
        zero_free(Json::Object(m.insert(name, j))) <==> zero_free(Json::Object(m)) && zero_free(j),
{
    let n = m.insert(name, j);
    let whole = Json::Object(n);
    let part = Json::Object(m);
    assert(whole->Object_0 == n && part->Object_0 == m);
    assert(n.contains_key(name));
    if zero_free(whole) {
        assert(zero_free(whole->Object_0[name]));
        assert forall|k: Seq<char>| m.contains_key(k) implies zero_free(#[trigger] m[k]) by {
            assert(n.contains_key(k));
            assert(zero_free(whole->Object_0[k]));
        }
    }
    if zero_free(part) && zero_free(j) {
        assert forall|k: Seq<char>| n.contains_key(k) implies zero_free(#[trigger] n[k]) by {
            if k != name {
                assert(zero_free(part->Object_0[k]));
            }
        }
    }
}

/// The floating point zeros are the two numbers of which no bit is set but for the sign.
pub proof fn law_zeros(j: Json, bits: u64)
    ensures
        zero_free(Json::Float(bits)) <==> bits != 0 && bits != 0x8000_0000_0000_0000,
        !(j is Float || j is Array || j is Object) ==> zero_free(j),
{
}

/// Whatever is no floating point number and holds no value is plain; an array is where its values
/// are plain one level less deep.
pub proof fn law_plain_arrays(s: Seq<Json>, j: Json, bits: u64, depth: nat)
    ensures
        !(j is Float || j is Array || j is Object) ==> plain(j, depth),
        !plain(Json::Float(bits), depth),
        !plain(Json::Array(s), 0),
        (forall|i: int| 0 <= i < s.len() ==> plain(#[trigger] s[i], depth)) <==> plain(
            Json::Array(s),
            depth + 1,
        ),
{
    let whole = Json::Array(s);
    assert(whole->Array_0 == s);
    assert(((depth + 1) - 1) as nat == depth);
    if plain(whole, depth + 1) {
        assert forall|i: int| 0 <= i < s.len() implies plain(#[trigger] s[i], depth) by {
            assert(plain(whole->Array_0[i], depth));
        }
    }
}

/// An object is plain where its members are plain one level less deep, whatever they are called,
/// but for the one name that marks raw text.
pub proof fn law_plain_objects(m: Map<Seq<char>, Json>, depth: nat)
    ensures
        !plain(Json::Object(m), 0),
        !m.contains_key("$serde_json::private::RawValue"@) && (forall|k: Seq<char>|
            m.contains_key(k) ==> plain(#[trigger] m[k], depth)) <==> plain(
            Json::Object(m),
            depth + 1,
        ),
{
    let whole = Json::Object(m);
    assert(whole->Object_0 == m);
    assert(((depth + 1) - 1) as nat == depth);
    if plain(whole, depth + 1) {
        assert forall|k: Seq<char>| m.contains_key(k) implies plain(#[trigger] m[k], depth) by {
            assert(plain(whole->Object_0[k], depth));
        }
    }
}

/// What a list of values holds, one by one.
pub proof fn law_values_are_taken_one_by_one(values: Seq<Value>, i: int)
    ensures
        jsons(values).len() == values.len(),
        0 <= i < values.len() ==> jsons(values)[i] == json_of(values[i]),
{
}

// ---- texts ----

/// The texts of strings, one by one.
pub proof fn law_texts_are_taken_one_by_one(list: Seq<String>, i: int, s: String)
    ensures
        texts(list).len() == list.len(),
        0 <= i < list.len() ==> texts(list)[i] == list[i]@,
        text_of(Some(s)) == Some(s@),
        text_of(None) is None,
{
}

/// White space is what Unicode calls so: in ASCII the blank and the controls from tab to carriage
/// return; beyond it seventeen spaces and two separators.
pub proof fn law_white_space(c: char)
    ensures
        (c as int) < 128 ==> (is_whitespace(c) <==> c as int == 32 || 9 <= c as int <= 13),
        (c as int) >= 128 ==> (is_whitespace(c) <==> 0x2000 <= c as int <= 0x200a || seq![
            0x85int,
            0xa0int,
            0x1680int,
            0x2028int,
            0x2029int,
            0x202fint,
            0x205fint,
            0x3000int,
        ].contains(c as int)),
{
    let list = seq![
        0x85int,
        0xa0int,
        0x1680int,
        0x2028int,
        0x2029int,
        0x202fint,
        0x205fint,
        0x3000int,
    ];
    assert(list[0] == 0x85 && list[1] == 0xa0 && list[2] == 0x1680 && list[3] == 0x2028 && list[4]
        == 0x2029 && list[5] == 0x202f && list[6] == 0x205f && list[7] == 0x3000);
}

proof fn lemma_trim_start(space: Seq<char>, rest: Seq<char>)
    requires
        forall|i: int| 0 <= i < space.len() ==> is_whitespace(#[trigger] space[i]),
    ensures
        trim_start(space + rest) == trim_start(rest),
    decreases space.len(),
{
    if space.len() == 0 {
        assert(space + rest =~= rest);
    } else {
        assert((space + rest).drop_first() =~= space.drop_first() + rest);
        assert forall|i: int| 0 <= i < space.drop_first().len() implies is_whitespace(
            #[trigger] space.drop_first()[i],
        ) by {
            assert(is_whitespace(space[i + 1]));
        }
        lemma_trim_start(space.drop_first(), rest);
        assert(is_whitespace(space[0]));
    }
}

proof fn lemma_trim_end(rest: Seq<char>, space: Seq<char>)
    requires
        forall|i: int| 0 <= i < space.len() ==> is_whitespace(#[trigger] space[i]),
    ensures
        trim_end(rest + space) == trim_end(rest),
    decreases space.len(),
{
    if space.len() == 0 {
        assert(rest + space =~= rest);
    } else {
        assert((rest + space).drop_last() =~= rest + space.drop_last());
        assert(is_whitespace(space[space.len() - 1]));
        lemma_trim_end(rest, space.drop_last());
    }
}

/// A text between white space is what is left of it once it is trimmed.
pub proof fn law_trimming_leaves_the_text(before: Seq<char>, text: Seq<char>, after: Seq<char>)
    requires
        forall|i: int| 0 <= i < before.len() ==> is_whitespace(#[trigger] before[i]),
        forall|i: int| 0 <= i < after.len() ==> is_whitespace(#[trigger] after[i]),
        text.len() > 0 ==> !is_whitespace(text[0]) && !is_whitespace(text.last()),
    ensures
        trim(before + text + after) == text,
{
    assert(before + text + after =~= before + (text + after));
    lemma_trim_start(before, text + after);
    if text.len() > 0 {
        assert((text + after)[0] == text[0]);
        lemma_trim_end(text, after);
    } else {
        assert(text + after =~= after + text);
        lemma_trim_start(after, text);
        assert(trim_start(text) =~= text);
    }
}

/// The sixteen digits.
pub proof fn law_digits(d: int)
    requires
        0 <= d < 16,
    ensures
        digit(d) == "0123456789abcdef"@[d],
{
    reveal_strlit("0123456789abcdef");
}

/// Each place of a number in hexadecimal digits counts sixteen times the next.
pub proof fn law_hexadecimal_places(value: nat, d: nat, width: nat)
    requires
        d < 16,
    ensures
        hex(16 * value + d, width + 1) == hex(value, width).push(digit(d as int)),
        hex(value, 0).len() == 0,
{
    assert((16 * value + d) / 16 == value);
    assert((16 * value + d) % 16 == d);
}

/// Each place of a number in decimal digits counts ten times the next.
pub proof fn law_decimal_places(value: nat, d: nat)
    requires
        d < 10,
    ensures
        value > 0 ==> decimal(10 * value + d) == decimal(value).push(digit(d as int)),
        decimal(d) == seq![digit(d as int)],
{
    assert((10 * value + d) / 10 == value);
    assert((10 * value + d) % 10 == d);
}

/// Byte strings are ordered by the first byte in which they differ; a prefix comes first.
pub proof fn law_order_of_bytes(p: Seq<u8>, x: u8, y: u8, s: Seq<u8>, t: Seq<u8>)
    ensures
        bytes_le(p, p + s),
        s.len() > 0 ==> !bytes_le(p + s, p),
        bytes_le(p + seq![x] + s, p + seq![y] + t) <==> x < y || x == y && bytes_le(s, t),
    decreases p.len(),
{
    let a = p + seq![x] + s;
    let b = p + seq![y] + t;
    if p.len() == 0 {
        assert(p + s =~= s);
        assert(a.drop_first() =~= s);
        assert(b.drop_first() =~= t);
    } else {
        let q = p.drop_first();
        law_order_of_bytes(q, x, y, s, t);
        assert(a.drop_first() =~= q + seq![x] + s);
        assert(b.drop_first() =~= q + seq![y] + t);
        assert((p + s).drop_first() =~= q + s);
    }
}

/// Names are in order where each comes after all before it.
pub proof fn law_names_in_order(list: Seq<Seq<char>>, name: Seq<char>)
    ensures
        texts_ascend(Seq::empty()),
        texts_ascend(list.push(name)) <==> texts_ascend(list) && forall|i: int|
            0 <= i < list.len() ==> bytes_le(encode_utf8(#[trigger] list[i]), encode_utf8(name)),
{
    let all = list.push(name);
    if texts_ascend(all) {
        assert forall|i: int, j: int| 0 <= i < j < list.len() implies bytes_le(
            #[trigger] encode_utf8(list[i]),
            #[trigger] encode_utf8(list[j]),
        ) by {
            assert(all[i] == list[i] && all[j] == list[j]);
        }
        assert forall|i: int| 0 <= i < list.len() implies bytes_le(
            encode_utf8(#[trigger] list[i]),
            encode_utf8(name),
        ) by {
            assert(all[i] == list[i]);
            assert(all[list.len() as int] == name);
        }
    }
    if texts_ascend(list) && forall|i: int|
        0 <= i < list.len() ==> bytes_le(encode_utf8(#[trigger] list[i]), encode_utf8(name)) {
        assert forall|i: int, j: int| 0 <= i < j < all.len() implies bytes_le(
            #[trigger] encode_utf8(all[i]),
            #[trigger] encode_utf8(all[j]),
        ) by {
            assert(all[i] == list[i]);
            if j < list.len() {
                assert(all[j] == list[j]);
            }
        }
    }
}

} // verus!
