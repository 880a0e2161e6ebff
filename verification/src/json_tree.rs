//! JSON documents, through the `json` crate.
//!
//! A `json::JsonValue` is opaque to the verifier. What it holds is named by
//! [`json_tree`]: a [`JsonTree`] of plain values, with objects kept as their
//! members in iteration order. Every function below that touches a `JsonValue`
//! is a trusted wrapper around one call of the `json` crate; its contract says
//! what the crate's source shows of that call, over `json_tree`.

use vstd::prelude::*;
use vstd::utf8::encode_utf8;
use json::number::Number;
use json::JsonValue;

verus! {

#[verifier::external_type_specification]
#[verifier::external_body]
pub struct ExJsonValue(JsonValue);

/// What a JSON value holds. Strings (the crate's short and long forms alike)
/// are their characters; a number is the crate's `Number` by its parts:
/// category (`1` positive, `0` negative, anything else NaN), mantissa and
/// decimal exponent; an object is its members in iteration order.
pub enum JsonTree {
    Null,
    Bool(bool),
    Num(u8, u64, i16),
    Str(Seq<char>),
    Arr(Seq<JsonTree>),
    Obj(Seq<(Seq<char>, JsonTree)>),
}

/// What a `json::JsonValue` holds.
pub uninterp spec fn json_tree(v: JsonValue) -> JsonTree;

/// What `json::parse` makes of a text: `None` where it reports an error.
pub uninterp spec fn parsed_text(text: Seq<char>) -> Option<JsonTree>;

/// The compact text that `JsonValue::dump` writes for a value holding `t`.
pub uninterp spec fn dumped_text(t: JsonTree) -> Seq<char>;

/// The position of the first member named `k`, or `-1` where there is none.
pub open spec fn key_position(ms: Seq<(Seq<char>, JsonTree)>, k: Seq<char>) -> int
    decreases ms.len(),
{
    if ms.len() == 0 {
        -1
    } else if ms[0].0 == k {
        0
    } else {
        let p = key_position(ms.drop_first(), k);
        if p < 0 {
            -1
        } else {
            p + 1
        }
    }
}

/// An object's members after inserting `k: v`: a member named `k` has its
/// value replaced in place, otherwise the member is appended.
pub open spec fn object_insert(ms: Seq<(Seq<char>, JsonTree)>, k: Seq<char>, v: JsonTree) -> Seq<
    (Seq<char>, JsonTree),
> {
    let p = key_position(ms, k);
    if p < 0 {
        ms.push((k, v))
    } else {
        ms.update(p, (k, v))
    }
}

/// The members of an object built by inserting `ms` one after another.
pub open spec fn object_from(ms: Seq<(Seq<char>, JsonTree)>) -> Seq<(Seq<char>, JsonTree)>
    decreases ms.len(),
{
    if ms.len() == 0 {
        Seq::empty()
    } else {
        object_insert(object_from(ms.drop_last()), ms.last().0, ms.last().1)
    }
}

/// What indexing a value by `k` gives: the member named `k` of an object,
/// `Null` for a missing member or a value that is not an object.
pub open spec fn member_of(t: JsonTree, k: Seq<char>) -> JsonTree {
    match t {
        JsonTree::Obj(ms) => {
            let p = key_position(ms, k);
            if p < 0 {
                JsonTree::Null
            } else {
                ms[p].1
            }
        },
        _ => JsonTree::Null,
    }
}

/// No two members share a name.
pub open spec fn distinct_names(ms: Seq<(Seq<char>, JsonTree)>) -> bool {
    forall|i: int, j: int| 0 <= i < j < ms.len() ==> ms[i].0 != ms[j].0
}

/// `key_position` finds the first member with the name, if any.
pub proof fn lemma_key_position(ms: Seq<(Seq<char>, JsonTree)>, k: Seq<char>)
    ensures
        key_position(ms, k) < 0 <==> (forall|i: int| 0 <= i < ms.len() ==> ms[i].0 != k),
        key_position(ms, k) >= 0 ==> key_position(ms, k) < ms.len() && ms[key_position(
            ms,
            k,
        )].0 == k && (forall|i: int| 0 <= i < key_position(ms, k) ==> ms[i].0 != k),
    decreases ms.len(),
{
    if ms.len() > 0 {
        lemma_key_position(ms.drop_first(), k);
        if ms[0].0 != k {
            assert forall|i: int| 1 <= i < ms.len() implies ms[i].0 == ms.drop_first()[i - 1].0 by {}
        }
    }
}

/// Building an object from members with distinct names keeps them as they are.
pub proof fn lemma_object_from_distinct(ms: Seq<(Seq<char>, JsonTree)>)
    requires
        distinct_names(ms),
    ensures
        object_from(ms) == ms,
    decreases ms.len(),
{
    if ms.len() > 0 {
        let init = ms.drop_last();
        lemma_object_from_distinct(init);
        lemma_key_position(init, ms.last().0);
        assert(ms =~= init.push(ms.last()));
    }
}

/// The position of a member in an object whose names are distinct.
pub proof fn lemma_member_at(ms: Seq<(Seq<char>, JsonTree)>, i: int)
    requires
        distinct_names(ms),
        0 <= i < ms.len(),
    ensures
        member_of(JsonTree::Obj(ms), ms[i].0) == ms[i].1,
        key_position(ms, ms[i].0) == i,
{
    lemma_key_position(ms, ms[i].0);
}

/// Whether a byte is an ASCII digit.
pub open spec fn is_digit(b: u8) -> bool {
    0x30 <= b <= 0x39
}

/// The number of digits that end `s` and directly follow a `.`; `0` where `s`
/// does not end in such a run.
pub open spec fn fraction_run(s: Seq<u8>) -> int
    decreases s.len(),
{
    if s.len() == 0 || !is_digit(s.last()) {
        0
    } else {
        let p = s.drop_last();
        if p.len() > 0 && p.last() == 0x2e {
            1
        } else if fraction_run(p) > 0 {
            fraction_run(p) + 1
        } else {
            0
        }
    }
}

/// The longest run of digits directly after a `.` that the parser of the
/// `json` crate takes without overflowing the `i16` in which it counts
/// fraction digits.
pub const MAX_FRACTION_RUN: u64 = 32767;

/// No run of digits that directly follows a `.` in `bytes` is longer than
/// [`MAX_FRACTION_RUN`].
pub open spec fn fraction_runs_bounded(bytes: Seq<u8>) -> bool {
    forall|i: int| 0 <= i <= bytes.len() ==> #[trigger] fraction_run(bytes.take(i)) <= MAX_FRACTION_RUN
}

/// A value that the crate's dump writes and its parser reads back as it was:
/// `null`, a string, a whole number with exponent `0` (positive, or negative
/// and non-zero), or an object with distinct member names whose values are
/// such values, nested at most `depth` objects deep.
pub open spec fn plain_tree(t: JsonTree, depth: nat) -> bool
    decreases t, depth,
{
    match t {
        JsonTree::Null => true,
        JsonTree::Str(_) => true,
        JsonTree::Num(c, m, e) => e == 0 && (c == 1 || (c == 0 && m > 0)),
        JsonTree::Obj(ms) => depth > 0 && distinct_names(ms) && forall|i: int|
            0 <= i < ms.len() ==> plain_tree(#[trigger] ms[i].1, (depth - 1) as nat),
        _ => false,
    }
}

/// Trusted: `json::parse`, which gives a value for every text it accepts and an
/// error for any other. Which texts it accepts, and the value, are named by
/// `parsed_text`. The parser counts the digits of a fraction in an `i16` with
/// unchecked subtraction (`parser.rs`, `expect_fraction!`), one per digit read
/// directly after the `.`, so a longer run than [`MAX_FRACTION_RUN`] can
/// overflow it; such texts are left out.
#[verifier::external_body]
pub(crate) fn json_parse(text: &str) -> (r: Option<JsonValue>)
    requires
        fraction_runs_bounded(encode_utf8(text@)),
    ensures
        r is Some == parsed_text(text@) is Some,
        r matches Some(v) ==> parsed_text(text@) == Some(json_tree(v)),
{
    json::parse(text).ok()
}

/// Trusted: `JsonValue::dump`, the compact JSON text of a value, named by
/// `dumped_text`. For a plain value (see [`plain_tree`]) at most 512 objects
/// deep, `json::parse` reads the text back as the same value: the dump escapes
/// `"`, `\` and control characters and the parser undoes those escapes
/// (`codegen.rs` `write_string`, `parser.rs` `read_complex_string`); whole
/// numbers are written as their digits with a leading `-` when negative
/// (`print_dec::write`) and read back exactly (`expect_number!`,
/// `read_big_number`, `Neg`); object members are written and read back in
/// order, and the parser's nesting limit is 512 (`DEPTH_LIMIT`).
#[verifier::external_body]
pub(crate) fn json_dump(v: &JsonValue) -> (r: String)
    ensures
        r@ == dumped_text(json_tree(*v)),
        plain_tree(json_tree(*v), 512) ==> parsed_text(r@) == Some(json_tree(*v)),
{
    v.dump()
}

/// Trusted: the variant `JsonValue::Null`.
#[verifier::external_body]
pub(crate) fn json_null() -> (r: JsonValue)
    ensures
        json_tree(r) == JsonTree::Null,
{
    JsonValue::Null
}

/// Trusted: the variant `JsonValue::String`, holding the characters of `s`.
#[verifier::external_body]
pub(crate) fn json_string(s: String) -> (r: JsonValue)
    ensures
        json_tree(r) == JsonTree::Str(s@),
{
    JsonValue::String(s)
}

/// Trusted: a number built by `Number::from_parts` from a sign, a mantissa and
/// a decimal exponent. With an exponent of at least `0` it strips nothing: the
/// number has category `1` when positive and `0` otherwise, and the mantissa
/// and exponent given.
#[verifier::external_body]
pub(crate) fn json_number(positive: bool, mantissa: u64, exponent: i16) -> (r: JsonValue)
    requires
        exponent >= 0,
    ensures
        json_tree(r) == JsonTree::Num(if positive { 1 } else { 0 }, mantissa, exponent),
{
    JsonValue::Number(Number::from_parts(positive, mantissa, exponent))
}

/// Trusted: an object collected from `members` through `Object`'s
/// `FromIterator`, which inserts the members in order: a repeated name
/// replaces the earlier value in place.
#[verifier::external_body]
pub(crate) fn json_object(members: Vec<(String, JsonValue)>) -> (r: JsonValue)
    ensures
        json_tree(r) == JsonTree::Obj(
            object_from(members@.map_values(|m: (String, JsonValue)| (m.0@, json_tree(m.1)))),
        ),
{
    JsonValue::Object(members.into_iter().collect())
}

/// Trusted: the variant `JsonValue::Array`, holding `items` in order.
#[verifier::external_body]
pub(crate) fn json_array(items: Vec<JsonValue>) -> (r: JsonValue)
    ensures
        json_tree(r) == JsonTree::Arr(items@.map_values(|v: JsonValue| json_tree(v))),
{
    JsonValue::Array(items)
}

/// Trusted: the members of an object in iteration order (`Object::iter`, each
/// name and value copied out), or `None` for a value that is not an object.
#[verifier::external_body]
pub(crate) fn json_members(v: &JsonValue) -> (r: Option<Vec<(String, JsonValue)>>)
    ensures
        match json_tree(*v) {
            JsonTree::Obj(ms) => r matches Some(got) && got@.map_values(
                |m: (String, JsonValue)| (m.0@, json_tree(m.1)),
            ) == ms,
            _ => r is None,
        },
{
    match v {
        JsonValue::Object(o) => Some(o.iter().map(|(k, x)| (k.to_string(), x.clone())).collect()),
        _ => None,
    }
}

/// Trusted: indexing a value by a member name (`Index<&str>`), which gives
/// `Null` for a missing member or a value that is not an object.
#[verifier::external_body]
pub(crate) fn json_member<'a>(v: &'a JsonValue, key: &str) -> (r: &'a JsonValue)
    ensures
        json_tree(*r) == member_of(json_tree(*v), key@),
{
    &v[key]
}

/// Trusted: `JsonValue::as_str`, the characters of a string value.
#[verifier::external_body]
pub(crate) fn json_as_str(v: &JsonValue) -> (r: Option<String>)
    ensures
        match json_tree(*v) {
            JsonTree::Str(s) => r matches Some(got) && got@ == s,
            _ => r is None,
        },
{
    v.as_str().map(str::to_string)
}

/// Trusted: the parts of a number (`Number::as_parts`): whether its category
/// is `1`, its mantissa and its exponent; `None` for a value that is not a
/// number.
#[verifier::external_body]
pub(crate) fn json_number_parts(v: &JsonValue) -> (r: Option<(bool, u64, i16)>)
    ensures
        r == match json_tree(*v) {
            JsonTree::Num(c, m, e) => Some((c == 1, m, e)),
            _ => None,
        },
{
    match v {
        JsonValue::Number(n) => Some(n.as_parts()),
        _ => None,
    }
}

} // verus!
