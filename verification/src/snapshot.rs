//! The board as JSON: the values that render entries, and the snapshot text
//! that mirrors a board across a restart, `{key: {by, ms, claimed_by,
//! lease_ms, fields}}`.
//!
//! What the `json` crate computes (the text of a value, the value of a text)
//! stands behind the trusted items of [`crate::json_tree`]; how entries become
//! JSON values and JSON values become entries is verified here.

use vstd::prelude::*;
use json::JsonValue;
use crate::board::{opt_text, Board, Entry, EntryView};
use crate::json_tree::{
    distinct_names, dumped_text, json_array, json_as_str, json_dump, json_member,
    json_members, json_null, json_number, json_number_parts, json_object, json_parse, json_string, json_tree,
    fraction_run, fraction_runs_bounded, lemma_object_from_distinct, member_of, object_from,
    parsed_text, plain_tree, JsonTree, MAX_FRACTION_RUN,
};
use vstd::utf8::encode_utf8;
use crate::sorted_map::{
    ascending, lemma_ascending_distinct, lemma_listing_exists, listing, map_of, SortedMap,
};

verus! {

/// An optional text as JSON: a string, or `null`.
pub open spec fn text_tree(o: Option<Seq<char>>) -> JsonTree {
    match o {
        Some(s) => JsonTree::Str(s),
        None => JsonTree::Null,
    }
}

/// A time stamp as JSON: the whole number that it is as a signed 64-bit
/// integer (`x as i64`), so that a stamp past `i64::MAX` is written negative.
pub open spec fn stamp_tree(x: u64) -> JsonTree {
    if x <= i64::MAX {
        JsonTree::Num(1, x, 0)
    } else {
        JsonTree::Num(0, (0x1_0000_0000_0000_0000 - x) as u64, 0)
    }
}

/// Field pairs as object members with string values.
pub open spec fn field_members(ps: Seq<(Seq<char>, Seq<char>)>) -> Seq<(Seq<char>, JsonTree)> {
    ps.map_values(|p: (Seq<char>, Seq<char>)| (p.0, JsonTree::Str(p.1)))
}

/// An entry's fields as a JSON object, in ascending field order.
pub open spec fn fields_tree(fs: Map<Seq<char>, Seq<char>>) -> JsonTree {
    JsonTree::Obj(field_members(listing(fs)))
}

/// The members that render an entry, in this order:
/// `by`, `ms`, `claimed_by`, `lease_ms`, `fields` (in ascending field order).
pub open spec fn entry_members(e: EntryView) -> Seq<(Seq<char>, JsonTree)> {
    seq![
        ("by"@, text_tree(e.updated_by)),
        ("ms"@, stamp_tree(e.updated_ms)),
        ("claimed_by"@, text_tree(e.claimed_by)),
        ("lease_ms"@, stamp_tree(e.lease_ms)),
        ("fields"@, fields_tree(e.fields)),
    ]
}

/// An entry as a JSON object.
pub open spec fn entry_tree(e: EntryView) -> JsonTree {
    JsonTree::Obj(entry_members(e))
}

/// The members of a keyed entry in a roll-up, in this order:
/// `key`, `by`, `ms`, `fields`.
pub open spec fn rollup_members(k: Seq<char>, e: EntryView) -> Seq<(Seq<char>, JsonTree)> {
    seq![
        ("key"@, JsonTree::Str(k)),
        ("by"@, text_tree(e.updated_by)),
        ("ms"@, stamp_tree(e.updated_ms)),
        ("fields"@, fields_tree(e.fields)),
    ]
}

/// A keyed entry in a roll-up, as a JSON object.
pub open spec fn keyed_entry_tree(k: Seq<char>, e: EntryView) -> JsonTree {
    JsonTree::Obj(rollup_members(k, e))
}

/// `(key, entry)` pairs by their views.
pub open spec fn keyed_views(es: Seq<(&String, &Entry)>) -> Seq<(Seq<char>, EntryView)> {
    es.map_values(|p: (&String, &Entry)| (p.0@, p.1@))
}

/// A roll-up of keyed entries as a JSON array.
pub open spec fn entries_tree(es: Seq<(Seq<char>, EntryView)>) -> JsonTree {
    JsonTree::Arr(es.map_values(|p: (Seq<char>, EntryView)| keyed_entry_tree(p.0, p.1)))
}

/// The snapshot object of keyed entries: one member per key, its entry as
/// value (a repeated key keeps its first place and its last entry).
pub open spec fn snapshot_tree(es: Seq<(Seq<char>, EntryView)>) -> JsonTree {
    JsonTree::Obj(object_from(es.map_values(|p: (Seq<char>, EntryView)| (p.0, entry_tree(p.1)))))
}

/// The text of a string value.
pub open spec fn as_text(t: JsonTree) -> Option<Seq<char>> {
    match t {
        JsonTree::Str(s) => Some(s),
        _ => None,
    }
}

/// The time stamp held by a whole number from `0` to `i64::MAX` written
/// without fraction or exponent; `0` for anything else (a negative or larger
/// number, a fraction or exponent form, or a value that is not a number).
pub open spec fn as_count(t: JsonTree) -> u64 {
    match t {
        JsonTree::Num(c, m, e) => if c == 1 && e == 0 && m <= i64::MAX {
            m
        } else {
            0
        },
        _ => 0,
    }
}

/// The fields read from an object's members, in order: members with string
/// values are kept (a later one for a name wins), others skipped.
pub open spec fn read_fields(ms: Seq<(Seq<char>, JsonTree)>) -> Map<Seq<char>, Seq<char>>
    decreases ms.len(),
{
    if ms.len() == 0 {
        Map::empty()
    } else {
        let m = read_fields(ms.drop_last());
        match ms.last().1 {
            JsonTree::Str(s) => m.insert(ms.last().0, s),
            _ => m,
        }
    }
}

/// The entry read from a snapshot value. A missing or mistyped `by` or
/// `claimed_by` reads as absent, a missing or mistyped `ms` or `lease_ms` as
/// `0`, and a missing or mistyped `fields` as no fields.
pub open spec fn read_entry(t: JsonTree) -> EntryView {
    EntryView {
        fields: match member_of(t, "fields"@) {
            JsonTree::Obj(ms) => read_fields(ms),
            _ => Map::empty(),
        },
        updated_by: as_text(member_of(t, "by"@)),
        updated_ms: as_count(member_of(t, "ms"@)),
        claimed_by: as_text(member_of(t, "claimed_by"@)),
        lease_ms: as_count(member_of(t, "lease_ms"@)),
    }
}

/// The entries read from a snapshot object's members, in order (a later one
/// for a key wins).
pub open spec fn read_entries(ms: Seq<(Seq<char>, JsonTree)>) -> Map<Seq<char>, EntryView>
    decreases ms.len(),
{
    if ms.len() == 0 {
        Map::empty()
    } else {
        read_entries(ms.drop_last()).insert(ms.last().0, read_entry(ms.last().1))
    }
}

/// Fields read from members are finitely many.
pub proof fn lemma_read_fields_finite(ms: Seq<(Seq<char>, JsonTree)>)
    ensures
        read_fields(ms).dom().finite(),
    decreases ms.len(),
{
    if ms.len() > 0 {
        lemma_read_fields_finite(ms.drop_last());
    }
}

/// Every entry read from a snapshot has finitely many fields.
pub proof fn lemma_read_entries_finite(ms: Seq<(Seq<char>, JsonTree)>)
    ensures
        forall|k: Seq<char>| #[trigger]
            read_entries(ms).contains_key(k) ==> read_entries(ms)[k].fields.dom().finite(),
    decreases ms.len(),
{
    if ms.len() > 0 {
        lemma_read_entries_finite(ms.drop_last());
        match member_of(ms.last().1, "fields"@) {
            JsonTree::Obj(fs) => lemma_read_fields_finite(fs),
            _ => {},
        }
    }
}

/// What a snapshot text holds: the entries of the JSON object it parses to,
/// or `None` when it does not parse to an object, or when it holds a run of
/// fraction digits too long for the `json` crate's parser (see
/// [`MAX_FRACTION_RUN`]), which no snapshot that this crate writes holds.
pub open spec fn snapshot_of_text(text: Seq<char>) -> Option<Map<Seq<char>, EntryView>> {
    if !fraction_runs_bounded(encode_utf8(text)) {
        None
    } else {
        match parsed_text(text) {
            Some(JsonTree::Obj(ms)) => Some(read_entries(ms)),
            _ => None,
        }
    }
}

/// The member names of an entry are distinct.
pub proof fn lemma_entry_member_names(e: EntryView)
    ensures
        distinct_names(entry_members(e)),
        entry_members(e)[0].0 == "by"@,
        entry_members(e)[1].0 == "ms"@,
        entry_members(e)[2].0 == "claimed_by"@,
        entry_members(e)[3].0 == "lease_ms"@,
        entry_members(e)[4].0 == "fields"@,
{
    reveal_strlit("by");
    reveal_strlit("ms");
    reveal_strlit("claimed_by");
    reveal_strlit("lease_ms");
    reveal_strlit("fields");
    assert("by"@.len() == 2 && "ms"@.len() == 2);
    assert("claimed_by"@.len() == 10 && "lease_ms"@.len() == 8 && "fields"@.len() == 6);
    assert("by"@[0] != "ms"@[0]);
    let ms = entry_members(e);
    assert forall|i: int, j: int| 0 <= i < j < ms.len() implies ms[i].0 != ms[j].0 by {
        assert(ms.len() == 5);
    }
}

/// The member names of a keyed entry in a roll-up are distinct.
pub proof fn lemma_rollup_names(k: Seq<char>, e: EntryView)
    ensures
        distinct_names(rollup_members(k, e)),
{
    reveal_strlit("key");
    reveal_strlit("by");
    reveal_strlit("ms");
    reveal_strlit("fields");
    assert("key"@.len() == 3 && "by"@.len() == 2 && "ms"@.len() == 2 && "fields"@.len() == 6);
    assert("by"@[0] != "ms"@[0]);
    let ms = rollup_members(k, e);
    assert forall|i: int, j: int| 0 <= i < j < ms.len() implies ms[i].0 != ms[j].0 by {
        assert(ms.len() == 4);
    }
}

/// The string value of an optional text, or `null`.
fn text_value(o: &Option<String>) -> (r: JsonValue)
    ensures
        json_tree(r) == text_tree(opt_text(*o)),
{
    match o {
        Some(s) => json_string(s.clone()),
        None => json_null(),
    }
}

/// A time stamp as a JSON number (see [`stamp_tree`]).
fn stamp_value(x: u64) -> (r: JsonValue)
    ensures
        json_tree(r) == stamp_tree(x),
{
    if x <= 0x7fff_ffff_ffff_ffff {
        json_number(true, x, 0)
    } else {
        json_number(false, u64::MAX - x + 1, 0)
    }
}

/// The time stamp that a snapshot value holds (see [`as_count`]).
fn stamp_of(v: &JsonValue) -> (r: u64)
    ensures
        r == as_count(json_tree(*v)),
{
    match json_number_parts(v) {
        Some((positive, mantissa, exponent)) => {
            if positive && exponent == 0 && mantissa <= 0x7fff_ffff_ffff_ffff {
                mantissa
            } else {
                0
            }
        },
        None => 0,
    }
}

/// An entry's fields as a JSON object (see [`fields_tree`]).
fn fields_value(e: &Entry) -> (r: JsonValue)
    ensures
        json_tree(r) == fields_tree(e@.fields),
        e@.fields.dom().finite(),
{
    let pairs = e.fields.iter_pairs();
    let ghost fl = listing(e.fields@);
    let mut fms: Vec<(String, JsonValue)> = Vec::new();
    let mut i: usize = 0;
    while i < pairs.len()
        invariant
            i <= pairs@.len(),
            pairs@.map_values(|p: (&String, &String)| (p.0@, p.1@)) == fl,
            fms@.len() == i,
            fms@.map_values(|m: (String, JsonValue)| (m.0@, json_tree(m.1))) =~= field_members(
                fl.take(i as int),
            ),
        decreases pairs@.len() - i,
    {
        let (k, v) = pairs[i];
        let ghost before = fms@;
        let jv = json_string(v.clone());
        fms.push((k.clone(), jv));
        proof {
            assert(fl[i as int] == (k@, v@));
            assert(fl.take(i + 1) =~= fl.take(i as int).push(fl[i as int]));
            assert(fms@ =~= before.push(fms@[i as int]));
            assert(fms@.map_values(|m: (String, JsonValue)| (m.0@, json_tree(m.1))) =~= before.map_values(
                |m: (String, JsonValue)| (m.0@, json_tree(m.1)),
            ).push((k@, JsonTree::Str(v@))));
        }
        i = i + 1;
    }
    proof {
        assert(fl.take(i as int) =~= fl);
        let fm = field_members(fl);
        assert(ascending(fl));
        lemma_ascending_distinct(fl);
        assert(distinct_names(fm)) by {
            assert forall|a: int, b: int| 0 <= a < b < fm.len() implies fm[a].0 != fm[b].0 by {
                assert(fl[a].0 != fl[b].0);
            }
        }
        lemma_object_from_distinct(fm);
    }
    json_object(fms)
}

/// The members of an entry's JSON object, as values.
fn entry_member_values(e: &Entry) -> (r: Vec<(String, JsonValue)>)
    ensures
        r@.map_values(|m: (String, JsonValue)| (m.0@, json_tree(m.1))) == entry_members(e@),
        e@.fields.dom().finite(),
{
    let fields = fields_value(e);
    let mut r: Vec<(String, JsonValue)> = Vec::new();
    r.push(("by".to_owned(), text_value(&e.updated_by)));
    r.push(("ms".to_owned(), stamp_value(e.updated_ms)));
    r.push(("claimed_by".to_owned(), text_value(&e.claimed_by)));
    r.push(("lease_ms".to_owned(), stamp_value(e.lease_ms)));
    r.push(("fields".to_owned(), fields));
    proof {
        assert(r@.map_values(|m: (String, JsonValue)| (m.0@, json_tree(m.1))) =~= entry_members(
            e@,
        ));
    }
    r
}

/// Render an entry as a JSON object:
/// `{"by":…, "ms":…, "claimed_by":…|null, "lease_ms":…, "fields":{…}}`, with
/// the time stamps as signed 64-bit whole numbers and the fields in key order.
pub fn entry_to_value(e: &Entry) -> (r: JsonValue)
    ensures
        json_tree(r) == entry_tree(e@),
        e@.fields.dom().finite(),
{
    let ms = entry_member_values(e);
    proof {
        lemma_entry_member_names(e@);
        lemma_object_from_distinct(entry_members(e@));
    }
    json_object(ms)
}

/// Render a `(key, entry)` roll-up as a JSON array of
/// `{"key":…, "by":…, "ms":…, "fields":{…}}` objects.
pub fn entries_to_value(entries: &[(&String, &Entry)]) -> (r: JsonValue)
    ensures
        json_tree(r) == entries_tree(keyed_views(entries@)),
{
    let ghost es = keyed_views(entries@);
    let mut items: Vec<JsonValue> = Vec::new();
    let mut i: usize = 0;
    while i < entries.len()
        invariant
            i <= entries@.len(),
            es == keyed_views(entries@),
            items@.len() == i,
            items@.map_values(|v: JsonValue| json_tree(v)) =~= es.take(i as int).map_values(
                |p: (Seq<char>, EntryView)| keyed_entry_tree(p.0, p.1),
            ),
        decreases entries@.len() - i,
    {
        let (k, e) = entries[i];
        let mut members: Vec<(String, JsonValue)> = Vec::new();
        members.push(("key".to_owned(), json_string(k.clone())));
        members.push(("by".to_owned(), text_value(&e.updated_by)));
        members.push(("ms".to_owned(), stamp_value(e.updated_ms)));
        members.push(("fields".to_owned(), fields_value(e)));
        proof {
            let ms = members@.map_values(|m: (String, JsonValue)| (m.0@, json_tree(m.1)));
            assert(ms =~= rollup_members(k@, e@));
            lemma_rollup_names(k@, e@);
            lemma_object_from_distinct(ms);
            assert(es[i as int] == (k@, e@));
            assert(es.take(i + 1) =~= es.take(i as int).push(es[i as int]));
        }
        let ghost before = items@;
        let obj = json_object(members);
        items.push(obj);
        proof {
            assert(items@ =~= before.push(obj));
            assert(items@.map_values(|v: JsonValue| json_tree(v)) =~= before.map_values(
                |v: JsonValue| json_tree(v),
            ).push(json_tree(obj)));
        }
        i = i + 1;
    }
    proof {
        assert(es.take(i as int) =~= es);
    }
    json_array(items)
}

/// The snapshot text of keyed entries: the compact JSON text of
/// `{key: entry, …}`. For entries in ascending key order (as
/// [`Board::list`] gives them) whose time stamps are at most `i64::MAX`, the
/// text reads back as those entries, unless one of their texts holds a run of
/// fraction-like digits too long to parse (see [`snapshot_of_text`]).
pub fn snapshot(entries: &[(&String, &Entry)]) -> (r: String)
    ensures
        r@ == dumped_text(snapshot_tree(keyed_views(entries@))),
        ascending(keyed_views(entries@)) && (forall|i: int|
            0 <= i < entries@.len() ==> (#[trigger] entries@[i]).1@.updated_ms <= i64::MAX
                && entries@[i].1@.lease_ms <= i64::MAX) && fraction_runs_bounded(encode_utf8(r@))
            ==> snapshot_of_text(r@) == Some(map_of(keyed_views(entries@))),
{
    let ghost es = keyed_views(entries@);
    let mut members: Vec<(String, JsonValue)> = Vec::new();
    let mut i: usize = 0;
    while i < entries.len()
        invariant
            i <= entries@.len(),
            es == keyed_views(entries@),
            members@.len() == i,
            members@.map_values(|m: (String, JsonValue)| (m.0@, json_tree(m.1))) =~= es.take(
                i as int,
            ).map_values(|p: (Seq<char>, EntryView)| (p.0, entry_tree(p.1))),
            forall|j: int| 0 <= j < i ==> (#[trigger] es[j]).1.fields.dom().finite(),
        decreases entries@.len() - i,
    {
        let (k, e) = entries[i];
        let ghost before = members@;
        let ev = entry_to_value(e);
        members.push((k.clone(), ev));
        proof {
            assert(members@ =~= before.push(members@[i as int]));
            assert(members@.map_values(|m: (String, JsonValue)| (m.0@, json_tree(m.1))) =~= before.map_values(
                |m: (String, JsonValue)| (m.0@, json_tree(m.1)),
            ).push((k@, entry_tree(e@))));
            assert(es[i as int] == (k@, e@));
            assert(es.take(i + 1) =~= es.take(i as int).push(es[i as int]));
        }
        i = i + 1;
    }
    proof {
        assert(es.take(i as int) =~= es);
    }
    let obj = json_object(members);
    let r = json_dump(&obj);
    proof {
        let ms = es.map_values(|p: (Seq<char>, EntryView)| (p.0, entry_tree(p.1)));
        if ascending(es) {
            lemma_ascending_distinct(es);
            assert(distinct_names(ms)) by {
                assert forall|a: int, b: int| 0 <= a < b < ms.len() implies ms[a].0 != ms[b].0 by {
                    assert(es[a].0 != es[b].0);
                }
            }
            lemma_object_from_distinct(ms);
            assert forall|j: int| 0 <= j < ms.len() implies plain_tree(#[trigger] ms[j].1, 511) by {
                lemma_entry_plain(es[j].1, 511);
            }
            assert(plain_tree(JsonTree::Obj(ms), 512));
            if forall|j: int|
                0 <= j < entries@.len() ==> (#[trigger] entries@[j]).1@.updated_ms <= i64::MAX
                    && entries@[j].1@.lease_ms <= i64::MAX {
                assert forall|j: int| 0 <= j < es.len() implies (#[trigger] es[j]).1.fields.dom().finite()
                    && es[j].1.updated_ms <= i64::MAX && es[j].1.lease_ms <= i64::MAX by {
                    assert(es[j].1 == entries@[j].1@);
                }
                crate::laws::lemma_read_entries(es);
            }
        }
    }
    r
}

/// A time stamp's number is plain.
proof fn lemma_stamp_plain(x: u64, d: nat)
    ensures
        plain_tree(stamp_tree(x), d),
{
}

/// An entry's fields object is plain.
proof fn lemma_fields_plain(fs: Map<Seq<char>, Seq<char>>, d: nat)
    requires
        fs.dom().finite(),
        d >= 1,
    ensures
        plain_tree(fields_tree(fs), d),
{
    lemma_listing_exists(fs);
    let l = listing(fs);
    let fm = field_members(l);
    lemma_ascending_distinct(l);
    assert(distinct_names(fm)) by {
        assert forall|a: int, b: int| 0 <= a < b < fm.len() implies fm[a].0 != fm[b].0 by {
            assert(l[a].0 != l[b].0);
        }
    }
    assert forall|i: int| 0 <= i < fm.len() implies plain_tree(#[trigger] fm[i].1, (d - 1) as nat) by {
        assert(fm[i].1 == JsonTree::Str(l[i].1));
    }
}

/// An entry's object is plain.
proof fn lemma_entry_plain(e: EntryView, d: nat)
    requires
        e.fields.dom().finite(),
        d >= 2,
    ensures
        plain_tree(entry_tree(e), d),
{
    lemma_entry_member_names(e);
    lemma_fields_plain(e.fields, (d - 1) as nat);
    lemma_stamp_plain(e.updated_ms, (d - 1) as nat);
    lemma_stamp_plain(e.lease_ms, (d - 1) as nat);
    let ms = entry_members(e);
    assert forall|i: int| 0 <= i < ms.len() implies plain_tree(#[trigger] ms[i].1, (d - 1) as nat) by {
        assert(ms.len() == 5);
    }
}

/// The fields read from the members of a `fields` object.
fn read_field_values(fs: &Vec<(String, JsonValue)>) -> (r: SortedMap<String>)
    ensures
        r@ == read_fields(fs@.map_values(|m: (String, JsonValue)| (m.0@, json_tree(m.1)))),
{
    let ghost ms = fs@.map_values(|m: (String, JsonValue)| (m.0@, json_tree(m.1)));
    let mut r: SortedMap<String> = SortedMap::new();
    let mut i: usize = 0;
    while i < fs.len()
        invariant
            i <= fs@.len(),
            ms == fs@.map_values(|m: (String, JsonValue)| (m.0@, json_tree(m.1))),
            r@ == read_fields(ms.take(i as int)),
        decreases fs@.len() - i,
    {
        let member = &fs[i];
        proof {
            assert(ms.take(i + 1).drop_last() =~= ms.take(i as int));
            assert(ms.take(i + 1).last() == ms[i as int]);
        }
        match json_as_str(&member.1) {
            Some(s) => {
                r.insert(member.0.clone(), s);
            },
            None => {},
        }
        i = i + 1;
    }
    proof {
        assert(ms.take(i as int) =~= ms);
    }
    r
}

/// The entry that a snapshot value describes.
pub fn read_entry_value(v: &JsonValue) -> (r: Entry)
    ensures
        r@ == read_entry(json_tree(*v)),
{
    let updated_by = json_as_str(json_member(v, "by"));
    let updated_ms = stamp_of(json_member(v, "ms"));
    let claimed_by = json_as_str(json_member(v, "claimed_by"));
    let lease_ms = stamp_of(json_member(v, "lease_ms"));
    let fields = match json_members(json_member(v, "fields")) {
        Some(fs) => read_field_values(&fs),
        None => SortedMap::new(),
    };
    Entry { fields, updated_by, updated_ms, claimed_by, lease_ms }
}

/// The entries of a snapshot value: `None` unless it is an object.
pub fn snapshot_entries(v: &JsonValue) -> (r: Option<SortedMap<Entry>>)
    ensures
        match json_tree(*v) {
            JsonTree::Obj(ms) => r matches Some(m) && m@ == read_entries(ms),
            _ => r is None,
        },
{
    match json_members(v) {
        None => None,
        Some(members) => {
            let ghost ms = members@.map_values(|m: (String, JsonValue)| (m.0@, json_tree(m.1)));
            let mut out: SortedMap<Entry> = SortedMap::new();
            let mut i: usize = 0;
            while i < members.len()
                invariant
                    i <= members@.len(),
                    ms == members@.map_values(|m: (String, JsonValue)| (m.0@, json_tree(m.1))),
                    out@ == read_entries(ms.take(i as int)),
                decreases members@.len() - i,
            {
                let member = &members[i];
                proof {
                    assert(ms.take(i + 1).drop_last() =~= ms.take(i as int));
                    assert(ms.take(i + 1).last() == ms[i as int]);
                }
                out.insert(member.0.clone(), read_entry_value(&member.1));
                i = i + 1;
            }
            proof {
                assert(ms.take(i as int) =~= ms);
            }
            Some(out)
        },
    }
}

/// Whether no run of digits directly after a `.` in `text` is longer than
/// [`MAX_FRACTION_RUN`].
pub fn fraction_runs_ok(text: &str) -> (r: bool)
    ensures
        r == fraction_runs_bounded(encode_utf8(text@)),
{
    let bytes = text.as_bytes();
    let ghost bs = bytes@;
    let mut run: u64 = 0;
    let mut i: usize = 0;
    proof {
        assert(bs.take(0) =~= Seq::<u8>::empty());
    }
    while i < bytes.len()
        invariant
            bs == bytes@,
            bs == encode_utf8(text@),
            i <= bs.len(),
            run == fraction_run(bs.take(i as int)),
            forall|k: int| 0 <= k <= i ==> #[trigger] fraction_run(bs.take(k)) <= MAX_FRACTION_RUN,
        decreases bs.len() - i,
    {
        let b = bytes[i];
        proof {
            assert(bs.take(i + 1).drop_last() =~= bs.take(i as int));
            assert(bs.take(i + 1).last() == b);
            if i > 0 {
                assert(bs.take(i as int).last() == bs[i - 1]);
            }
        }
        if 0x30 <= b && b <= 0x39 {
            if i > 0 && bytes[i - 1] == 0x2e {
                run = 1;
            } else if run > 0 {
                run = run + 1;
            }
        } else {
            run = 0;
        }
        i = i + 1;
        if run > MAX_FRACTION_RUN {
            proof {
                assert(fraction_run(bs.take(i as int)) > MAX_FRACTION_RUN);
            }
            return false;
        }
    }
    proof {
        assert(bs.take(i as int) =~= bs);
        assert forall|k: int| 0 <= k <= bs.len() implies #[trigger] fraction_run(bs.take(k))
            <= MAX_FRACTION_RUN by {}
    }
    true
}

/// Parse a snapshot text into entries: `None` unless it is a JSON object.
pub fn parse_snapshot(text: &str) -> (r: Option<SortedMap<Entry>>)
    ensures
        match snapshot_of_text(text@) {
            Some(m) => r matches Some(got) && got@ == m,
            None => r is None,
        },
{
    if !fraction_runs_ok(text) {
        return None;
    }
    match json_parse(text) {
        Some(v) => snapshot_entries(&v),
        None => None,
    }
}

/// The board that a snapshot text describes; a text that is not a snapshot
/// object gives an empty board.
pub fn board_from_snapshot(text: &str) -> (r: Board)
    ensures
        r@ == match snapshot_of_text(text@) {
            Some(m) => m,
            None => Map::empty(),
        },
        !r.has_pending_write(),
{
    match parse_snapshot(text) {
        Some(entries) => {
            proof {
                let ms = parsed_text(text@)->0->Obj_0;
                lemma_read_entries_finite(ms);
            }
            Board::from_entries(entries)
        },
        None => Board::new(),
    }
}

} // verus!
