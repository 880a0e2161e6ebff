use abus::board::{Board, Claim, Entry, DEFAULT_LEASE_MS, ENV_BOARD};
use abus::keys::{order_keys, same_key, KeyOrder};
use abus::snapshot::{
    board_from_snapshot, entry_to_value, parse_snapshot, read_entry_value, snapshot,
    snapshot_entries,
};
use abus::sorted_map::SortedMap;

fn f(pairs: &[(&str, &str)]) -> Vec<(String, String)> {
    pairs.iter().map(|(k, v)| (k.to_string(), v.to_string())).collect()
}

#[test]
fn constants_are_as_documented() {
    assert_eq!(ENV_BOARD, "AMUX_BOARD");
    assert_eq!(DEFAULT_LEASE_MS, 300_000);
}

#[test]
fn keys_order_by_utf8_bytes() {
    assert_eq!(order_keys("a", "b"), KeyOrder::Less);
    assert_eq!(order_keys("b", "a"), KeyOrder::Greater);
    assert_eq!(order_keys("a", "a"), KeyOrder::Equal);
    assert_eq!(order_keys("", "a"), KeyOrder::Less);
    assert_eq!(order_keys("a", "ab"), KeyOrder::Less);
    assert_eq!(order_keys("B", "a"), KeyOrder::Less);
    assert_eq!(order_keys("z", "é"), KeyOrder::Less);
    assert_eq!(order_keys("é", "ê"), KeyOrder::Less);
    assert!(same_key("tâche", "tâche"));
    assert!(!same_key("tâche", "tache"));
}

#[test]
fn list_is_sorted_by_bytes_whatever_the_insertion_order() {
    let mut b = Board::new();
    for k in ["zeta", "alpha", "Beta", "alp", "é", "mid"] {
        b.set(k, &f(&[("s", "x")]), None, 1);
    }
    let keys: Vec<&str> = b.list().iter().map(|(k, _)| k.as_str()).collect();
    assert_eq!(keys, vec!["Beta", "alp", "alpha", "mid", "zeta", "é"]);
}

#[test]
fn fields_are_kept_in_key_order() {
    let mut b = Board::new();
    let e = b.set("t", &f(&[("z", "1"), ("a", "2"), ("m", "3")]), None, 1);
    assert_eq!(e.fields.len(), 3);
    let keys: Vec<&str> = e.fields.iter_pairs().iter().map(|(k, _)| k.as_str()).collect();
    assert_eq!(keys, vec!["a", "m", "z"]);
}

#[test]
fn a_later_update_of_a_field_wins_within_one_set() {
    let mut b = Board::new();
    let e = b.set("t", &f(&[("s", "one"), ("s", "two")]), None, 1);
    assert_eq!(e.fields.get("s").map(String::as_str), Some("two"));
    let e = b.set("t", &f(&[("s", "three"), ("s", "")]), None, 2);
    assert!(!e.fields.contains_key("s"));
    let e = b.set("t", &f(&[("s", ""), ("s", "back")]), None, 3);
    assert_eq!(e.fields.get("s").map(String::as_str), Some("back"));
}

#[test]
fn set_without_writer_clears_updated_by() {
    let mut b = Board::new();
    b.set("t", &f(&[("s", "x")]), Some("cto"), 1);
    let e = b.set("t", &f(&[]), None, 2);
    assert!(e.updated_by.is_none());
    assert_eq!(e.updated_ms, 2);
    assert_eq!(e.fields.get("s").map(String::as_str), Some("x"));
}

#[test]
fn read_after_write_gives_what_set_returned() {
    let mut b = Board::new();
    let e = b.set("k", &f(&[("a", "1")]), Some("w"), 9);
    let got = b.get("k").unwrap();
    assert_eq!(got, &e);
}

#[test]
fn claim_denied_until_exactly_the_lease_end() {
    let mut b = Board::new();
    b.claim("t", "scout", 1000, 100);
    assert!(matches!(b.claim("t", "maker", 5, 1099), Claim::Denied { .. }));
    assert!(matches!(b.claim("t", "maker", 5, 1100), Claim::Granted(_)));
}

#[test]
fn claim_keeps_fields_and_stamps_the_claimant() {
    let mut b = Board::new();
    b.set("t", &f(&[("status", "TODO")]), Some("lead"), 1);
    match b.claim("t", "scout", 10, 50) {
        Claim::Granted(e) => {
            assert_eq!(e.fields.get("status").map(String::as_str), Some("TODO"));
            assert_eq!(e.updated_by.as_deref(), Some("scout"));
            assert_eq!(e.updated_ms, 50);
            assert_eq!(e.lease_ms, 60);
        }
        other => panic!("claim should grant, got {other:?}"),
    }
}

#[test]
fn claim_of_a_missing_key_creates_the_entry() {
    let mut b = Board::new();
    assert!(b.get("new").is_none());
    assert!(matches!(b.claim("new", "scout", 10, 0), Claim::Granted(_)));
    let e = b.get("new").unwrap();
    assert_eq!(e.fields.len(), 0);
    assert_eq!(e.claimed_by.as_deref(), Some("scout"));
}

#[test]
fn pending_write_follows_what_would_be_persisted() {
    let mut b = Board::new();
    assert!(!b.take_pending_write());
    b.set("t", &f(&[("s", "x")]), None, 1);
    assert!(b.take_pending_write());
    assert!(!b.take_pending_write());
    b.claim("t", "scout", 100, 1);
    assert!(b.take_pending_write());
    // A denied claim writes nothing.
    b.claim("t", "maker", 100, 2);
    assert!(!b.take_pending_write());
    // Releasing or deleting an absent key writes nothing.
    assert!(!b.release("nope", 3));
    assert!(!b.del("nope"));
    assert!(!b.take_pending_write());
    assert!(b.release("t", 4));
    assert!(b.take_pending_write());
    assert!(b.del("t"));
    assert!(b.take_pending_write());
}

#[test]
fn release_twice_is_release_once() {
    let mut b = Board::new();
    b.claim("t", "scout", 100, 1);
    assert!(b.release("t", 2));
    assert!(b.release("t", 3));
    let e = b.get("t").unwrap();
    assert!(e.claimed_by.is_none());
    assert_eq!(e.lease_ms, 0);
    assert_eq!(e.updated_ms, 3);
    assert_eq!(e.updated_by.as_deref(), Some("scout"));
}

#[test]
fn entry_renders_with_every_member() {
    let mut b = Board::new();
    b.set("auth", &f(&[("status", "DONE")]), Some("cto"), 42);
    let v = entry_to_value(b.get("auth").unwrap());
    assert_eq!(v["by"].as_str(), Some("cto"));
    assert_eq!(v["ms"].as_u64(), Some(42));
    assert!(v["claimed_by"].is_null());
    assert!(v.has_key("claimed_by"));
    assert_eq!(v["lease_ms"].as_u64(), Some(0));
    assert_eq!(v["fields"]["status"].as_str(), Some("DONE"));
    assert_eq!(
        v.dump(),
        r#"{"by":"cto","ms":42,"claimed_by":null,"lease_ms":0,"fields":{"status":"DONE"}}"#
    );
}

#[test]
fn snapshot_text_is_the_compact_json_object() {
    let mut b = Board::new();
    b.set("b", &f(&[("y", "2"), ("x", "1")]), None, 7);
    b.claim("a", "scout", 10, 5);
    assert_eq!(
        snapshot(&b.list()),
        r#"{"a":{"by":"scout","ms":5,"claimed_by":"scout","lease_ms":15,"fields":{}},"b":{"by":null,"ms":7,"claimed_by":null,"lease_ms":0,"fields":{"x":"1","y":"2"}}}"#
    );
}

#[test]
fn snapshot_of_an_empty_board_is_an_empty_object() {
    let b = Board::new();
    assert_eq!(snapshot(&b.list()), "{}");
    assert_eq!(parse_snapshot("{}").unwrap().len(), 0);
}

#[test]
fn snapshot_that_is_not_an_object_is_refused() {
    assert!(parse_snapshot("").is_none());
    assert!(parse_snapshot("not json").is_none());
    assert!(parse_snapshot("[1,2]").is_none());
    assert!(parse_snapshot("\"text\"").is_none());
    assert!(board_from_snapshot("{corrupt").list().is_empty());
}

#[test]
fn mistyped_snapshot_members_read_as_defaults() {
    let text = r#"{"t":{"by":7,"ms":-5,"claimed_by":["x"],"lease_ms":1.5,"fields":{"a":"ok","n":3,"b":null}},"u":"scalar"}"#;
    let parsed = parse_snapshot(text).unwrap();
    let t = parsed.get("t").unwrap();
    assert!(t.updated_by.is_none());
    assert_eq!(t.updated_ms, 0);
    assert!(t.claimed_by.is_none());
    assert_eq!(t.lease_ms, 0);
    assert_eq!(t.fields.len(), 1);
    assert_eq!(t.fields.get("a").map(String::as_str), Some("ok"));
    let u = parsed.get("u").unwrap();
    assert!(u.updated_by.is_none());
    assert_eq!(u.fields.len(), 0);
}

#[test]
fn snapshot_with_a_repeated_key_keeps_the_last() {
    let text = r#"{"t":{"ms":1},"t":{"ms":2}}"#;
    let parsed = parse_snapshot(text).unwrap();
    assert_eq!(parsed.len(), 1);
    assert_eq!(parsed.get("t").unwrap().updated_ms, 2);
}

#[test]
fn snapshot_entries_reads_a_value_built_by_the_json_crate() {
    let mut entry = json::JsonValue::new_object();
    entry.insert("by", "cto").unwrap();
    entry.insert("ms", 9u64).unwrap();
    entry.insert("claimed_by", "scout").unwrap();
    entry.insert("lease_ms", 19u64).unwrap();
    let mut fields = json::JsonValue::new_object();
    fields.insert("status", "WIP").unwrap();
    entry.insert("fields", fields).unwrap();
    let e = read_entry_value(&entry);
    assert_eq!(e.updated_by.as_deref(), Some("cto"));
    assert_eq!(e.updated_ms, 9);
    assert_eq!(e.claimed_by.as_deref(), Some("scout"));
    assert_eq!(e.lease_ms, 19);
    assert_eq!(e.fields.get("status").map(String::as_str), Some("WIP"));
    let mut top = json::JsonValue::new_object();
    top.insert("job", entry).unwrap();
    let m = snapshot_entries(&top).unwrap();
    assert_eq!(m.len(), 1);
    assert_eq!(m.get("job").unwrap().lease_ms, 19);
    assert!(snapshot_entries(&json::JsonValue::from(3u64)).is_none());
}

#[test]
fn a_board_survives_its_snapshot() {
    let mut b = Board::new();
    b.set("auth", &f(&[("status", "DONE"), ("url", "http://x")]), Some("cto"), 42);
    b.claim("bill", "vic", 1000, 7);
    b.set("bill", &f(&[("note", "ünïcödé ✓")]), Some("vic"), 8);
    let restored = board_from_snapshot(&snapshot(&b.list()));
    assert!(!{
        let mut r = restored;
        let pending = r.take_pending_write();
        assert_eq!(r.list(), b.list());
        pending
    });
}

#[test]
fn sorted_map_inserts_replaces_and_removes() {
    let mut m: SortedMap<String> = SortedMap::new();
    assert_eq!(m.len(), 0);
    m.insert("b".to_string(), "2".to_string());
    m.insert("a".to_string(), "1".to_string());
    m.insert("b".to_string(), "3".to_string());
    assert_eq!(m.len(), 2);
    assert_eq!(m.get("b").map(String::as_str), Some("3"));
    assert!(m.contains_key("a"));
    assert_eq!(m.remove("a"), Some("1".to_string()));
    assert_eq!(m.remove("a"), None);
    assert_eq!(m.len(), 1);
    let copy = m.clone();
    assert_eq!(copy, m);
}

#[test]
fn entry_default_and_clone() {
    let e = Entry::default();
    assert_eq!(e.fields.len(), 0);
    assert!(e.updated_by.is_none() && e.claimed_by.is_none());
    assert_eq!((e.updated_ms, e.lease_ms), (0, 0));
    let mut b = Board::new();
    let e = b.set("t", &f(&[("k", "v")]), Some("me"), 3);
    assert_eq!(e.clone(), e);
}

#[test]
fn stamps_past_i64_max_are_written_signed_and_read_back_as_zero() {
    let mut b = Board::new();
    b.set("a", &f(&[]), None, u64::MAX);
    b.set("b", &f(&[]), None, 1u64 << 63);
    b.set("c", &f(&[]), None, i64::MAX as u64);
    let text = snapshot(&b.list());
    assert!(text.contains(r#""a":{"by":null,"ms":-1,"#));
    assert!(text.contains(r#""b":{"by":null,"ms":-9223372036854775808,"#));
    assert!(text.contains(r#""c":{"by":null,"ms":9223372036854775807,"#));
    let parsed = parse_snapshot(&text).unwrap();
    assert_eq!(parsed.get("a").unwrap().updated_ms, 0);
    assert_eq!(parsed.get("b").unwrap().updated_ms, 0);
    assert_eq!(parsed.get("c").unwrap().updated_ms, i64::MAX as u64);
}

#[test]
fn stamps_read_only_as_plain_non_negative_integers() {
    let text = r#"{"a":{"ms":1e2},"b":{"ms":9223372036854775808},"c":{"ms":-0},"d":{"ms":"5"},"e":{"ms":12}}"#;
    let parsed = parse_snapshot(text).unwrap();
    assert_eq!(parsed.get("a").unwrap().updated_ms, 0);
    assert_eq!(parsed.get("b").unwrap().updated_ms, 0);
    assert_eq!(parsed.get("c").unwrap().updated_ms, 0);
    assert_eq!(parsed.get("d").unwrap().updated_ms, 0);
    assert_eq!(parsed.get("e").unwrap().updated_ms, 12);
}

#[test]
fn repeating_a_set_changes_nothing_further() {
    let mut b = Board::new();
    b.claim("t", "scout", 100, 1);
    let upd = f(&[("s", "x"), ("gone", ""), ("s", "y")]);
    let first = b.set("t", &upd, Some("scout"), 5);
    let before: Vec<(String, Entry)> = b.list().into_iter().map(|(k, e)| (k.clone(), e.clone())).collect();
    let second = b.set("t", &upd, Some("scout"), 5);
    let after: Vec<(String, Entry)> = b.list().into_iter().map(|(k, e)| (k.clone(), e.clone())).collect();
    assert_eq!(first, second);
    assert_eq!(before, after);
}

#[test]
fn repeating_a_granted_claim_is_an_idempotent_renew() {
    let mut b = Board::new();
    let first = b.claim("t", "scout", 100, 1);
    let second = b.claim("t", "scout", 100, 1);
    assert_eq!(first, second);
    assert!(matches!(second.clone(), Claim::Granted(_)));
}

#[test]
fn boards_built_by_operations_hold_no_empty_value_nor_ownerless_lease() {
    let mut b = Board::new();
    b.set("t", &f(&[("a", "1"), ("b", ""), ("a", "")]), None, 1);
    b.claim("t", "scout", 100, 2);
    b.set("t", &f(&[("c", "3")]), Some("scout"), 3);
    b.release("t", 4);
    b.claim("u", "maker", 10, 5);
    b.del("u");
    for (_, e) in b.list() {
        assert!(e.fields.iter_pairs().iter().all(|(_, v)| !v.is_empty()));
        assert!(e.claimed_by.is_some() || e.lease_ms == 0);
    }
}

#[test]
fn roll_up_elements_hold_key_by_ms_and_fields() {
    let mut b = Board::new();
    b.claim("auth", "scout", 10, 5);
    b.set("auth", &f(&[("status", "DONE")]), Some("cto"), 7);
    let v = abus::board::entries_to_value(&b.list());
    assert_eq!(v.len(), 1);
    let names: Vec<&str> = v[0].entries().map(|(k, _)| k).collect();
    assert_eq!(names, vec!["key", "by", "ms", "fields"]);
    assert_eq!(
        v.dump(),
        r#"[{"key":"auth","by":"cto","ms":7,"fields":{"status":"DONE"}}]"#
    );
}

#[test]
fn an_overlong_fraction_is_refused_instead_of_parsed() {
    let ok = format!(r#"{{"t":{{"ms":0.{}}}}}"#, "0".repeat(32767));
    let parsed = parse_snapshot(&ok).unwrap();
    assert_eq!(parsed.get("t").unwrap().updated_ms, 0);
    let long = format!(r#"{{"t":{{"ms":0.{}}}}}"#, "0".repeat(32768));
    assert!(parse_snapshot(&long).is_none());
    assert!(board_from_snapshot(&long).list().is_empty());
}

#[test]
fn a_snapshot_text_reads_back_as_the_board() {
    let mut b = Board::new();
    b.set("q\"uote", &f(&[("ctl", "a\tb\u{1}c\\d"), ("uni", "ü ✓ \u{7f}")]), Some("w"), 1);
    b.claim("x", "scout", 5, 9);
    let text = snapshot(&b.list());
    let back = board_from_snapshot(&text);
    assert_eq!(back.list(), b.list());
}
