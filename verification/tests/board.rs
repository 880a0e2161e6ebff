use abus::board::{entries_to_value, Board, Claim, DEFAULT_LEASE_MS};
use abus::snapshot::{parse_snapshot, snapshot};

fn f(pairs: &[(&str, &str)]) -> Vec<(String, String)> {
    pairs.iter().map(|(k, v)| (k.to_string(), v.to_string())).collect()
}

#[test]
fn set_creates_then_merges_fields() {
    let mut b = Board::new();
    b.set("auth", &f(&[("status", "WIP"), ("owner", "Max")]), Some("cto"), 100);
    // A second set merges: status updated, owner kept, url added.
    let e = b.set("auth", &f(&[("status", "DONE"), ("url", "http://x")]), Some("Max"), 200);
    assert_eq!(e.fields.get("status").map(String::as_str), Some("DONE"));
    assert_eq!(e.fields.get("owner").map(String::as_str), Some("Max"));
    assert_eq!(e.fields.get("url").map(String::as_str), Some("http://x"));
    assert_eq!(e.updated_by.as_deref(), Some("Max"));
    assert_eq!(e.updated_ms, 200);
}

#[test]
fn empty_value_clears_a_field() {
    let mut b = Board::new();
    b.set("t", &f(&[("blocker", "waiting on api")]), None, 1);
    let e = b.set("t", &f(&[("blocker", "")]), None, 2);
    assert!(!e.fields.contains_key("blocker"), "empty value clears the field");
}

#[test]
fn get_list_and_del() {
    let mut b = Board::new();
    b.set("a", &f(&[("status", "DONE")]), None, 1);
    b.set("b", &f(&[("status", "WIP")]), None, 1);
    assert!(b.get("a").is_some());
    assert_eq!(b.list().len(), 2);
    // list is key-sorted.
    assert_eq!(b.list()[0].0, "a");
    assert!(b.del("a"));
    assert!(!b.del("a"), "second delete is a no-op");
    assert!(b.get("a").is_none());
    assert_eq!(b.list().len(), 1);
}

#[test]
fn claim_grants_when_free_and_denies_a_second_taker() {
    let mut b = Board::new();
    // First taker wins.
    match b.claim("t1", "scout", 1000, 100) {
        Claim::Granted(e) => {
            assert_eq!(e.claimed_by.as_deref(), Some("scout"));
            assert_eq!(e.lease_ms, 1100);
        }
        other => panic!("first claim should grant, got {other:?}"),
    }
    // A different agent, while the lease is live, is denied and told who holds it.
    match b.claim("t1", "maker", 1000, 200) {
        Claim::Denied { holder, lease_ms } => {
            assert_eq!(holder, "scout");
            assert_eq!(lease_ms, 1100);
        }
        other => panic!("second claim should be denied, got {other:?}"),
    }
    // The board was not mutated by the denied claim.
    assert_eq!(b.get("t1").unwrap().claimed_by.as_deref(), Some("scout"));
}

#[test]
fn claim_is_reclaimable_after_the_lease_lapses() {
    let mut b = Board::new();
    b.claim("t", "scout", 1000, 100); // lease until 1100
    // At now=1100 the lease has lapsed (>=), so a new agent may take it.
    match b.claim("t", "maker", 1000, 1100) {
        Claim::Granted(e) => assert_eq!(e.claimed_by.as_deref(), Some("maker")),
        other => panic!("expired lease should be reclaimable, got {other:?}"),
    }
}

#[test]
fn same_owner_reclaim_is_an_idempotent_renew() {
    let mut b = Board::new();
    b.claim("t", "scout", 1000, 100);
    match b.claim("t", "scout", 1000, 500) {
        Claim::Granted(e) => assert_eq!(e.lease_ms, 1500, "renew extends the lease"),
        other => panic!("same-owner reclaim should renew, got {other:?}"),
    }
}

#[test]
fn owners_set_renews_the_lease_but_a_strangers_does_not() {
    let mut b = Board::new();
    b.claim("t", "scout", 1000, 100); // lease until 1100
    // The owner updating status renews to now + DEFAULT_LEASE_MS.
    let e = b.set("t", &f(&[("status", "WIP")]), Some("scout"), 200);
    assert_eq!(e.lease_ms, 200 + DEFAULT_LEASE_MS);
    // A stranger annotating the task updates fields but leaves the claim intact.
    let e = b.set("t", &f(&[("note", "looks good")]), Some("lead"), 300);
    assert_eq!(e.claimed_by.as_deref(), Some("scout"));
    assert_eq!(e.lease_ms, 200 + DEFAULT_LEASE_MS, "stranger's set must not renew");
    assert_eq!(e.fields.get("note").map(String::as_str), Some("looks good"));
}

#[test]
fn release_clears_the_claim_but_keeps_fields() {
    let mut b = Board::new();
    b.set("t", &f(&[("status", "WIP")]), Some("scout"), 1);
    b.claim("t", "scout", 1000, 100);
    assert!(b.release("t", 200));
    let e = b.get("t").unwrap();
    assert!(e.claimed_by.is_none(), "release clears the holder");
    assert_eq!(e.lease_ms, 0, "release clears the lease");
    assert_eq!(e.fields.get("status").map(String::as_str), Some("WIP"), "fields survive");
    // Now anyone can claim it.
    assert!(matches!(b.claim("t", "maker", 1000, 300), Claim::Granted(_)));
    assert!(!b.release("missing", 1), "release of an absent key is false");
}

#[test]
fn snapshot_round_trips_the_claim() {
    let mut b = Board::new();
    b.claim("t", "scout", 1000, 100);
    let snap = snapshot(&b.list());
    let parsed = parse_snapshot(&snap).unwrap();
    let e = parsed.get("t").unwrap();
    assert_eq!(e.claimed_by.as_deref(), Some("scout"));
    assert_eq!(e.lease_ms, 1100);
}

#[test]
fn pre_lease_snapshot_parses_as_unclaimed() {
    // An old snapshot with no claim keys must load, defaulting to unclaimed.
    let old = r#"{"auth":{"by":"cto","ms":42,"fields":{"status":"DONE"}}}"#;
    let parsed = parse_snapshot(old).unwrap();
    let e = parsed.get("auth").unwrap();
    assert!(e.claimed_by.is_none());
    assert_eq!(e.lease_ms, 0);
    assert_eq!(e.fields.get("status").map(String::as_str), Some("DONE"));
}

#[test]
fn snapshot_round_trips() {
    let mut b = Board::new();
    b.set("auth", &f(&[("status", "DONE"), ("owner", "Max")]), Some("cto"), 42);
    b.set("bill", &f(&[("status", "BLOCKED")]), Some("Vic"), 7);
    let snap = snapshot(&b.list());
    let parsed = parse_snapshot(&snap).unwrap();
    assert_eq!(parsed.len(), 2);
    let auth = parsed.get("auth").unwrap();
    assert_eq!(auth.fields.get("status").map(String::as_str), Some("DONE"));
    assert_eq!(auth.fields.get("owner").map(String::as_str), Some("Max"));
    assert_eq!(auth.updated_by.as_deref(), Some("cto"));
    assert_eq!(auth.updated_ms, 42);
}

#[test]
fn entries_to_value_carries_key_and_fields() {
    let mut b = Board::new();
    b.set("auth", &f(&[("status", "DONE")]), Some("cto"), 1);
    let v = entries_to_value(&b.list());
    assert!(v.is_array());
    assert_eq!(v.len(), 1);
    assert_eq!(v[0]["key"].as_str(), Some("auth"));
    assert_eq!(v[0]["fields"]["status"].as_str(), Some("DONE"));
}
