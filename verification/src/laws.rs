//! What holds of the board across operations, and of its snapshot.

use vstd::prelude::*;
use crate::board::{
    after_claim, after_release, after_set, apply_field, claim_result, claimed_entry, entry_or_default,
    held_against, merge_fields, set_entry, ClaimView, EntryView, DEFAULT_LEASE_MS,
};
use crate::json_tree::{
    distinct_names, lemma_member_at, lemma_object_from_distinct, member_of, JsonTree,
};
use crate::snapshot::{
    as_count, as_text, entries_tree, entry_members, entry_tree, field_members, keyed_entry_tree,
    lemma_entry_member_names, lemma_rollup_names, read_entries, read_entry, read_fields,
    rollup_members, snapshot_tree,
};
use crate::sorted_map::{
    lemma_ascending_distinct, lemma_listing_exists, lemma_map_of, listing, map_of,
};

verus! {

/// First taker wins: once `a` has been granted `key` at `now_ms` with a lease
/// of `ttl_ms`, any other agent that claims it before the lease lapses is
/// denied, told that `a` holds it until `now_ms + ttl_ms`, and the board is
/// left as it was.
pub proof fn law_claim_excludes_others(
    m: Map<Seq<char>, EntryView>,
    key: Seq<char>,
    a: Seq<char>,
    ttl_ms: u64,
    now_ms: u64,
    b: Seq<char>,
    ttl2_ms: u64,
    t_ms: u64,
)
    requires
        claim_result(m, key, a, ttl_ms, now_ms) is Granted,
        now_ms + ttl_ms <= u64::MAX,
        b != a,
        t_ms < now_ms + ttl_ms,
    ensures
        claim_result(after_claim(m, key, a, ttl_ms, now_ms), key, b, ttl2_ms, t_ms)
            == (ClaimView::Denied { holder: a, lease_ms: (now_ms + ttl_ms) as u64 }),
        after_claim(after_claim(m, key, a, ttl_ms, now_ms), key, b, ttl2_ms, t_ms) == after_claim(
            m,
            key,
            a,
            ttl_ms,
            now_ms,
        ),
{
}

/// A lapsed lease strands nothing: from the moment `now_ms + ttl_ms` is
/// reached, anyone may claim the task.
pub proof fn law_claim_lapses(
    m: Map<Seq<char>, EntryView>,
    key: Seq<char>,
    a: Seq<char>,
    ttl_ms: u64,
    now_ms: u64,
    b: Seq<char>,
    ttl2_ms: u64,
    t_ms: u64,
)
    requires
        claim_result(m, key, a, ttl_ms, now_ms) is Granted,
        now_ms + ttl_ms <= t_ms,
    ensures
        claim_result(after_claim(m, key, a, ttl_ms, now_ms), key, b, ttl2_ms, t_ms)
            == ClaimView::Granted(
            claimed_entry(after_claim(m, key, a, ttl_ms, now_ms)[key], b, ttl2_ms, t_ms),
        ),
{
}

/// Re-claiming one's own task is an idempotent renew: it is granted, with the
/// lease running from the new claim.
pub proof fn law_claim_renews_own(
    m: Map<Seq<char>, EntryView>,
    key: Seq<char>,
    a: Seq<char>,
    ttl_ms: u64,
    now_ms: u64,
    ttl2_ms: u64,
    t_ms: u64,
)
    requires
        claim_result(m, key, a, ttl_ms, now_ms) is Granted,
    ensures
        claim_result(after_claim(m, key, a, ttl_ms, now_ms), key, a, ttl2_ms, t_ms) is Granted,
        after_claim(after_claim(m, key, a, ttl_ms, now_ms), key, a, ttl2_ms, t_ms)[key].lease_ms
            == (t_ms + ttl2_ms) as u64,
{
}

/// A denied claim writes nothing; a claim, granted or not, never touches the
/// entry's fields, and any other key.
pub proof fn law_claim_writes_only_its_claim(
    m: Map<Seq<char>, EntryView>,
    key: Seq<char>,
    owner: Seq<char>,
    ttl_ms: u64,
    now_ms: u64,
    other: Seq<char>,
)
    requires
        other != key,
    ensures
        claim_result(m, key, owner, ttl_ms, now_ms) is Denied ==> after_claim(
            m,
            key,
            owner,
            ttl_ms,
            now_ms,
        ) == m,
        after_claim(m, key, owner, ttl_ms, now_ms)[key].fields == entry_or_default(m, key).fields,
        after_claim(m, key, owner, ttl_ms, now_ms).contains_key(other) == m.contains_key(other),
        after_claim(m, key, owner, ttl_ms, now_ms)[other] == m[other],
{
}

/// Only the claim holder's own writes renew its lease: a `set` by the holder
/// moves the lease to `now_ms + DEFAULT_LEASE_MS`; a `set` by anyone else (or
/// by no one) leaves holder and lease as they were.
pub proof fn law_set_renews_only_for_holder(
    m: Map<Seq<char>, EntryView>,
    key: Seq<char>,
    upd: Seq<(Seq<char>, Seq<char>)>,
    by: Option<Seq<char>>,
    now_ms: u64,
)
    ensures
        ({
            let e = entry_or_default(m, key);
            let e2 = after_set(m, key, upd, by, now_ms)[key];
            &&& e2.claimed_by == e.claimed_by
            &&& (by is Some && by == e.claimed_by) ==> e2.lease_ms == (now_ms + DEFAULT_LEASE_MS) as u64
            &&& !(by is Some && by == e.claimed_by) ==> e2.lease_ms == e.lease_ms
        }),
{
}

/// What a read gives back of a write: after `set`, the key holds exactly the
/// entry that `set` returned, stamped with the writer and the time, and every
/// other key is untouched.
pub proof fn law_read_after_set(
    m: Map<Seq<char>, EntryView>,
    key: Seq<char>,
    upd: Seq<(Seq<char>, Seq<char>)>,
    by: Option<Seq<char>>,
    now_ms: u64,
    other: Seq<char>,
)
    requires
        other != key,
    ensures
        after_set(m, key, upd, by, now_ms).contains_key(key),
        after_set(m, key, upd, by, now_ms)[key] == set_entry(
            entry_or_default(m, key),
            upd,
            by,
            now_ms,
        ),
        after_set(m, key, upd, by, now_ms)[key].updated_by == by,
        after_set(m, key, upd, by, now_ms)[key].updated_ms == now_ms,
        after_set(m, key, upd, by, now_ms).contains_key(other) == m.contains_key(other),
        after_set(m, key, upd, by, now_ms)[other] == m[other],
{
}

/// `set` merges: a field that no update mentions keeps its value (or its
/// absence).
pub proof fn law_set_keeps_unmentioned_fields(
    fs: Map<Seq<char>, Seq<char>>,
    upd: Seq<(Seq<char>, Seq<char>)>,
    f: Seq<char>,
)
    requires
        forall|i: int| 0 <= i < upd.len() ==> (#[trigger] upd[i]).0 != f,
    ensures
        merge_fields(fs, upd).contains_key(f) == fs.contains_key(f),
        merge_fields(fs, upd)[f] == fs[f],
    decreases upd.len(),
{
    if upd.len() > 0 {
        let init = upd.drop_last();
        assert forall|i: int| 0 <= i < init.len() implies (#[trigger] init[i]).0 != f by {
            assert(init[i] == upd[i]);
        }
        law_set_keeps_unmentioned_fields(fs, init, f);
        assert(upd[upd.len() - 1].0 != f);
    }
}

/// `set` merges: the last update of a field decides it: an empty value
/// clears the field, any other value becomes its value.
pub proof fn law_set_last_update_wins(
    fs: Map<Seq<char>, Seq<char>>,
    upd: Seq<(Seq<char>, Seq<char>)>,
    i: int,
)
    requires
        0 <= i < upd.len(),
        forall|j: int| i < j < upd.len() ==> (#[trigger] upd[j]).0 != upd[i].0,
    ensures
        upd[i].1.len() == 0 ==> !merge_fields(fs, upd).contains_key(upd[i].0),
        upd[i].1.len() > 0 ==> merge_fields(fs, upd).contains_key(upd[i].0) && merge_fields(
            fs,
            upd,
        )[upd[i].0] == upd[i].1,
    decreases upd.len(),
{
    let init = upd.drop_last();
    if i == upd.len() - 1 {
    } else {
        assert forall|j: int| i < j < init.len() implies (#[trigger] init[j]).0 != init[i].0 by {
            assert(init[j] == upd[j]);
        }
        assert(init[i] == upd[i]);
        law_set_last_update_wins(fs, init, i);
        assert(upd[upd.len() - 1].0 != upd[i].0);
    }
}

/// Releasing a present task clears its holder and lease but keeps its fields,
/// after which anyone's claim is granted.
pub proof fn law_release_frees(
    m: Map<Seq<char>, EntryView>,
    key: Seq<char>,
    now_ms: u64,
    b: Seq<char>,
    ttl_ms: u64,
    t_ms: u64,
)
    requires
        m.contains_key(key),
    ensures
        after_release(m, key, now_ms)[key].claimed_by is None,
        after_release(m, key, now_ms)[key].lease_ms == 0,
        after_release(m, key, now_ms)[key].fields == m[key].fields,
        claim_result(after_release(m, key, now_ms), key, b, ttl_ms, t_ms) is Granted,
{
}

/// Releasing an absent key changes nothing, and releasing twice is releasing
/// once, but for the time stamp.
pub proof fn law_release_idempotent(m: Map<Seq<char>, EntryView>, key: Seq<char>, t1: u64, t2: u64)
    ensures
        !m.contains_key(key) ==> after_release(m, key, t1) == m,
        after_release(after_release(m, key, t1), key, t2) == after_release(m, key, t2),
{
    if m.contains_key(key) {
        assert(after_release(after_release(m, key, t1), key, t2) =~= after_release(m, key, t2));
    }
}

/// A key is never held against its own holder, nor against anyone once its
/// lease has lapsed.
pub proof fn law_held_against(e: EntryView, who: Seq<char>, now_ms: u64)
    ensures
        e.claimed_by == Some(who) ==> !held_against(e, who, now_ms),
        e.lease_ms <= now_ms ==> !held_against(e, who, now_ms),
        e.claimed_by is None ==> !held_against(e, who, now_ms),
{
}

/// The last update that names `f`, where some update does.
proof fn lemma_last_mention(upd: Seq<(Seq<char>, Seq<char>)>, f: Seq<char>) -> (i: int)
    requires
        exists|i: int| 0 <= i < upd.len() && upd[i].0 == f,
    ensures
        0 <= i < upd.len(),
        upd[i].0 == f,
        forall|j: int| i < j < upd.len() ==> (#[trigger] upd[j]).0 != f,
    decreases upd.len(),
{
    if upd[upd.len() - 1].0 == f {
        upd.len() - 1
    } else {
        let init = upd.drop_last();
        let w = choose|i: int| 0 <= i < upd.len() && upd[i].0 == f;
        assert(init[w] == upd[w]);
        let i = lemma_last_mention(init, f);
        assert(init[i] == upd[i]);
        assert forall|j: int| i < j < upd.len() implies (#[trigger] upd[j]).0 != f by {
            if j < init.len() {
                assert(init[j] == upd[j]);
            }
        }
        i
    }
}

/// Applying the same field updates twice is applying them once.
proof fn lemma_merge_idempotent(fs: Map<Seq<char>, Seq<char>>, upd: Seq<(Seq<char>, Seq<char>)>)
    ensures
        merge_fields(merge_fields(fs, upd), upd) == merge_fields(fs, upd),
{
    let once = merge_fields(fs, upd);
    let twice = merge_fields(once, upd);
    assert forall|f: Seq<char>| #[trigger] twice.contains_key(f) == once.contains_key(f) && (
    once.contains_key(f) ==> twice[f] == once[f]) by {
        if exists|i: int| 0 <= i < upd.len() && upd[i].0 == f {
            let i = lemma_last_mention(upd, f);
            law_set_last_update_wins(fs, upd, i);
            law_set_last_update_wins(once, upd, i);
        } else {
            law_set_keeps_unmentioned_fields(once, upd, f);
        }
    }
    assert(twice =~= once);
}

/// Repeating a `set` changes nothing further: the second call returns the
/// same entry as the first and leaves the board as the first left it.
pub proof fn law_set_idempotent(
    m: Map<Seq<char>, EntryView>,
    key: Seq<char>,
    upd: Seq<(Seq<char>, Seq<char>)>,
    by: Option<Seq<char>>,
    now_ms: u64,
)
    ensures
        set_entry(entry_or_default(after_set(m, key, upd, by, now_ms), key), upd, by, now_ms)
            == set_entry(entry_or_default(m, key), upd, by, now_ms),
        after_set(after_set(m, key, upd, by, now_ms), key, upd, by, now_ms) == after_set(
            m,
            key,
            upd,
            by,
            now_ms,
        ),
{
    let e = entry_or_default(m, key);
    lemma_merge_idempotent(e.fields, upd);
    let m1 = after_set(m, key, upd, by, now_ms);
    assert(entry_or_default(m1, key) == set_entry(e, upd, by, now_ms));
    assert(after_set(m1, key, upd, by, now_ms) =~= m1);
}

/// Claiming again with the same arguments is an idempotent renew: granted
/// with the same entry, and the board is left as the first claim left it.
pub proof fn law_claim_idempotent(
    m: Map<Seq<char>, EntryView>,
    key: Seq<char>,
    owner: Seq<char>,
    ttl_ms: u64,
    now_ms: u64,
)
    requires
        claim_result(m, key, owner, ttl_ms, now_ms) is Granted,
    ensures
        claim_result(after_claim(m, key, owner, ttl_ms, now_ms), key, owner, ttl_ms, now_ms)
            == claim_result(m, key, owner, ttl_ms, now_ms),
        after_claim(after_claim(m, key, owner, ttl_ms, now_ms), key, owner, ttl_ms, now_ms)
            == after_claim(m, key, owner, ttl_ms, now_ms),
{
    let m1 = after_claim(m, key, owner, ttl_ms, now_ms);
    assert(after_claim(m1, key, owner, ttl_ms, now_ms) =~= m1);
}

/// An entry as the board's operations leave it: no field holds an empty
/// value, and a lease is set only with a holder.
pub open spec fn sound_entry(e: EntryView) -> bool {
    &&& forall|f: Seq<char>| #[trigger] e.fields.contains_key(f) ==> e.fields[f].len() > 0
    &&& e.claimed_by is None ==> e.lease_ms == 0
}

/// Every entry of a board is sound.
pub open spec fn sound_board(m: Map<Seq<char>, EntryView>) -> bool {
    forall|k: Seq<char>| #[trigger] m.contains_key(k) ==> sound_entry(m[k])
}

/// Merging field updates never stores an empty value.
proof fn lemma_merge_nonempty(fs: Map<Seq<char>, Seq<char>>, upd: Seq<(Seq<char>, Seq<char>)>)
    requires
        forall|f: Seq<char>| #[trigger] fs.contains_key(f) ==> fs[f].len() > 0,
    ensures
        forall|f: Seq<char>| #[trigger]
            merge_fields(fs, upd).contains_key(f) ==> merge_fields(fs, upd)[f].len() > 0,
    decreases upd.len(),
{
    if upd.len() > 0 {
        let prev = merge_fields(fs, upd.drop_last());
        lemma_merge_nonempty(fs, upd.drop_last());
        assert(merge_fields(fs, upd) == apply_field(prev, upd.last().0, upd.last().1));
        assert forall|f: Seq<char>| #[trigger] merge_fields(fs, upd).contains_key(f) implies merge_fields(
            fs,
            upd,
        )[f].len() > 0 by {
            if f != upd.last().0 {
                assert(prev.contains_key(f));
            }
        }
    }
}

/// The board's operations keep it sound: a new board is sound, and `set`,
/// `claim`, `release` and `del` leave a sound board sound. So a board built
/// by them never stores an empty field value or a lease without a holder.
pub proof fn law_operations_keep_board_sound(
    m: Map<Seq<char>, EntryView>,
    key: Seq<char>,
    upd: Seq<(Seq<char>, Seq<char>)>,
    by: Option<Seq<char>>,
    owner: Seq<char>,
    ttl_ms: u64,
    now_ms: u64,
)
    requires
        sound_board(m),
    ensures
        sound_board(Map::<Seq<char>, EntryView>::empty()),
        sound_board(after_set(m, key, upd, by, now_ms)),
        sound_board(after_claim(m, key, owner, ttl_ms, now_ms)),
        sound_board(after_release(m, key, now_ms)),
        sound_board(m.remove(key)),
{
    let e = entry_or_default(m, key);
    assert(sound_entry(e));
    lemma_merge_nonempty(e.fields, upd);
    let m1 = after_set(m, key, upd, by, now_ms);
    assert forall|k: Seq<char>| #[trigger] m1.contains_key(k) implies sound_entry(m1[k]) by {
        if k != key {
            assert(m.contains_key(k));
        }
    }
    let m2 = after_claim(m, key, owner, ttl_ms, now_ms);
    assert forall|k: Seq<char>| #[trigger] m2.contains_key(k) implies sound_entry(m2[k]) by {
        if k != key {
            assert(m.contains_key(k));
        }
    }
    let m3 = after_release(m, key, now_ms);
    assert forall|k: Seq<char>| #[trigger] m3.contains_key(k) implies sound_entry(m3[k]) by {
        assert(m.contains_key(k));
    }
    let m4 = m.remove(key);
    assert forall|k: Seq<char>| #[trigger] m4.contains_key(k) implies sound_entry(m4[k]) by {
        assert(m.contains_key(k));
    }
}

/// The fields read back from their rendering are the fields rendered.
proof fn lemma_read_field_members(l: Seq<(Seq<char>, Seq<char>)>)
    ensures
        read_fields(field_members(l)) == map_of(l),
    decreases l.len(),
{
    if l.len() > 0 {
        lemma_read_field_members(l.drop_last());
        assert(field_members(l).drop_last() =~= field_members(l.drop_last()));
    }
}

/// An entry read back from its rendering is the entry rendered.
proof fn lemma_read_entry_tree(e: EntryView)
    requires
        e.fields.dom().finite(),
        e.updated_ms <= i64::MAX,
        e.lease_ms <= i64::MAX,
    ensures
        read_entry(entry_tree(e)) == e,
{
    let ms = entry_members(e);
    lemma_entry_member_names(e);
    reveal_strlit("by");
    reveal_strlit("ms");
    reveal_strlit("claimed_by");
    reveal_strlit("lease_ms");
    reveal_strlit("fields");
    lemma_member_at(ms, 0);
    lemma_member_at(ms, 1);
    lemma_member_at(ms, 2);
    lemma_member_at(ms, 3);
    lemma_member_at(ms, 4);
    lemma_listing_exists(e.fields);
    lemma_read_field_members(listing(e.fields));
    assert(read_entry(entry_tree(e)).fields == e.fields);
}

/// Entries read back from their snapshot members are the entries rendered.
pub proof fn lemma_read_entries(l: Seq<(Seq<char>, EntryView)>)
    requires
        forall|i: int|
            0 <= i < l.len() ==> (#[trigger] l[i]).1.fields.dom().finite() && l[i].1.updated_ms
                <= i64::MAX && l[i].1.lease_ms <= i64::MAX,
    ensures
        read_entries(l.map_values(|p: (Seq<char>, EntryView)| (p.0, entry_tree(p.1)))) == map_of(l),
    decreases l.len(),
{
    if l.len() > 0 {
        let init = l.drop_last();
        assert forall|i: int| 0 <= i < init.len() implies (#[trigger] init[i]).1.fields.dom().finite()
            && init[i].1.updated_ms <= i64::MAX && init[i].1.lease_ms <= i64::MAX by {
            assert(init[i] == l[i]);
        }
        lemma_read_entries(init);
        assert(l.map_values(|p: (Seq<char>, EntryView)| (p.0, entry_tree(p.1))).drop_last()
            =~= init.map_values(|p: (Seq<char>, EntryView)| (p.0, entry_tree(p.1))));
        assert(l[l.len() - 1].1.fields.dom().finite() && l[l.len() - 1].1.updated_ms <= i64::MAX
            && l[l.len() - 1].1.lease_ms <= i64::MAX);
        lemma_read_entry_tree(l.last().1);
    }
}

/// A snapshot reads back as the board it was taken of, at the level of JSON
/// values: rendering a board's entries in key order and reading the resulting
/// object gives the same entries, as long as every time stamp is at most
/// `i64::MAX` (a larger one is written negative and reads back as `0`).
pub proof fn law_snapshot_round_trip(m: Map<Seq<char>, EntryView>)
    requires
        m.dom().finite(),
        forall|k: Seq<char>| #[trigger] m.contains_key(k) ==> m[k].fields.dom().finite(),
        forall|k: Seq<char>| #[trigger]
            m.contains_key(k) ==> m[k].updated_ms <= i64::MAX && m[k].lease_ms <= i64::MAX,
    ensures
        snapshot_tree(listing(m)) matches JsonTree::Obj(ms) && read_entries(ms) == m,
{
    lemma_listing_exists(m);
    let l = listing(m);
    let ms = l.map_values(|p: (Seq<char>, EntryView)| (p.0, entry_tree(p.1)));
    lemma_ascending_distinct(l);
    lemma_map_of(l);
    assert(distinct_names(ms)) by {
        assert forall|i: int, j: int| 0 <= i < j < ms.len() implies ms[i].0 != ms[j].0 by {
            assert(l[i].0 != l[j].0);
        }
    }
    lemma_object_from_distinct(ms);
    assert forall|i: int| 0 <= i < l.len() implies (#[trigger] l[i]).1.fields.dom().finite()
        && l[i].1.updated_ms <= i64::MAX && l[i].1.lease_ms <= i64::MAX by {
        assert(m.contains_key(l[i].0));
    }
    lemma_read_entries(l);
}

/// Whether an entry is held against `who` depends on its holder and lease
/// alone: two entries with the same holder and lease are held against the same
/// agents at the same times, whatever their fields and last writer.
pub proof fn law_held_against_depends_on_claim_only(
    e1: EntryView,
    e2: EntryView,
    who: Seq<char>,
    now_ms: u64,
)
    requires
        e1.claimed_by == e2.claimed_by,
        e1.lease_ms == e2.lease_ms,
    ensures
        held_against(e1, who, now_ms) == held_against(e2, who, now_ms),
{
}

/// A live claim by someone else always blocks: an entry held by `owner` with
/// a lease that has not lapsed is held against every other agent.
pub proof fn law_live_claim_blocks_others(e: EntryView, owner: Seq<char>, who: Seq<char>, now_ms: u64)
    requires
        e.claimed_by == Some(owner),
        owner != who,
        now_ms < e.lease_ms,
    ensures
        held_against(e, who, now_ms),
{
}

/// What a claim answers, in terms of the entry it finds: it is denied exactly
/// when someone else holds a lease that has not lapsed, and then it names that
/// holder and its lease end; when granted, the entry is held by the claimant
/// until `now_ms + ttl_ms`, stamped by the claimant at `now_ms`, with its
/// fields kept.
pub proof fn law_claim_answer(
    m: Map<Seq<char>, EntryView>,
    key: Seq<char>,
    owner: Seq<char>,
    ttl_ms: u64,
    now_ms: u64,
)
    ensures
        ({
            let e = entry_or_default(m, key);
            let r = claim_result(m, key, owner, ttl_ms, now_ms);
            &&& r is Denied <==> (e.claimed_by is Some && e.claimed_by->0 != owner && now_ms
                < e.lease_ms)
            &&& r matches ClaimView::Denied { holder, lease_ms } ==> Some(holder) == e.claimed_by
                && lease_ms == e.lease_ms
            &&& r matches ClaimView::Granted(g) ==> g.claimed_by == Some(owner) && g.lease_ms == (
            now_ms + ttl_ms) as u64 && g.updated_by == Some(owner) && g.updated_ms == now_ms
                && g.fields == e.fields
            &&& r matches ClaimView::Granted(g) ==> after_claim(m, key, owner, ttl_ms, now_ms)
                == m.insert(key, g)
        }),
{
}

/// A write by anyone but the holder leaves a claim in force: after `a` is
/// granted `key` until `now_ms + ttl_ms`, a `set` by any writer other than `a`
/// (or by none), and then a claim by another agent `b` before the lease ends,
/// is denied, naming `a` and the lease end.
pub proof fn law_others_set_keeps_claim_in_force(
    m: Map<Seq<char>, EntryView>,
    key: Seq<char>,
    a: Seq<char>,
    ttl_ms: u64,
    now_ms: u64,
    upd: Seq<(Seq<char>, Seq<char>)>,
    by: Option<Seq<char>>,
    set_ms: u64,
    b: Seq<char>,
    ttl2_ms: u64,
    t_ms: u64,
)
    requires
        claim_result(m, key, a, ttl_ms, now_ms) is Granted,
        now_ms + ttl_ms <= u64::MAX,
        by != Some(a),
        b != a,
        t_ms < now_ms + ttl_ms,
    ensures
        claim_result(
            after_set(after_claim(m, key, a, ttl_ms, now_ms), key, upd, by, set_ms),
            key,
            b,
            ttl2_ms,
            t_ms,
        ) == (ClaimView::Denied { holder: a, lease_ms: (now_ms + ttl_ms) as u64 }),
{
}

/// `set` merges every update into the entry's fields, whoever writes and
/// whatever the claim: a field that no update names keeps its value (or its
/// absence), and the last update of a field decides it (an empty value clears
/// it, any other becomes its value).
pub proof fn law_set_fields(
    m: Map<Seq<char>, EntryView>,
    key: Seq<char>,
    upd: Seq<(Seq<char>, Seq<char>)>,
    by: Option<Seq<char>>,
    now_ms: u64,
    f: Seq<char>,
    i: int,
)
    ensures
        ({
            let old_fields = entry_or_default(m, key).fields;
            let new_fields = after_set(m, key, upd, by, now_ms)[key].fields;
            &&& (forall|j: int| 0 <= j < upd.len() ==> (#[trigger] upd[j]).0 != f) ==> (
            new_fields.contains_key(f) == old_fields.contains_key(f) && new_fields[f]
                == old_fields[f])
            &&& (0 <= i < upd.len() && upd[i].0 == f && (forall|j: int|
                i < j < upd.len() ==> (#[trigger] upd[j]).0 != f)) ==> (if upd[i].1.len() == 0 {
                !new_fields.contains_key(f)
            } else {
                new_fields.contains_key(f) && new_fields[f] == upd[i].1
            })
        }),
{
    let old_fields = entry_or_default(m, key).fields;
    if forall|j: int| 0 <= j < upd.len() ==> (#[trigger] upd[j]).0 != f {
        law_set_keeps_unmentioned_fields(old_fields, upd, f);
    }
    if 0 <= i < upd.len() && upd[i].0 == f && (forall|j: int|
        i < j < upd.len() ==> (#[trigger] upd[j]).0 != f) {
        law_set_last_update_wins(old_fields, upd, i);
    }
}

/// `release` changes only the holder, the lease and the time stamp of a
/// present entry: it keeps the fields and the last writer, and touches no
/// other key.
pub proof fn law_release_changes_only_the_claim(
    m: Map<Seq<char>, EntryView>,
    key: Seq<char>,
    now_ms: u64,
    other: Seq<char>,
)
    requires
        m.contains_key(key),
        other != key,
    ensures
        after_release(m, key, now_ms).contains_key(key),
        after_release(m, key, now_ms)[key].fields == m[key].fields,
        after_release(m, key, now_ms)[key].updated_by == m[key].updated_by,
        after_release(m, key, now_ms)[key].updated_ms == now_ms,
        after_release(m, key, now_ms)[key].claimed_by is None,
        after_release(m, key, now_ms)[key].lease_ms == 0,
        after_release(m, key, now_ms).contains_key(other) == m.contains_key(other),
        after_release(m, key, now_ms)[other] == m[other],
{
}

/// Each element of a roll-up renders its own `(key, entry)` pair: the array
/// has one object per pair, in order, with exactly the members `key`, `by`,
/// `ms` and `fields`, and reading element `i` back gives the `i`-th key, that
/// entry's writer and fields, and its time stamp when it is at most
/// `i64::MAX`.
pub proof fn law_roll_up_renders_each_entry(es: Seq<(Seq<char>, EntryView)>, i: int)
    requires
        0 <= i < es.len(),
        es[i].1.fields.dom().finite(),
    ensures
        ({
            let items = entries_tree(es)->Arr_0;
            let item = items[i];
            &&& entries_tree(es) is Arr
            &&& items.len() == es.len()
            &&& item is Obj
            &&& item->Obj_0.len() == 4
            &&& as_text(member_of(item, "key"@)) == Some(es[i].0)
            &&& as_text(member_of(item, "by"@)) == es[i].1.updated_by
            &&& es[i].1.updated_ms <= i64::MAX ==> as_count(member_of(item, "ms"@))
                == es[i].1.updated_ms
            &&& member_of(item, "fields"@) is Obj
            &&& read_fields(member_of(item, "fields"@)->Obj_0) == es[i].1.fields
        }),
{
    let k = es[i].0;
    let e = es[i].1;
    let ms = rollup_members(k, e);
    lemma_rollup_names(k, e);
    reveal_strlit("key");
    reveal_strlit("by");
    reveal_strlit("ms");
    reveal_strlit("fields");
    lemma_member_at(ms, 0);
    lemma_member_at(ms, 1);
    lemma_member_at(ms, 2);
    lemma_member_at(ms, 3);
    lemma_listing_exists(e.fields);
    lemma_read_field_members(listing(e.fields));
    match entries_tree(es) {
        JsonTree::Arr(items) => {
            assert(items[i] == keyed_entry_tree(k, e));
        },
        _ => {},
    }
}

} // verus!
