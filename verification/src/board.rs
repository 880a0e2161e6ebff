//! The shared **board**: durable source-of-truth state for a coordinating team.
//!
//! A schemaless `key → fields` tracker owned by the host's broker process: a
//! single writer, so no locking and no consensus. Every write records who made
//! it and when; an entry may carry a **claim**, a soft lease that lets a team
//! divide work without two agents taking the same task.
//!
//! The board itself does no I/O. A mutation that the host should mirror to its
//! snapshot file marks the board as holding a pending write, which the host
//! takes with [`Board::take_pending_write`] before it writes
//! [`crate::snapshot::snapshot`] of the board where it chooses.

use vstd::prelude::*;
use crate::keys::{key_lt, same_key};
use crate::sorted_map::{lemma_listing_exists, listing, map_of, pairs_of, SortedMap};
pub use crate::snapshot::{entries_to_value, entry_to_value};

verus! {

/// Environment knob naming a snapshot file to persist the board to. Unset: the
/// board is in memory only.
pub const ENV_BOARD: &'static str = "AMUX_BOARD";

/// Default lease length for a [`Board::claim`], and the renewal that an
/// owner's [`Board::set`] grants: 5 minutes.
pub const DEFAULT_LEASE_MS: u64 = 5 * 60 * 1000;

/// An optional text by its characters.
pub open spec fn opt_text(o: Option<String>) -> Option<Seq<char>> {
    match o {
        Some(s) => Some(s@),
        None => None,
    }
}

/// An optional text slice by its characters.
pub open spec fn opt_str(o: Option<&str>) -> Option<Seq<char>> {
    match o {
        Some(s) => Some(s@),
        None => None,
    }
}

/// What an [`Entry`] holds.
pub struct EntryView {
    pub fields: Map<Seq<char>, Seq<char>>,
    pub updated_by: Option<Seq<char>>,
    pub updated_ms: u64,
    pub claimed_by: Option<Seq<char>>,
    pub lease_ms: u64,
}

/// A fresh entry: no fields, never written, unclaimed.
pub open spec fn empty_entry() -> EntryView {
    EntryView {
        fields: Map::empty(),
        updated_by: None,
        updated_ms: 0,
        claimed_by: None,
        lease_ms: 0,
    }
}

/// One board entry: freeform field→value pairs, who/when last touched it, and
/// an optional claim. Fields are kept in key order.
#[derive(Debug, PartialEq, Eq)]
pub struct Entry {
    pub fields: SortedMap<String>,
    /// The role (or pane) that last wrote this entry: accountability, not auth.
    pub updated_by: Option<String>,
    pub updated_ms: u64,
    /// Who holds the claim on this entry, if anyone.
    pub claimed_by: Option<String>,
    /// Absolute epoch-ms at which the claim lapses (`0`: no active lease).
    pub lease_ms: u64,
}

impl View for Entry {
    type V = EntryView;

    open spec fn view(&self) -> EntryView {
        EntryView {
            fields: self.fields@,
            updated_by: opt_text(self.updated_by),
            updated_ms: self.updated_ms,
            claimed_by: opt_text(self.claimed_by),
            lease_ms: self.lease_ms,
        }
    }
}

fn copy_text(o: &Option<String>) -> (r: Option<String>)
    ensures
        opt_text(r) == opt_text(*o),
{
    match o {
        Some(s) => Some(s.clone()),
        None => None,
    }
}

fn own_text(o: Option<&str>) -> (r: Option<String>)
    ensures
        opt_text(r) == opt_str(o),
{
    match o {
        Some(s) => Some(s.to_owned()),
        None => None,
    }
}

impl Clone for Entry {
    /// A copy holding the same fields, stamps and claim.
    fn clone(&self) -> (r: Self)
        ensures
            r@ == self@,
    {
        Entry {
            fields: self.fields.clone(),
            updated_by: copy_text(&self.updated_by),
            updated_ms: self.updated_ms,
            claimed_by: copy_text(&self.claimed_by),
            lease_ms: self.lease_ms,
        }
    }
}

impl Default for Entry {
    /// A fresh entry: no fields, never written, unclaimed.
    fn default() -> (r: Self)
        ensures
            r@ == empty_entry(),
    {
        Entry {
            fields: SortedMap::new(),
            updated_by: None,
            updated_ms: 0,
            claimed_by: None,
            lease_ms: 0,
        }
    }
}

/// An entry is held against `who` at `now_ms` when someone else holds a claim
/// whose lease has not lapsed (`now_ms < lease_ms`).
pub open spec fn held_against(e: EntryView, who: Seq<char>, now_ms: u64) -> bool {
    match e.claimed_by {
        Some(owner) => owner != who && now_ms < e.lease_ms,
        None => false,
    }
}

impl Entry {
    /// Is this entry actively held by someone other than `who` at `now_ms`? A
    /// lapsed lease or a claim held by `who` itself is no block.
    fn held_against(&self, who: &str, now_ms: u64) -> (r: bool)
        ensures
            r == held_against(self@, who@, now_ms),
    {
        match &self.claimed_by {
            Some(owner) => !same_key(owner.as_str(), who) && now_ms < self.lease_ms,
            None => false,
        }
    }
}

/// What a [`Claim`] says.
pub enum ClaimView {
    Granted(EntryView),
    Denied { holder: Seq<char>, lease_ms: u64 },
}

/// The result of a [`Board::claim`]: the caller either now holds the task or
/// was told who does. On `Denied` the board is left untouched.
#[derive(Debug, Clone, PartialEq, Eq)]
pub enum Claim {
    /// The caller holds the task; the entry carries the fresh claim and lease.
    Granted(Entry),
    /// Someone else holds it: `holder` until `lease_ms` (epoch-ms).
    Denied { holder: String, lease_ms: u64 },
}

impl View for Claim {
    type V = ClaimView;

    open spec fn view(&self) -> ClaimView {
        match self {
            Claim::Granted(e) => ClaimView::Granted(e@),
            Claim::Denied { holder, lease_ms } => ClaimView::Denied {
                holder: holder@,
                lease_ms: *lease_ms,
            },
        }
    }
}

/// The entry that a write to `key` starts from: the stored one, or a fresh one.
pub open spec fn entry_or_default(m: Map<Seq<char>, EntryView>, key: Seq<char>) -> EntryView {
    if m.contains_key(key) {
        m[key]
    } else {
        empty_entry()
    }
}

/// One field update: an empty value clears the field, any other sets it.
pub open spec fn apply_field(fs: Map<Seq<char>, Seq<char>>, f: Seq<char>, v: Seq<char>) -> Map<
    Seq<char>,
    Seq<char>,
> {
    if v.len() == 0 {
        fs.remove(f)
    } else {
        fs.insert(f, v)
    }
}

/// Field updates applied in order: a later update of a field wins.
pub open spec fn merge_fields(fs: Map<Seq<char>, Seq<char>>, upd: Seq<(Seq<char>, Seq<char>)>) -> Map<
    Seq<char>,
    Seq<char>,
>
    decreases upd.len(),
{
    if upd.len() == 0 {
        fs
    } else {
        apply_field(merge_fields(fs, upd.drop_last()), upd.last().0, upd.last().1)
    }
}

/// A write by `by` renews the lease when `by` is the entry's claim holder.
pub open spec fn renews(e: EntryView, by: Option<Seq<char>>) -> bool {
    by is Some && e.claimed_by == by
}

/// The entry after [`Board::set`]: fields merged, stamped with who and when,
/// the claim kept, and the lease renewed to `now_ms + DEFAULT_LEASE_MS` when the
/// writer holds the claim.
pub open spec fn set_entry(
    e: EntryView,
    upd: Seq<(Seq<char>, Seq<char>)>,
    by: Option<Seq<char>>,
    now_ms: u64,
) -> EntryView {
    EntryView {
        fields: merge_fields(e.fields, upd),
        updated_by: by,
        updated_ms: now_ms,
        claimed_by: e.claimed_by,
        lease_ms: if renews(e, by) {
            (now_ms + DEFAULT_LEASE_MS) as u64
        } else {
            e.lease_ms
        },
    }
}

/// The entry after a granted [`Board::claim`]: held by `owner` until
/// `now_ms + ttl_ms`, stamped by `owner` at `now_ms`, fields kept.
pub open spec fn claimed_entry(e: EntryView, owner: Seq<char>, ttl_ms: u64, now_ms: u64) -> EntryView {
    EntryView {
        fields: e.fields,
        updated_by: Some(owner),
        updated_ms: now_ms,
        claimed_by: Some(owner),
        lease_ms: (now_ms + ttl_ms) as u64,
    }
}

/// The entry after [`Board::release`]: holder and lease cleared, stamped at
/// `now_ms`, fields and writer kept.
pub open spec fn released_entry(e: EntryView, now_ms: u64) -> EntryView {
    EntryView { claimed_by: None, lease_ms: 0, updated_ms: now_ms, ..e }
}

/// The board after `set(key, upd, by, now_ms)`.
pub open spec fn after_set(
    m: Map<Seq<char>, EntryView>,
    key: Seq<char>,
    upd: Seq<(Seq<char>, Seq<char>)>,
    by: Option<Seq<char>>,
    now_ms: u64,
) -> Map<Seq<char>, EntryView> {
    m.insert(key, set_entry(entry_or_default(m, key), upd, by, now_ms))
}

/// What `claim(key, owner, ttl_ms, now_ms)` answers: denied, naming the
/// holder and its lease, when the entry is held against `owner`; granted
/// otherwise.
pub open spec fn claim_result(
    m: Map<Seq<char>, EntryView>,
    key: Seq<char>,
    owner: Seq<char>,
    ttl_ms: u64,
    now_ms: u64,
) -> ClaimView {
    let e = entry_or_default(m, key);
    if held_against(e, owner, now_ms) {
        ClaimView::Denied { holder: e.claimed_by->0, lease_ms: e.lease_ms }
    } else {
        ClaimView::Granted(claimed_entry(e, owner, ttl_ms, now_ms))
    }
}

/// The board after `claim(key, owner, ttl_ms, now_ms)`: unchanged when denied.
pub open spec fn after_claim(
    m: Map<Seq<char>, EntryView>,
    key: Seq<char>,
    owner: Seq<char>,
    ttl_ms: u64,
    now_ms: u64,
) -> Map<Seq<char>, EntryView> {
    let e = entry_or_default(m, key);
    if held_against(e, owner, now_ms) {
        m
    } else {
        m.insert(key, claimed_entry(e, owner, ttl_ms, now_ms))
    }
}

/// The board after `release(key, now_ms)`: unchanged when `key` is absent.
pub open spec fn after_release(m: Map<Seq<char>, EntryView>, key: Seq<char>, now_ms: u64) -> Map<
    Seq<char>,
    EntryView,
> {
    if m.contains_key(key) {
        m.insert(key, released_entry(m[key], now_ms))
    } else {
        m
    }
}

/// The shared board: keyed entries, plus whether a mutation is waiting to be
/// written to the host's snapshot.
#[derive(Debug)]
pub struct Board {
    entries: SortedMap<Entry>,
    pending_write: bool,
}

impl View for Board {
    type V = Map<Seq<char>, EntryView>;

    closed spec fn view(&self) -> Map<Seq<char>, EntryView> {
        self.entries@
    }
}

impl Default for Board {
    /// An empty board.
    fn default() -> (r: Self)
        ensures
            r@ == Map::<Seq<char>, EntryView>::empty(),
            !r.has_pending_write(),
    {
        Board { entries: SortedMap::new(), pending_write: false }
    }
}

impl Board {
    /// Every stored entry has finitely many fields.
    #[verifier::type_invariant]
    spec fn inv(&self) -> bool {
        forall|k: Seq<char>| #[trigger]
            self.entries@.contains_key(k) ==> self.entries@[k].fields.dom().finite()
    }

    /// Store `e` for `key`.
    fn store(&mut self, key: String, e: Entry)
        requires
            e@.fields.dom().finite(),
        ensures
            final(self)@ == old(self)@.insert(key@, e@),
            final(self).has_pending_write() == old(self).has_pending_write(),
    {
        proof {
            use_type_invariant(&*self);
        }
        let mut entries: SortedMap<Entry> = SortedMap::new();
        std::mem::swap(&mut entries, &mut self.entries);
        entries.insert(key, e);
        self.entries = entries;
    }

    /// Remove `key`'s entry, giving it back if there was one.
    fn take_out(&mut self, key: &str) -> (r: Option<Entry>)
        ensures
            final(self)@ == old(self)@.remove(key@),
            r is Some == old(self)@.contains_key(key@),
            final(self).has_pending_write() == old(self).has_pending_write(),
    {
        proof {
            use_type_invariant(&*self);
        }
        let mut entries: SortedMap<Entry> = SortedMap::new();
        std::mem::swap(&mut entries, &mut self.entries);
        let r = entries.remove(key);
        self.entries = entries;
        r
    }

    /// Whether a mutation since the last [`Board::take_pending_write`] should
    /// be mirrored to the snapshot.
    pub closed spec fn has_pending_write(&self) -> bool {
        self.pending_write
    }

    /// An in-memory board.
    pub fn new() -> (r: Self)
        ensures
            r@ == Map::<Seq<char>, EntryView>::empty(),
            !r.has_pending_write(),
    {
        Self::default()
    }

    /// A board holding the given entries, with no pending write.
    pub(crate) fn from_entries(entries: SortedMap<Entry>) -> (r: Self)
        requires
            forall|k: Seq<char>| #[trigger]
                entries@.contains_key(k) ==> entries@[k].fields.dom().finite(),
        ensures
            r@ == entries@,
            !r.has_pending_write(),
    {
        Board { entries, pending_write: false }
    }

    /// Mark the board's state as to be written to the snapshot.
    fn persist(&mut self)
        ensures
            final(self)@ == old(self)@,
            final(self).has_pending_write(),
    {
        proof {
            use_type_invariant(&*self);
        }
        self.pending_write = true;
    }

    /// Whether a write is pending; clears the mark.
    pub fn take_pending_write(&mut self) -> (r: bool)
        ensures
            r == old(self).has_pending_write(),
            !final(self).has_pending_write(),
            final(self)@ == old(self)@,
    {
        proof {
            use_type_invariant(&*self);
        }
        let r = self.pending_write;
        self.pending_write = false;
        r
    }

    /// Whether `set(key, _, by, now_ms)` would renew a lease past the largest
    /// time stamp, an arithmetic overflow that `set` does not accept.
    pub fn set_overflows(&self, key: &str, by: Option<&str>, now_ms: u64) -> (r: bool)
        ensures
            r == (renews(entry_or_default(self@, key@), opt_str(by)) && now_ms + DEFAULT_LEASE_MS
                > u64::MAX),
    {
        match (by, self.entries.get(key)) {
            (Some(setter), Some(e)) => {
                let holds = match &e.claimed_by {
                    Some(owner) => same_key(setter, owner.as_str()),
                    None => false,
                };
                holds && now_ms > u64::MAX - DEFAULT_LEASE_MS
            },
            _ => false,
        }
    }

    /// Whether `claim(key, owner, ttl_ms, now_ms)` would grant a lease ending
    /// past the largest time stamp, an arithmetic overflow that `claim` does
    /// not accept.
    pub fn claim_overflows(&self, key: &str, owner: &str, ttl_ms: u64, now_ms: u64) -> (r: bool)
        ensures
            r == (!held_against(entry_or_default(self@, key@), owner@, now_ms) && now_ms + ttl_ms
                > u64::MAX),
    {
        let held = match self.entries.get(key) {
            Some(e) => e.held_against(owner, now_ms),
            None => false,
        };
        !held && now_ms > u64::MAX - ttl_ms
    }

    /// Merge `fields` into `key`'s entry (creating it if absent), stamping who
    /// and when. A field with an **empty** value is cleared; unmentioned fields
    /// are kept. The claim holder's write renews its lease. Returns the updated
    /// entry.
    pub fn set(&mut self, key: &str, fields: &[(String, String)], by: Option<&str>, now_ms: u64) -> (r: Entry)
        requires
            renews(entry_or_default(old(self)@, key@), opt_str(by)) ==> now_ms + DEFAULT_LEASE_MS
                <= u64::MAX,
        ensures
            r@ == set_entry(entry_or_default(old(self)@, key@), pairs_of(fields@), opt_str(by), now_ms),
            final(self)@ == after_set(old(self)@, key@, pairs_of(fields@), opt_str(by), now_ms),
            final(self).has_pending_write(),
    {
        proof {
            use_type_invariant(&*self);
        }
        let ghost base = entry_or_default(self@, key@);
        let ghost upd = pairs_of(fields@);
        let mut e = match self.entries.get(key) {
            Some(x) => x.clone(),
            None => Entry::default(),
        };
        let mut i: usize = 0;
        while i < fields.len()
            invariant
                i <= fields@.len(),
                upd == pairs_of(fields@),
                e@ == (EntryView { fields: merge_fields(base.fields, upd.take(i as int)), ..base }),
                e@.fields.dom().finite(),
            decreases fields@.len() - i,
        {
            let pair = &fields[i];
            if pair.1.as_str().is_empty() {
                e.fields.remove(pair.0.as_str());
            } else {
                e.fields.insert(pair.0.clone(), pair.1.clone());
            }
            proof {
                assert(upd.take(i + 1).drop_last() =~= upd.take(i as int));
            }
            i = i + 1;
        }
        proof {
            assert(upd.take(i as int) =~= upd);
        }
        if let Some(setter) = by {
            let renew = match &e.claimed_by {
                Some(owner) => same_key(setter, owner.as_str()),
                None => false,
            };
            if renew {
                e.lease_ms = now_ms + DEFAULT_LEASE_MS;
            }
        }
        e.updated_by = own_text(by);
        e.updated_ms = now_ms;
        let out = e.clone();
        self.store(key.to_owned(), e);
        self.persist();
        out
    }

    /// Atomically **claim** `key` for `owner` with a `ttl_ms` lease. Grants when
    /// the task is free, its lease has lapsed, or `owner` already holds it (an
    /// idempotent renew). Denies, writing nothing, when someone else holds an
    /// unexpired lease.
    pub fn claim(&mut self, key: &str, owner: &str, ttl_ms: u64, now_ms: u64) -> (r: Claim)
        requires
            !held_against(entry_or_default(old(self)@, key@), owner@, now_ms) ==> now_ms + ttl_ms
                <= u64::MAX,
        ensures
            r@ == claim_result(old(self)@, key@, owner@, ttl_ms, now_ms),
            final(self)@ == after_claim(old(self)@, key@, owner@, ttl_ms, now_ms),
            final(self).has_pending_write() == (old(self).has_pending_write()
                || r@ is Granted),
    {
        proof {
            use_type_invariant(&*self);
        }
        let mut e = match self.entries.get(key) {
            Some(x) => x.clone(),
            None => Entry::default(),
        };
        if e.held_against(owner, now_ms) {
            let holder = match &e.claimed_by {
                Some(h) => h.clone(),
                None => String::new(),
            };
            return Claim::Denied { holder, lease_ms: e.lease_ms };
        }
        e.claimed_by = Some(owner.to_owned());
        e.lease_ms = now_ms + ttl_ms;
        e.updated_by = Some(owner.to_owned());
        e.updated_ms = now_ms;
        let out = e.clone();
        self.store(key.to_owned(), e);
        self.persist();
        Claim::Granted(out)
    }

    /// **Release** `key`'s claim, clearing the holder and lease but keeping its
    /// fields. `true` if the entry existed.
    pub fn release(&mut self, key: &str, now_ms: u64) -> (r: bool)
        ensures
            r == old(self)@.contains_key(key@),
            final(self)@ == after_release(old(self)@, key@, now_ms),
            final(self).has_pending_write() == (old(self).has_pending_write() || r),
    {
        proof {
            use_type_invariant(&*self);
        }
        match self.entries.get(key) {
            Some(x) => {
                let mut e = x.clone();
                e.claimed_by = None;
                e.lease_ms = 0;
                e.updated_ms = now_ms;
                self.store(key.to_owned(), e);
                self.persist();
                true
            },
            None => false,
        }
    }

    /// One entry, if present.
    pub fn get(&self, key: &str) -> (r: Option<&Entry>)
        ensures
            r is Some == self@.contains_key(key@),
            r matches Some(e) ==> e@ == self@[key@] && e@.fields.dom().finite(),
    {
        proof {
            use_type_invariant(self);
        }
        self.entries.get(key)
    }

    /// Every `(key, entry)`, in ascending key order.
    pub fn list(&self) -> (r: Vec<(&String, &Entry)>)
        ensures
            r@.map_values(|p: (&String, &Entry)| (p.0@, p.1@)) == listing(self@),
            map_of(listing(self@)) == self@,
            self@.dom().finite(),
            forall|k: Seq<char>| #[trigger]
                self@.contains_key(k) ==> self@[k].fields.dom().finite(),
            forall|i: int, j: int|
                0 <= i < j < r@.len() ==> key_lt((#[trigger] r@[i]).0@, (#[trigger] r@[j]).0@),
            forall|k: Seq<char>| #[trigger]
                self@.contains_key(k) <==> exists|i: int| 0 <= i < r@.len() && r@[i].0@ == k,
            forall|i: int| 0 <= i < r@.len() ==> #[trigger] self@[r@[i].0@] == r@[i].1@,
    {
        proof {
            use_type_invariant(self);
        }
        let r = self.entries.iter_pairs();
        proof {
            lemma_listing_exists(self@);
        }
        r
    }

    /// Remove an entry; `true` if it existed.
    pub fn del(&mut self, key: &str) -> (r: bool)
        ensures
            r == old(self)@.contains_key(key@),
            final(self)@ == old(self)@.remove(key@),
            final(self).has_pending_write() == (old(self).has_pending_write() || r),
    {
        let had = self.take_out(key).is_some();
        if had {
            self.persist();
        }
        had
    }
}

} // verus!
