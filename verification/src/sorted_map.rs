//! A map from text keys to values, kept as a vector of pairs in strictly
//! ascending key order (see [`crate::keys`]).
//!
//! It stands where a `BTreeMap<String, _>` would: vstd declares `BTreeMap`,
//! but its specification rests on the key type's order being known to the
//! verifier, which `String`'s is not, so nothing about such a map can be
//! proved. This map states its order and its contents as a `Map`.

use vstd::prelude::*;
use crate::keys::{key_lt, lemma_key_order, order_keys, KeyOrder};

verus! {

/// The map that a list of pairs describes: a later pair for a key wins.
pub open spec fn map_of<W>(ps: Seq<(Seq<char>, W)>) -> Map<Seq<char>, W>
    decreases ps.len(),
{
    if ps.len() == 0 {
        Map::empty()
    } else {
        map_of(ps.drop_last()).insert(ps.last().0, ps.last().1)
    }
}

/// The keys of a list of pairs ascend strictly.
pub open spec fn ascending<W>(ps: Seq<(Seq<char>, W)>) -> bool {
    forall|i: int, j: int| 0 <= i < j < ps.len() ==> key_lt(#[trigger] ps[i].0, #[trigger] ps[j].0)
}

/// No key occurs twice in a list of pairs.
pub open spec fn distinct_keys<W>(ps: Seq<(Seq<char>, W)>) -> bool {
    forall|i: int, j: int| 0 <= i < j < ps.len() ==> #[trigger] ps[i].0 != #[trigger] ps[j].0
}

/// Ascending keys are distinct.
pub proof fn lemma_ascending_distinct<W>(ps: Seq<(Seq<char>, W)>)
    requires
        ascending(ps),
    ensures
        distinct_keys(ps),
{
    assert forall|i: int, j: int| 0 <= i < j < ps.len() implies #[trigger] ps[i].0
        != #[trigger] ps[j].0 by {
        lemma_key_order(ps[i].0, ps[j].0, ps[j].0);
    }
}

/// What `map_of` holds: exactly the keys of the list, each with its value.
pub proof fn lemma_map_of<W>(ps: Seq<(Seq<char>, W)>)
    requires
        distinct_keys(ps),
    ensures
        forall|k: Seq<char>| #[trigger]
            map_of(ps).contains_key(k) <==> exists|i: int| 0 <= i < ps.len() && ps[i].0 == k,
        forall|i: int| 0 <= i < ps.len() ==> #[trigger] map_of(ps)[ps[i].0] == ps[i].1,
    decreases ps.len(),
{
    if ps.len() > 0 {
        let init = ps.drop_last();
        let last = ps.last();
        assert(init.len() == ps.len() - 1);
        assert(forall|i: int| 0 <= i < init.len() ==> init[i] == ps[i]);
        assert(distinct_keys(init)) by {
            assert forall|i: int, j: int| 0 <= i < j < init.len() implies #[trigger] init[i].0
                != #[trigger] init[j].0 by {
                assert(ps[i].0 != ps[j].0);
            }
        }
        lemma_map_of(init);
        assert(map_of(ps) == map_of(init).insert(last.0, last.1));
        assert forall|k: Seq<char>| #[trigger]
            map_of(ps).contains_key(k) <==> exists|i: int| 0 <= i < ps.len() && ps[i].0 == k by {
            if map_of(ps).contains_key(k) {
                if k == last.0 {
                    assert(ps[ps.len() - 1].0 == k);
                } else {
                    assert(map_of(init).contains_key(k));
                    let i = choose|i: int| 0 <= i < init.len() && init[i].0 == k;
                    assert(ps[i].0 == k);
                }
            }
            if exists|i: int| 0 <= i < ps.len() && ps[i].0 == k {
                let i = choose|i: int| 0 <= i < ps.len() && ps[i].0 == k;
                if i < init.len() {
                    assert(init[i].0 == k);
                    assert(map_of(init).contains_key(k));
                }
            }
        }
        assert forall|i: int| 0 <= i < ps.len() implies #[trigger] map_of(ps)[ps[i].0] == ps[i].1 by {
            if i < init.len() {
                assert(init[i] == ps[i]);
                assert(ps[i].0 != ps[ps.len() - 1].0);
                assert(map_of(init)[init[i].0] == init[i].1);
            }
        }
    }
}

/// A list with distinct keys describes `m` when it holds exactly the keys of
/// `m`, each with its value in `m`.
pub proof fn lemma_map_of_same<W>(ps: Seq<(Seq<char>, W)>, m: Map<Seq<char>, W>)
    requires
        distinct_keys(ps),
        forall|k: Seq<char>| #[trigger]
            m.contains_key(k) <==> exists|i: int| 0 <= i < ps.len() && ps[i].0 == k,
        forall|i: int| 0 <= i < ps.len() ==> #[trigger] m[ps[i].0] == ps[i].1,
    ensures
        map_of(ps) == m,
{
    lemma_map_of(ps);
    assert forall|k: Seq<char>| #[trigger] map_of(ps).contains_key(k) implies map_of(ps)[k]
        == m[k] by {
        let i = choose|i: int| 0 <= i < ps.len() && ps[i].0 == k;
        assert(map_of(ps)[ps[i].0] == ps[i].1);
    }
    assert(map_of(ps) =~= m);
}

/// The listing of a map: its pairs in ascending key order (see
/// [`lemma_listing`] and [`lemma_listing_exists`]).
pub open spec fn listing<W>(m: Map<Seq<char>, W>) -> Seq<(Seq<char>, W)> {
    choose|ps: Seq<(Seq<char>, W)>| ascending(ps) && map_of(ps) == m
}

/// Dropping the last of a list of pairs with distinct keys removes its key.
pub proof fn lemma_map_of_drop_last<W>(ps: Seq<(Seq<char>, W)>)
    requires
        distinct_keys(ps),
        ps.len() > 0,
    ensures
        map_of(ps.drop_last()) == map_of(ps).remove(ps.last().0),
        distinct_keys(ps.drop_last()),
{
    let init = ps.drop_last();
    assert(forall|i: int| 0 <= i < init.len() ==> init[i] == ps[i]);
    assert(distinct_keys(init)) by {
        assert forall|i: int, j: int| 0 <= i < j < init.len() implies #[trigger] init[i].0
            != #[trigger] init[j].0 by {
            assert(ps[i].0 != ps[j].0);
        }
    }
    lemma_map_of(init);
    if map_of(init).contains_key(ps.last().0) {
        let i = choose|i: int| 0 <= i < init.len() && init[i].0 == ps.last().0;
        assert(ps[i].0 != ps[ps.len() - 1].0);
    }
    assert(map_of(init) =~= map_of(ps).remove(ps.last().0));
}

/// Two ascending lists that describe the same map are the same list.
pub proof fn lemma_listing_unique<W>(ps: Seq<(Seq<char>, W)>, qs: Seq<(Seq<char>, W)>)
    requires
        ascending(ps),
        ascending(qs),
        map_of(ps) == map_of(qs),
    ensures
        ps == qs,
    decreases ps.len(),
{
    lemma_ascending_distinct(ps);
    lemma_ascending_distinct(qs);
    lemma_map_of(ps);
    lemma_map_of(qs);
    if ps.len() == 0 || qs.len() == 0 {
        if ps.len() > 0 {
            assert(map_of(ps).contains_key(ps[0].0));
        }
        if qs.len() > 0 {
            assert(map_of(qs).contains_key(qs[0].0));
        }
        assert(ps =~= qs);
    } else {
        let a = ps.last().0;
        let b = qs.last().0;
        assert(map_of(ps).contains_key(ps[ps.len() - 1].0));
        assert(map_of(qs).contains_key(qs[qs.len() - 1].0));
        let j = choose|j: int| 0 <= j < qs.len() && qs[j].0 == a;
        let i = choose|i: int| 0 <= i < ps.len() && ps[i].0 == b;
        if j < qs.len() - 1 && i < ps.len() - 1 {
            lemma_key_order(a, b, a);
        } else if j < qs.len() - 1 {
            assert(a == b);
        } else if i < ps.len() - 1 {
            assert(a == b);
        }
        assert(a == b);
        assert(map_of(ps)[ps[ps.len() - 1].0] == ps.last().1);
        assert(map_of(qs)[qs[qs.len() - 1].0] == qs.last().1);
        lemma_map_of_drop_last(ps);
        lemma_map_of_drop_last(qs);
        let ip = ps.drop_last();
        let iq = qs.drop_last();
        assert(ascending(ip)) by {
            assert forall|x: int, y: int| 0 <= x < y < ip.len() implies key_lt(
                #[trigger] ip[x].0,
                #[trigger] ip[y].0,
            ) by {
                assert(ip[x] == ps[x] && ip[y] == ps[y]);
            }
        }
        assert(ascending(iq)) by {
            assert forall|x: int, y: int| 0 <= x < y < iq.len() implies key_lt(
                #[trigger] iq[x].0,
                #[trigger] iq[y].0,
            ) by {
                assert(iq[x] == qs[x] && iq[y] == qs[y]);
            }
        }
        lemma_listing_unique(ip, iq);
        assert(ps =~= ip.push(ps.last()));
        assert(qs =~= iq.push(qs.last()));
    }
}

/// An ascending list is the listing of the map it describes.
pub proof fn lemma_listing<W>(ps: Seq<(Seq<char>, W)>)
    requires
        ascending(ps),
    ensures
        listing(map_of(ps)) == ps,
{
    let qs = listing(map_of(ps));
    assert(ascending(qs) && map_of(qs) == map_of(ps));
    lemma_listing_unique(qs, ps);
}

/// A nonempty finite set of keys has a greatest key.
pub proof fn lemma_greatest_key(s: Set<Seq<char>>) -> (x: Seq<char>)
    requires
        s.finite(),
        s.len() > 0,
    ensures
        s.contains(x),
        forall|y: Seq<char>| #[trigger] s.contains(y) ==> y == x || key_lt(y, x),
    decreases s.len(),
{
    let a = s.choose();
    let rest = s.remove(a);
    if rest.len() == 0 {
        assert forall|y: Seq<char>| #[trigger] s.contains(y) implies y == a || key_lt(y, a) by {
            if y != a {
                assert(rest.contains(y));
            }
        }
        a
    } else {
        let b = lemma_greatest_key(rest);
        lemma_key_order(a, b, a);
        if key_lt(b, a) {
            assert forall|y: Seq<char>| #[trigger] s.contains(y) implies y == a || key_lt(y, a) by {
                if y != a {
                    assert(rest.contains(y));
                    lemma_key_order(y, b, a);
                }
            }
            a
        } else {
            assert forall|y: Seq<char>| #[trigger] s.contains(y) implies y == b || key_lt(y, b) by {
                if y != a {
                    assert(rest.contains(y));
                }
            }
            b
        }
    }
}

/// Every map over finitely many keys has a listing.
pub proof fn lemma_listing_exists<W>(m: Map<Seq<char>, W>)
    requires
        m.dom().finite(),
    ensures
        ascending(listing(m)),
        map_of(listing(m)) == m,
    decreases m.dom().len(),
{
    if m.dom().len() == 0 {
        let ps = Seq::<(Seq<char>, W)>::empty();
        assert(m.dom() =~= Set::empty());
        assert(map_of(ps) =~= m);
        assert(ascending(ps));
    } else {
        let x = lemma_greatest_key(m.dom());
        let rest = m.remove(x);
        assert(rest.dom() =~= m.dom().remove(x));
        lemma_listing_exists(rest);
        let qs = listing(rest);
        let ps = qs.push((x, m[x]));
        lemma_ascending_distinct(qs);
        lemma_map_of(qs);
        assert(ascending(ps)) by {
            assert forall|i: int, j: int| 0 <= i < j < ps.len() implies key_lt(
                #[trigger] ps[i].0,
                #[trigger] ps[j].0,
            ) by {
                assert(ps[i] == qs[i]);
                if j < qs.len() {
                    assert(ps[j] == qs[j]);
                } else {
                    assert(rest.contains_key(qs[i].0));
                    assert(m.dom().contains(qs[i].0));
                }
            }
        }
        assert(ps.drop_last() =~= qs);
        assert(map_of(ps) =~= m);
    }
}

/// A list of `(key, value)` pairs, each by its view.
pub open spec fn pairs_of<V: View>(items: Seq<(String, V)>) -> Seq<(Seq<char>, V::V)> {
    items.map_values(|p: (String, V)| (p.0@, p.1@))
}

/// A map from text keys to values with its pairs in ascending key order.
#[derive(Debug, PartialEq, Eq)]
pub struct SortedMap<V: View> {
    items: Vec<(String, V)>,
}

impl<V: View> SortedMap<V> {
    /// The pairs, key by key in ascending order, each by its view.
    pub closed spec fn pairs(&self) -> Seq<(Seq<char>, V::V)> {
        pairs_of(self.items@)
    }

    /// The pairs ascend strictly by key.
    #[verifier::type_invariant]
    spec fn inv(&self) -> bool {
        ascending(self.pairs())
    }

    /// Facts about the pairs and the map that they describe.
    proof fn lemma_pairs(&self)
        requires
            ascending(self.pairs()),
        ensures
            ascending(self.pairs()),
            distinct_keys(self.pairs()),
            self@ == map_of(self.pairs()),
            forall|k: Seq<char>| #[trigger]
                self@.contains_key(k) <==> exists|i: int|
                    0 <= i < self.pairs().len() && self.pairs()[i].0 == k,
            forall|i: int|
                0 <= i < self.pairs().len() ==> #[trigger] self@[self.pairs()[i].0]
                    == self.pairs()[i].1,
    {
        lemma_ascending_distinct(self.pairs());
        lemma_map_of(self.pairs());
    }

    /// An empty map.
    pub fn new() -> (r: Self)
        ensures
            r@ == Map::<Seq<char>, V::V>::empty(),
            r.pairs() == Seq::<(Seq<char>, V::V)>::empty(),
    {
        let r = SortedMap { items: Vec::new() };
        assert(r.pairs() =~= Seq::<(Seq<char>, V::V)>::empty());
        r
    }

    /// Where `key` stands: `Ok` with its position, or `Err` with the position
    /// at which it would be inserted.
    fn search(&self, key: &str) -> (r: Result<usize, usize>)
        requires
            ascending(self.pairs()),
        ensures
            match r {
                Ok(i) => i < self.pairs().len() && self.pairs()[i as int].0 == key@,
                Err(i) => i <= self.pairs().len() && (forall|j: int|
                    0 <= j < i ==> key_lt(#[trigger] self.pairs()[j].0, key@)) && (forall|j: int|
                    i <= j < self.pairs().len() ==> key_lt(key@, #[trigger] self.pairs()[j].0)),
            },
    {
        let ghost ps = self.pairs();
        let mut lo: usize = 0;
        let mut hi: usize = self.items.len();
        while lo < hi
            invariant
                ps == self.pairs(),
                ascending(ps),
                lo <= hi <= ps.len(),
                ps.len() == self.items@.len(),
                forall|j: int| 0 <= j < lo ==> key_lt(#[trigger] ps[j].0, key@),
                forall|j: int| hi <= j < ps.len() ==> key_lt(key@, #[trigger] ps[j].0),
            decreases hi - lo,
        {
            let mid = lo + (hi - lo) / 2;
            let probe: &String = &self.items[mid].0;
            assert(ps[mid as int].0 == probe@);
            match order_keys(key, probe.as_str()) {
                KeyOrder::Equal => {
                    return Ok(mid);
                },
                KeyOrder::Less => {
                    assert forall|j: int| mid <= j < ps.len() implies key_lt(
                        key@,
                        #[trigger] ps[j].0,
                    ) by {
                        if j > mid {
                            lemma_key_order(key@, ps[mid as int].0, ps[j].0);
                        }
                    }
                    hi = mid;
                },
                KeyOrder::Greater => {
                    assert forall|j: int| 0 <= j < mid + 1 implies key_lt(
                        #[trigger] ps[j].0,
                        key@,
                    ) by {
                        if j < mid {
                            lemma_key_order(ps[j].0, ps[mid as int].0, key@);
                        }
                    }
                    lo = mid + 1;
                },
            }
        }
        Err(lo)
    }

    /// Whether a search miss means the key is absent.
    proof fn lemma_absent(&self, key: Seq<char>, i: int)
        requires
            ascending(self.pairs()),
            0 <= i <= self.pairs().len(),
            forall|j: int| 0 <= j < i ==> key_lt(#[trigger] self.pairs()[j].0, key),
            forall|j: int| i <= j < self.pairs().len() ==> key_lt(key, #[trigger] self.pairs()[j].0),
        ensures
            !self@.contains_key(key),
    {
        self.lemma_pairs();
        if self@.contains_key(key) {
            let j = choose|j: int| 0 <= j < self.pairs().len() && self.pairs()[j].0 == key;
            lemma_key_order(key, key, key);
        }
    }

    /// The value held for `key`, if any.
    pub fn get(&self, key: &str) -> (r: Option<&V>)
        ensures
            r is Some == self@.contains_key(key@),
            r matches Some(v) ==> v@ == self@[key@],
    {
        proof {
            use_type_invariant(self);
            self.lemma_pairs();
        }
        match self.search(key) {
            Ok(i) => Some(&self.items[i].1),
            Err(i) => {
                proof {
                    self.lemma_absent(key@, i as int);
                }
                None
            },
        }
    }

    /// Whether `key` is held.
    pub fn contains_key(&self, key: &str) -> (r: bool)
        ensures
            r == self@.contains_key(key@),
    {
        self.get(key).is_some()
    }

    /// Hold `value` for `key`, replacing any value it had.
    pub fn insert(&mut self, key: String, value: V)
        ensures
            final(self)@ == old(self)@.insert(key@, value@),
    {
        let ghost ps = self.pairs();
        let ghost k = key@;
        let ghost w = value@;
        proof {
            use_type_invariant(&*self);
            self.lemma_pairs();
        }
        match self.search(key.as_str()) {
            Ok(i) => {
                let mut items: Vec<(String, V)> = Vec::new();
                std::mem::swap(&mut items, &mut self.items);
                items.set(i, (key, value));
                let ghost qs = pairs_of(items@);
                proof {
                    assert(qs =~= ps.update(i as int, (k, w)));
                    assert(ascending(qs));
                    lemma_ascending_distinct(qs);
                    assert forall|x: Seq<char>| #[trigger]
                        old(self)@.insert(k, w).contains_key(x) <==> exists|j: int|
                            0 <= j < qs.len() && qs[j].0 == x by {
                        if exists|j: int| 0 <= j < ps.len() && ps[j].0 == x {
                            let j = choose|j: int| 0 <= j < ps.len() && ps[j].0 == x;
                            assert(qs[j].0 == x);
                        }
                        if exists|j: int| 0 <= j < qs.len() && qs[j].0 == x {
                            let j = choose|j: int| 0 <= j < qs.len() && qs[j].0 == x;
                            assert(ps[j].0 == x);
                        }
                    }
                    assert forall|j: int| 0 <= j < qs.len() implies #[trigger] old(self)@.insert(
                        k,
                        w,
                    )[qs[j].0] == qs[j].1 by {
                        if j != i {
                            assert(ps[j].0 != ps[i as int].0);
                        }
                    }
                    lemma_map_of_same(qs, old(self)@.insert(k, w));
                }
                self.items = items;
            },
            Err(i) => {
                proof {
                    self.lemma_absent(k, i as int);
                }
                let mut items: Vec<(String, V)> = Vec::new();
                std::mem::swap(&mut items, &mut self.items);
                items.insert(i, (key, value));
                let ghost qs = pairs_of(items@);
                proof {
                    assert(qs =~= ps.insert(i as int, (k, w)));
                    assert forall|a: int, b: int| 0 <= a < b < qs.len() implies key_lt(
                        #[trigger] qs[a].0,
                        #[trigger] qs[b].0,
                    ) by {
                        if a < i && b == i {
                        } else if a < i && b > i {
                            assert(qs[b] == ps[b - 1]);
                            lemma_key_order(ps[a].0, k, ps[b - 1].0);
                        } else if a == i {
                            assert(qs[b] == ps[b - 1]);
                        } else if a > i {
                            assert(qs[a] == ps[a - 1]);
                            assert(qs[b] == ps[b - 1]);
                        } else {
                            assert(qs[a] == ps[a]);
                            assert(qs[b] == ps[b]);
                        }
                    }
                    lemma_ascending_distinct(qs);
                    assert forall|x: Seq<char>| #[trigger]
                        old(self)@.insert(k, w).contains_key(x) <==> exists|j: int|
                            0 <= j < qs.len() && qs[j].0 == x by {
                        if exists|j: int| 0 <= j < ps.len() && ps[j].0 == x {
                            let j = choose|j: int| 0 <= j < ps.len() && ps[j].0 == x;
                            if j < i {
                                assert(qs[j].0 == x);
                            } else {
                                assert(qs[j + 1].0 == x);
                            }
                        }
                        if x == k {
                            assert(qs[i as int].0 == x);
                        }
                        if exists|j: int| 0 <= j < qs.len() && qs[j].0 == x {
                            let j = choose|j: int| 0 <= j < qs.len() && qs[j].0 == x;
                            if j < i {
                                assert(ps[j].0 == x);
                            } else if j > i {
                                assert(ps[j - 1].0 == x);
                            }
                        }
                    }
                    assert forall|j: int| 0 <= j < qs.len() implies #[trigger] old(self)@.insert(
                        k,
                        w,
                    )[qs[j].0] == qs[j].1 by {
                        if j < i {
                            assert(qs[j] == ps[j]);
                        } else if j > i {
                            assert(qs[j] == ps[j - 1]);
                        }
                    }
                    lemma_map_of_same(qs, old(self)@.insert(k, w));
                }
                self.items = items;
            },
        }
    }

    /// Remove `key`, giving back its value if it was held.
    pub fn remove(&mut self, key: &str) -> (r: Option<V>)
        ensures
            final(self)@ == old(self)@.remove(key@),
            r is Some == old(self)@.contains_key(key@),
            r matches Some(v) ==> v@ == old(self)@[key@],
    {
        let ghost ps = self.pairs();
        let ghost k = key@;
        proof {
            use_type_invariant(&*self);
            self.lemma_pairs();
        }
        match self.search(key) {
            Ok(i) => {
                let mut items: Vec<(String, V)> = Vec::new();
                std::mem::swap(&mut items, &mut self.items);
                let (_, v) = items.remove(i);
                let ghost qs = pairs_of(items@);
                proof {
                    assert(qs =~= ps.remove(i as int));
                    assert forall|a: int, b: int| 0 <= a < b < qs.len() implies key_lt(
                        #[trigger] qs[a].0,
                        #[trigger] qs[b].0,
                    ) by {
                        if a >= i {
                            assert(qs[a] == ps[a + 1]);
                        } else {
                            assert(qs[a] == ps[a]);
                        }
                        if b >= i {
                            assert(qs[b] == ps[b + 1]);
                        } else {
                            assert(qs[b] == ps[b]);
                        }
                    }
                    lemma_ascending_distinct(qs);
                    assert forall|x: Seq<char>| #[trigger]
                        old(self)@.remove(k).contains_key(x) <==> exists|j: int|
                            0 <= j < qs.len() && qs[j].0 == x by {
                        if exists|j: int| 0 <= j < ps.len() && ps[j].0 == x && x != k {
                            let j = choose|j: int| 0 <= j < ps.len() && ps[j].0 == x && x != k;
                            if j < i {
                                assert(qs[j].0 == x);
                            } else {
                                assert(qs[j - 1].0 == x);
                            }
                        }
                        if exists|j: int| 0 <= j < qs.len() && qs[j].0 == x {
                            let j = choose|j: int| 0 <= j < qs.len() && qs[j].0 == x;
                            if j < i {
                                assert(ps[j].0 == x);
                            } else {
                                assert(ps[j + 1].0 == x);
                            }
                        }
                    }
                    assert forall|j: int| 0 <= j < qs.len() implies #[trigger] old(self)@.remove(
                        k,
                    )[qs[j].0] == qs[j].1 by {
                        if j < i {
                            assert(qs[j] == ps[j]);
                        } else {
                            assert(qs[j] == ps[j + 1]);
                        }
                    }
                    lemma_map_of_same(qs, old(self)@.remove(k));
                }
                self.items = items;
                Some(v)
            },
            Err(i) => {
                proof {
                    self.lemma_absent(k, i as int);
                    assert(old(self)@.remove(k) =~= old(self)@);
                }
                None
            },
        }
    }

    /// Every `(key, value)` pair, in ascending key order.
    pub fn iter_pairs(&self) -> (r: Vec<(&String, &V)>)
        ensures
            r@.len() == self.pairs().len(),
            forall|i: int|
                0 <= i < r@.len() ==> (#[trigger] r@[i]).0@ == self.pairs()[i].0 && r@[i].1@
                    == self.pairs()[i].1,
            forall|i: int, j: int|
                0 <= i < j < r@.len() ==> key_lt((#[trigger] r@[i]).0@, (#[trigger] r@[j]).0@),
            forall|k: Seq<char>| #[trigger]
                self@.contains_key(k) <==> exists|i: int| 0 <= i < r@.len() && r@[i].0@ == k,
            forall|i: int| 0 <= i < r@.len() ==> #[trigger] self@[r@[i].0@] == r@[i].1@,
            r@.map_values(|p: (&String, &V)| (p.0@, p.1@)) == listing(self@),
            self@.dom().finite(),
    {
        proof {
            use_type_invariant(self);
            self.lemma_pairs();
            lemma_listing(self.pairs());
            lemma_map_of_len(self.pairs());
        }
        let mut out: Vec<(&String, &V)> = Vec::new();
        let mut i: usize = 0;
        while i < self.items.len()
            invariant
                i <= self.items@.len(),
                out@.len() == i,
                forall|j: int|
                    0 <= j < i ==> (#[trigger] out@[j]).0@ == self.pairs()[j].0 && out@[j].1@
                        == self.pairs()[j].1,
            decreases self.items@.len() - i,
        {
            let p = &self.items[i];
            out.push((&p.0, &p.1));
            i = i + 1;
        }
        proof {
            let ps = self.pairs();
            assert forall|i: int, j: int| 0 <= i < j < out@.len() implies key_lt(
                (#[trigger] out@[i]).0@,
                (#[trigger] out@[j]).0@,
            ) by {
                assert(key_lt(ps[i].0, ps[j].0));
            }
            assert forall|k: Seq<char>| #[trigger]
                self@.contains_key(k) <==> exists|i: int| 0 <= i < out@.len() && out@[i].0@ == k by {
                if self@.contains_key(k) {
                    let i = choose|i: int| 0 <= i < ps.len() && ps[i].0 == k;
                    assert(out@[i].0@ == k);
                }
                if exists|i: int| 0 <= i < out@.len() && out@[i].0@ == k {
                    let i = choose|i: int| 0 <= i < out@.len() && out@[i].0@ == k;
                    assert(ps[i].0 == k);
                }
            }
            assert forall|i: int| 0 <= i < out@.len() implies #[trigger] self@[out@[i].0@]
                == out@[i].1@ by {
                assert(self@[ps[i].0] == ps[i].1);
            }
            assert(out@.map_values(|p: (&String, &V)| (p.0@, p.1@)) =~= ps);
        }
        out
    }
}

/// The number of keys of a map built from pairs with distinct keys.
pub proof fn lemma_map_of_len<W>(ps: Seq<(Seq<char>, W)>)
    requires
        distinct_keys(ps),
    ensures
        map_of(ps).dom().finite(),
        map_of(ps).dom().len() == ps.len(),
    decreases ps.len(),
{
    if ps.len() > 0 {
        let init = ps.drop_last();
        assert(forall|i: int| 0 <= i < init.len() ==> init[i] == ps[i]);
        assert(distinct_keys(init)) by {
            assert forall|i: int, j: int| 0 <= i < j < init.len() implies #[trigger] init[i].0
                != #[trigger] init[j].0 by {
                assert(ps[i].0 != ps[j].0);
            }
        }
        lemma_map_of_len(init);
        lemma_map_of(init);
        if map_of(init).contains_key(ps.last().0) {
            let i = choose|i: int| 0 <= i < init.len() && init[i].0 == ps.last().0;
            assert(ps[i].0 != ps[ps.len() - 1].0);
        }
        assert(map_of(ps).dom() =~= map_of(init).dom().insert(ps.last().0));
    }
}

impl<V: View> SortedMap<V> {
    /// The number of keys held.
    pub fn len(&self) -> (r: usize)
        ensures
            r == self@.dom().len(),
            self@.dom().finite(),
    {
        proof {
            use_type_invariant(self);
            self.lemma_pairs();
            lemma_map_of_len(self.pairs());
        }
        self.items.len()
    }
}

impl Clone for SortedMap<String> {
    /// A copy holding the same pairs.
    fn clone(&self) -> (r: Self)
        ensures
            r@ == self@,
    {
        proof {
            use_type_invariant(self);
        }
        let mut items: Vec<(String, String)> = Vec::new();
        let mut i: usize = 0;
        while i < self.items.len()
            invariant
                i <= self.items@.len(),
                pairs_of(items@) =~= self.pairs().take(i as int),
            decreases self.items@.len() - i,
        {
            let p = &self.items[i];
            items.push((p.0.clone(), p.1.clone()));
            proof {
                assert(self.pairs().take(i + 1) =~= self.pairs().take(i as int).push(
                    self.pairs()[i as int],
                ));
            }
            i = i + 1;
        }
        proof {
            assert(self.pairs().take(i as int) =~= self.pairs());
        }
        SortedMap { items }
    }
}

impl<V: View> Default for SortedMap<V> {
    /// An empty map.
    fn default() -> (r: Self)
        ensures
            r@ == Map::<Seq<char>, V::V>::empty(),
    {
        Self::new()
    }
}

impl<V: View> View for SortedMap<V> {
    type V = Map<Seq<char>, V::V>;

    closed spec fn view(&self) -> Map<Seq<char>, V::V> {
        map_of(self.pairs())
    }
}

} // verus!
