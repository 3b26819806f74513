//! Ordered collections: maps keyed by strings and sets of addresses.
//!
//! Both keep their contents in a vector in strictly increasing order, so nothing occurs twice and
//! walking one of them gives its contents in order.
use crate::addr::{addr_lt, IpAddr};
use crate::text::{same, text_less, text_lt, text_lt_irreflexive, text_lt_total,
    text_lt_transitive};
use vstd::prelude::*;

verus! {

/// The value of a key in a list of pairs of which no two have the same key.
pub open spec fn lookup<T>(pairs: Seq<(Seq<char>, T)>, key: Seq<char>) -> Option<T> {
    if exists|i: int| 0 <= i < pairs.len() && (#[trigger] pairs[i]).0 == key {
        Some(pairs[choose|i: int| 0 <= i < pairs.len() && (#[trigger] pairs[i]).0 == key].1)
    } else {
        None
    }
}

/// Whether the keys of a list of pairs are in strictly increasing order.
pub open spec fn keys_increase<T>(pairs: Seq<(Seq<char>, T)>) -> bool {
    forall|i: int, j: int|
        0 <= i < j < pairs.len() ==> text_lt((#[trigger] pairs[i]).0, (#[trigger] pairs[j]).0)
}

/// The map of a list of pairs.
pub open spec fn map_of<T>(pairs: Seq<(Seq<char>, T)>) -> Map<Seq<char>, T> {
    Map::new(|key: Seq<char>| lookup(pairs, key) is Some, |key: Seq<char>| lookup(pairs, key)->0)
}

/// In a list of pairs with increasing keys, a pair gives the value of its key.
pub proof fn lemma_lookup<T>(pairs: Seq<(Seq<char>, T)>, i: int)
    requires
        keys_increase(pairs),
        0 <= i < pairs.len(),
    ensures
        lookup(pairs, pairs[i].0) == Some(pairs[i].1),
{
    let key = pairs[i].0;
    let k = choose|k: int| 0 <= k < pairs.len() && (#[trigger] pairs[k]).0 == key;
    assert(pairs[i].0 == key);
    text_lt_irreflexive(key);
    if k < i {
        assert(text_lt(pairs[k].0, pairs[i].0));
    } else if i < k {
        assert(text_lt(pairs[i].0, pairs[k].0));
    }
}

/// In a list of pairs with increasing keys, a pair is listed exactly if its key has its value.
pub proof fn lemma_contains_pair<T>(pairs: Seq<(Seq<char>, T)>, key: Seq<char>, value: T)
    requires
        keys_increase(pairs),
    ensures
        pairs.contains((key, value)) <==> lookup(pairs, key) == Some(value),
{
    if pairs.contains((key, value)) {
        let i = choose|i: int| 0 <= i < pairs.len() && pairs[i] == (key, value);
        lemma_lookup(pairs, i);
    }
    if lookup(pairs, key) == Some(value) {
        let k = choose|k: int| 0 <= k < pairs.len() && (#[trigger] pairs[k]).0 == key;
        lemma_lookup(pairs, k);
        assert(pairs[k] == (key, value));
    }
}

/// A key is in the map of a list of pairs exactly if a pair has it.
pub proof fn lemma_contains_key<T>(pairs: Seq<(Seq<char>, T)>, key: Seq<char>)
    ensures
        map_of(pairs).contains_key(key) == exists|i: int|
            0 <= i < pairs.len() && (#[trigger] pairs[i]).0 == key,
{
}

/// A map from strings to values, walked in the order of the keys.
#[derive(Debug, PartialEq, Eq)]
pub struct StringMap<V> {
    entries: Vec<(String, V)>,
}

impl<V> StringMap<V> {
    #[verifier::type_invariant]
    spec fn increasing(self) -> bool {
        forall|i: int, j: int|
            0 <= i < j < self.entries@.len() ==> text_lt(
                (#[trigger] self.entries@[i]).0@,
                (#[trigger] self.entries@[j]).0@,
            )
    }
}

impl<V: View> View for StringMap<V> {
    type V = Map<Seq<char>, V::V>;

    open spec fn view(&self) -> Map<Seq<char>, V::V> {
        map_of(self.pairs())
    }
}

impl<V: View> StringMap<V> {
    /// The keys and values in the order of the keys.
    pub closed spec fn pairs(&self) -> Seq<(Seq<char>, V::V)> {
        Seq::new(
            self.entries@.len(),
            |i: int| (self.entries@[i].0@, self.entries@[i].1@),
        )
    }

    /// The value at a position.
    pub closed spec fn value(&self, i: int) -> V {
        self.entries@[i].1
    }

    /// The value at a position is the one in the list of keys and values.
    pub proof fn value_in_pairs(self, i: int)
        requires
            0 <= i < self.pairs().len(),
        ensures
            self.pairs()[i].1 == self.value(i)@,
    {
    }

    /// The keys of every map are in strictly increasing order.
    pub fn known_order(&self)
        ensures
            keys_increase(self.pairs()),
    {
        proof {
            use_type_invariant(self);
        }
    }

    /// The empty map.
    pub fn new() -> (m: Self)
        ensures
            m.pairs() == Seq::<(Seq<char>, V::V)>::empty(),
            m@ == Map::<Seq<char>, V::V>::empty(),
    {
        let m = StringMap { entries: Vec::new() };
        assert(m.pairs() =~= Seq::empty());
        assert(m@ =~= Map::empty());
        m
    }

    /// The number of keys.
    pub fn len(&self) -> (n: usize)
        ensures
            n == self.pairs().len(),
    {
        self.entries.len()
    }

    /// The key at a position.
    pub fn key_at(&self, i: usize) -> (k: &String)
        requires
            i < self.pairs().len(),
        ensures
            k@ == self.pairs()[i as int].0,
    {
        &self.entries[i].0
    }

    /// The value at a position.
    pub fn value_at(&self, i: usize) -> (v: &V)
        requires
            i < self.pairs().len(),
        ensures
            v@ == self.pairs()[i as int].1,
            *v == self.value(i as int),
    {
        &self.entries[i].1
    }

    /// The first position whose key does not come before `key`.
    fn position(&self, key: &str) -> (at: usize)
        ensures
            at <= self.pairs().len(),
            forall|j: int| 0 <= j < at ==> text_lt((#[trigger] self.pairs()[j]).0, key@),
            forall|j: int|
                at <= j < self.pairs().len() ==> !text_lt((#[trigger] self.pairs()[j]).0, key@),
    {
        proof {
            use_type_invariant(self);
        }
        let mut at: usize = 0;
        while at < self.entries.len()
            invariant
                at <= self.entries@.len(),
                self.increasing(),
                forall|j: int| 0 <= j < at ==> text_lt((#[trigger] self.pairs()[j]).0, key@),
            decreases self.entries.len() - at,
        {
            if !text_less(self.entries[at].0.as_str(), key) {
                assert forall|j: int| at <= j < self.pairs().len() implies !text_lt(
                    (#[trigger] self.pairs()[j]).0,
                    key@,
                ) by {
                    if j > at && text_lt(self.pairs()[j].0, key@) {
                        assert(text_lt(self.entries@[at as int].0@, self.entries@[j].0@));
                        text_lt_transitive(
                            self.entries@[at as int].0@,
                            self.entries@[j].0@,
                            key@,
                        );
                    }
                }
                return at;
            }
            at = at + 1;
        }
        at
    }

    /// Looks a key up.
    pub fn get(&self, key: &str) -> (r: Option<&V>)
        ensures
            match r {
                Some(v) => self@.contains_key(key@) && self@[key@] == v@,
                None => !self@.contains_key(key@),
            },
            lookup(self.pairs(), key@) == (match r {
                Some(v) => Some(v@),
                None => None,
            }),
    {
        self.known_order();
        let at = self.position(key);
        if at < self.entries.len() && same(self.entries[at].0.as_str(), key) {
            proof {
                lemma_lookup(self.pairs(), at as int);
            }
            return Some(&self.entries[at].1);
        }
        assert forall|i: int| 0 <= i < self.pairs().len() implies (#[trigger] self.pairs()[i]).0
            != key@ by {
            text_lt_irreflexive(key@);
            if i > at && self.pairs()[i].0 == key@ {
                assert(text_lt(self.pairs()[at as int].0, self.pairs()[i].0));
                assert(!text_lt(self.pairs()[at as int].0, key@));
            }
        }
        None
    }

    /// Whether a key is in the map.
    pub fn contains_key(&self, key: &str) -> (r: bool)
        ensures
            r == self@.contains_key(key@),
    {
        self.get(key).is_some()
    }

    /// Sets the value of a key, in place of an earlier one.
    pub fn insert(&mut self, key: String, value: V)
        ensures
            final(self)@ == old(self)@.insert(key@, value@),
    {
        self.known_order();
        let ghost before = self.pairs();
        let ghost m = self@;
        let at = self.position(key.as_str());
        let ghost k = key@;
        let ghost v = value@;
        let mut entries: Vec<(String, V)> = Vec::new();
        std::mem::swap(&mut entries, &mut self.entries);
        if at < entries.len() && same(entries[at].0.as_str(), key.as_str()) {
            let _ = entries.remove(at);
            let ghost rest = entries@;
            entries.insert(at, (key, value));
            proof {
                assert forall|i: int| 0 <= i < entries@.len() implies (#[trigger] entries@[i]).0@
                    == before[i].0 by {}
            }
            self.entries = entries;
            proof {
                let after = self.pairs();
                assert(after == before.update(at as int, (k, v)));
                lemma_map_of_update(before, at as int, v);
            }
        } else {
            proof {
                text_lt_irreflexive(k);
                assert forall|j: int| at <= j < before.len() implies text_lt(
                    k,
                    (#[trigger] before[j]).0,
                ) by {
                    text_lt_total(k, before[j].0);
                    if before[j].0 == k && j > at {
                        assert(text_lt(before[at as int].0, before[j].0));
                        assert(!text_lt(before[at as int].0, k));
                    }
                }
            }
            entries.insert(at, (key, value));
            proof {
                assert forall|i: int, j: int| 0 <= i < j < entries@.len() implies text_lt(
                    (#[trigger] entries@[i]).0@,
                    (#[trigger] entries@[j]).0@,
                ) by {
                    let bi = if i < at {
                        i
                    } else {
                        i - 1
                    };
                    let bj = if j < at {
                        j
                    } else {
                        j - 1
                    };
                    if i == at {
                        assert(entries@[j].0@ == before[j - 1].0);
                    } else if j == at {
                        assert(entries@[i].0@ == before[i].0);
                    } else {
                        assert(entries@[i].0@ == before[bi].0);
                        assert(entries@[j].0@ == before[bj].0);
                    }
                }
            }
            self.entries = entries;
            proof {
                let after = self.pairs();
                assert(after == before.insert(at as int, (k, v)));
                lemma_map_of_insert(before, at as int, k, v);
            }
        }
    }
}

impl<V: View + Clone> Clone for StringMap<V> {
    fn clone(&self) -> (r: StringMap<V>)
        ensures
            r.pairs().len() == self.pairs().len(),
            forall|i: int|
                0 <= i < self.pairs().len() ==> (#[trigger] r.pairs()[i]).0 == self.pairs()[i].0,
            forall|i: int|
                0 <= i < self.pairs().len() ==> cloned(self.value(i), #[trigger] r.value(i)),
    {
        proof {
            use_type_invariant(self);
        }
        let mut entries: Vec<(String, V)> = Vec::new();
        let mut i: usize = 0;
        while i < self.entries.len()
            invariant
                i <= self.entries@.len(),
                entries@.len() == i,
                forall|j: int| 0 <= j < i ==> (#[trigger] entries@[j]).0@ == self.entries@[j].0@,
                forall|j: int|
                    0 <= j < i ==> cloned(self.entries@[j].1, (#[trigger] entries@[j]).1),
            decreases self.entries.len() - i,
        {
            let key = self.entries[i].0.clone();
            let value = self.entries[i].1.clone();
            entries.push((key, value));
            i = i + 1;
        }
        proof {
            assert forall|i: int, j: int| 0 <= i < j < entries@.len() implies text_lt(
                (#[trigger] entries@[i]).0@,
                (#[trigger] entries@[j]).0@,
            ) by {
                assert(text_lt(self.entries@[i].0@, self.entries@[j].0@));
            }
        }
        StringMap { entries }
    }
}

proof fn lemma_map_of_update<T>(pairs: Seq<(Seq<char>, T)>, at: int, value: T)
    requires
        keys_increase(pairs),
        0 <= at < pairs.len(),
    ensures
        map_of(pairs.update(at, (pairs[at].0, value))) == map_of(pairs).insert(
            pairs[at].0,
            value,
        ),
{
    let key = pairs[at].0;
    let after = pairs.update(at, (key, value));
    assert(keys_increase(after));
    assert forall|x: Seq<char>| lookup(after, x) == (if x == key {
        Some(value)
    } else {
        lookup(pairs, x)
    }) by {
        lemma_lookup(after, at);
        assert(after[at] == (key, value));
        if x != key {
            if lookup(pairs, x) is Some {
                let i = choose|i: int| 0 <= i < pairs.len() && (#[trigger] pairs[i]).0 == x;
                assert(after[i] == pairs[i]);
                lemma_lookup(after, i);
            }
            if lookup(after, x) is Some {
                let i = choose|i: int| 0 <= i < after.len() && (#[trigger] after[i]).0 == x;
                assert(after[i] == pairs[i]);
                lemma_lookup(pairs, i);
            }
        }
    }
    assert(map_of(after) =~= map_of(pairs).insert(key, value));
}

proof fn lemma_map_of_insert<T>(pairs: Seq<(Seq<char>, T)>, at: int, key: Seq<char>, value: T)
    requires
        keys_increase(pairs),
        0 <= at <= pairs.len(),
        keys_increase(pairs.insert(at, (key, value))),
    ensures
        map_of(pairs.insert(at, (key, value))) == map_of(pairs).insert(key, value),
{
    let after = pairs.insert(at, (key, value));
    assert forall|x: Seq<char>| lookup(after, x) == (if x == key {
        Some(value)
    } else {
        lookup(pairs, x)
    }) by {
        lemma_lookup(after, at);
        assert(after[at] == (key, value));
        if x != key {
            if lookup(pairs, x) is Some {
                let i = choose|i: int| 0 <= i < pairs.len() && (#[trigger] pairs[i]).0 == x;
                let j = if i < at {
                    i
                } else {
                    i + 1
                };
                assert(after[j] == pairs[i]);
                lemma_lookup(after, j);
            }
            if lookup(after, x) is Some {
                let j = choose|j: int| 0 <= j < after.len() && (#[trigger] after[j]).0 == x;
                let i = if j < at {
                    j
                } else {
                    j - 1
                };
                assert(after[j] == pairs[i]);
                lemma_lookup(pairs, i);
            }
        }
    }
    assert(map_of(after) =~= map_of(pairs).insert(key, value));
}

/// Whether a list of addresses is in strictly increasing order.
pub open spec fn addrs_increase(s: Seq<IpAddr>) -> bool {
    forall|i: int, j: int| 0 <= i < j < s.len() ==> addr_lt(#[trigger] s[i], #[trigger] s[j])
}

/// A set of addresses, walked in order.
#[derive(Debug, PartialEq, Eq)]
pub struct AddrSet {
    members: Vec<IpAddr>,
}

impl View for AddrSet {
    type V = Set<IpAddr>;

    open spec fn view(&self) -> Set<IpAddr> {
        self.list().to_set()
    }
}

impl AddrSet {
    #[verifier::type_invariant]
    spec fn increasing(self) -> bool {
        addrs_increase(self.members@)
    }

    /// The members in order.
    pub closed spec fn list(&self) -> Seq<IpAddr> {
        self.members@
    }

    /// The members of every set are in strictly increasing order.
    pub fn known_order(&self)
        ensures
            addrs_increase(self.list()),
    {
        proof {
            use_type_invariant(self);
        }
    }

    /// The empty set.
    pub fn new() -> (s: AddrSet)
        ensures
            s@ == Set::<IpAddr>::empty(),
            s.list() == Seq::<IpAddr>::empty(),
    {
        let s = AddrSet { members: Vec::new() };
        assert(s@ =~= Set::empty());
        s
    }

    /// The members in order.
    pub fn members(&self) -> (v: &Vec<IpAddr>)
        ensures
            v@ == self.list(),
    {
        &self.members
    }

    /// Whether the set has no members.
    pub fn is_empty(&self) -> (r: bool)
        ensures
            r == (self@ == Set::<IpAddr>::empty()),
            r == (self.list().len() == 0),
    {
        proof {
            if self.members@.len() == 0 {
                assert(self@ =~= Set::empty());
            } else {
                assert(self.list().contains(self.members@[0]));
                assert(self@.contains(self.members@[0]));
            }
        }
        self.members.len() == 0
    }

    /// The first position whose address does not come before `a`.
    fn position(&self, a: IpAddr) -> (at: usize)
        ensures
            at <= self.list().len(),
            forall|j: int| 0 <= j < at ==> addr_lt(#[trigger] self.list()[j], a),
            forall|j: int| at <= j < self.list().len() ==> !addr_lt(#[trigger] self.list()[j], a),
    {
        proof {
            use_type_invariant(self);
        }
        let mut at: usize = 0;
        while at < self.members.len()
            invariant
                at <= self.members@.len(),
                self.increasing(),
                forall|j: int| 0 <= j < at ==> addr_lt(#[trigger] self.list()[j], a),
            decreases self.members.len() - at,
        {
            if !self.members[at].less(&a) {
                assert forall|j: int| at <= j < self.list().len() implies !addr_lt(
                    #[trigger] self.list()[j],
                    a,
                ) by {
                    assert(j > at ==> addr_lt(self.list()[at as int], self.list()[j]));
                }
                return at;
            }
            at = at + 1;
        }
        at
    }

    /// Whether an address is a member.
    pub fn contains(&self, a: IpAddr) -> (r: bool)
        ensures
            r == self@.contains(a),
    {
        self.known_order();
        let at = self.position(a);
        if at < self.members.len() && self.members[at] == a {
            assert(self.list()[at as int] == a);
            return true;
        }
        assert forall|i: int| 0 <= i < self.list().len() implies self.list()[i] != a by {
            if i > at {
                assert(addr_lt(self.list()[at as int], self.list()[i]));
            } else if i == at {
                assert(self.members@[at as int] != a);
            } else {
                assert(addr_lt(self.list()[i], a));
            }
        }
        false
    }

    /// Adds an address.
    pub fn insert(&mut self, a: IpAddr)
        ensures
            final(self)@ == old(self)@.insert(a),
    {
        self.known_order();
        let ghost before = self.list();
        let at = self.position(a);
        if at < self.members.len() && self.members[at] == a {
            assert(before[at as int] == a);
            assert(self@ =~= old(self)@.insert(a));
            return;
        }
        let mut members: Vec<IpAddr> = Vec::new();
        std::mem::swap(&mut members, &mut self.members);
        members.insert(at, a);
        proof {
            assert forall|i: int, j: int| 0 <= i < j < members@.len() implies addr_lt(
                #[trigger] members@[i],
                #[trigger] members@[j],
            ) by {
                if i == at {
                    assert(members@[j] == before[j - 1]);
                    assert(j - 1 > at ==> addr_lt(before[at as int], before[j - 1]));
                } else if j == at {
                    assert(members@[i] == before[i]);
                } else {
                    let bi = if i < at {
                        i
                    } else {
                        i - 1
                    };
                    let bj = if j < at {
                        j
                    } else {
                        j - 1
                    };
                    assert(members@[i] == before[bi]);
                    assert(members@[j] == before[bj]);
                }
            }
        }
        self.members = members;
        proof {
            let after = self.list();
            assert(after == before.insert(at as int, a));
            assert forall|x: IpAddr| after.contains(x) <==> (before.contains(x) || x == a) by {
                if after.contains(x) {
                    let j = choose|j: int| 0 <= j < after.len() && after[j] == x;
                    if j != at {
                        let i = if j < at {
                            j
                        } else {
                            j - 1
                        };
                        assert(before[i] == x);
                    }
                }
                if before.contains(x) {
                    let i = choose|i: int| 0 <= i < before.len() && before[i] == x;
                    let j = if i < at {
                        i
                    } else {
                        i + 1
                    };
                    assert(after[j] == x);
                }
                assert(after[at as int] == a);
            }
            assert(self@ =~= old(self)@.insert(a));
        }
    }

    /// Adds the addresses of a list.
    pub fn extend(&mut self, addrs: &Vec<IpAddr>)
        ensures
            final(self)@ == old(self)@.union(addrs@.to_set()),
    {
        let mut i: usize = 0;
        assert(self@ =~= old(self)@.union(addrs@.take(0).to_set()));
        while i < addrs.len()
            invariant
                i <= addrs@.len(),
                self@ == old(self)@.union(addrs@.take(i as int).to_set()),
            decreases addrs.len() - i,
        {
            self.insert(addrs[i]);
            proof {
                let more = addrs@.take(i + 1);
                assert(more == addrs@.take(i as int).push(addrs@[i as int]));
                assert forall|x: IpAddr| more.contains(x) <==> (addrs@.take(i as int).contains(x)
                    || x == addrs@[i as int]) by {
                    if addrs@.take(i as int).contains(x) {
                        let k = choose|k: int|
                            0 <= k < addrs@.take(i as int).len() && addrs@.take(i as int)[k] == x;
                        assert(more[k] == x);
                    }
                    assert(more[i as int] == addrs@[i as int]);
                    if more.contains(x) {
                        let k = choose|k: int| 0 <= k < more.len() && more[k] == x;
                        if k < i {
                            assert(addrs@.take(i as int)[k] == x);
                        }
                    }
                }
                assert(self@ =~= old(self)@.union(more.to_set()));
            }
            i = i + 1;
        }
        assert(addrs@.take(i as int) == addrs@);
    }

    /// Whether two sets have the same members.
    pub fn same(&self, other: &AddrSet) -> (r: bool)
        ensures
            r == (self@ == other@),
    {
        self.known_order();
        other.known_order();
        if self.members.len() != other.members.len() {
            proof {
                if self@ == other@ {
                    lemma_same_members(self.list(), other.list());
                }
            }
            return false;
        }
        let mut i: usize = 0;
        while i < self.members.len()
            invariant
                i <= self.members@.len() == other.members@.len(),
                addrs_increase(self.list()),
                addrs_increase(other.list()),
                self.members@.take(i as int) == other.members@.take(i as int),
            decreases self.members.len() - i,
        {
            if self.members[i] != other.members[i] {
                proof {
                    if self@ == other@ {
                        lemma_same_members(self.list(), other.list());
                    }
                }
                return false;
            }
            assert(self.members@.take(i + 1) == self.members@.take(i as int).push(
                self.members@[i as int],
            ));
            assert(other.members@.take(i + 1) == other.members@.take(i as int).push(
                other.members@[i as int],
            ));
            i = i + 1;
        }
        assert(self.members@.take(i as int) == self.members@);
        assert(other.members@.take(i as int) == other.members@);
        true
    }
}

impl Clone for AddrSet {
    fn clone(&self) -> (r: AddrSet)
        ensures
            r@ == self@,
            r.list() == self.list(),
    {
        proof {
            use_type_invariant(self);
        }
        let mut members: Vec<IpAddr> = Vec::new();
        let mut i: usize = 0;
        while i < self.members.len()
            invariant
                i <= self.members@.len(),
                members@ == self.members@.take(i as int),
            decreases self.members.len() - i,
        {
            members.push(self.members[i]);
            i = i + 1;
        }
        assert(members@ =~= self.members@);
        AddrSet { members }
    }
}

/// Increasing lists with the same members are the same list.
pub proof fn lemma_same_members(a: Seq<IpAddr>, b: Seq<IpAddr>)
    requires
        addrs_increase(a),
        addrs_increase(b),
        a.to_set() == b.to_set(),
    ensures
        a == b,
    decreases a.len(),
{
    assert forall|x: IpAddr| a.contains(x) <==> b.contains(x) by {
        assert(a.to_set().contains(x) <==> a.contains(x));
        assert(b.to_set().contains(x) <==> b.contains(x));
    }
    if a.len() == 0 {
        if b.len() > 0 {
            assert(b.contains(b[0]));
        }
        assert(a =~= b);
    } else {
        assert(a.contains(a.last()));
        let k = choose|k: int| 0 <= k < b.len() && b[k] == a.last();
        assert(b.contains(b.last()));
        let m = choose|m: int| 0 <= m < a.len() && a[m] == b.last();
        assert(k < b.len() - 1 ==> addr_lt(b[k], b.last()));
        assert(m < a.len() - 1 ==> addr_lt(a[m], a.last()));
        assert(a.last() == b.last());
        let a1 = a.drop_last();
        let b1 = b.drop_last();
        assert forall|x: IpAddr| a1.contains(x) <==> b1.contains(x) by {
            if a1.contains(x) {
                let i = choose|i: int| 0 <= i < a1.len() && a1[i] == x;
                assert(a[i] == x);
                assert(addr_lt(a[i], a.last()));
                assert(a.contains(x));
                let j = choose|j: int| 0 <= j < b.len() && b[j] == x;
                assert(b1[j] == x);
            }
            if b1.contains(x) {
                let i = choose|i: int| 0 <= i < b1.len() && b1[i] == x;
                assert(b[i] == x);
                assert(addr_lt(b[i], b.last()));
                assert(b.contains(x));
                let j = choose|j: int| 0 <= j < a.len() && a[j] == x;
                assert(a1[j] == x);
            }
        }
        assert(a1.to_set() =~= b1.to_set());
        lemma_same_members(a1, b1);
        assert(a == a1.push(a.last()));
        assert(b == b1.push(b.last()));
    }
}

} // verus!
