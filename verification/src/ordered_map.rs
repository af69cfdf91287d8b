//! A map that keeps its entries in the order of their keys.

use crate::text::{
    is_text_before, lemma_text_before_total, lemma_text_before_transitive, text_before,
};
use vstd::prelude::*;

verus! {

broadcast use vstd::seq::group_seq_axioms;

/// A type whose values have a total order.
pub trait Key: View + Sized {
    /// Whether `a` stands before `b`.
    spec fn before(a: Self::V, b: Self::V) -> bool;

    /// Of two keys, one stands before the other or they are equal, and only
    /// one of the three holds.
    proof fn before_is_total(a: Self::V, b: Self::V)
        ensures
            a == b ==> !Self::before(a, b),
            Self::before(a, b) ==> !Self::before(b, a),
            Self::before(a, b) || Self::before(b, a) || a == b,
    ;

    /// The order is transitive.
    proof fn before_is_transitive(a: Self::V, b: Self::V, c: Self::V)
        requires
            Self::before(a, b),
            Self::before(b, c),
        ensures
            Self::before(a, c),
    ;

    /// Whether this key stands before `other`.
    fn is_before(&self, other: &Self) -> (res: bool)
        ensures
            res == Self::before(self@, other@),
    ;
}

impl Key for String {
    open spec fn before(a: Seq<char>, b: Seq<char>) -> bool {
        text_before(a, b)
    }

    proof fn before_is_total(a: Seq<char>, b: Seq<char>) {
        lemma_text_before_total(a, b);
    }

    proof fn before_is_transitive(a: Seq<char>, b: Seq<char>, c: Seq<char>) {
        lemma_text_before_transitive(a, b, c);
    }

    fn is_before(&self, other: &String) -> (res: bool) {
        is_text_before(self.as_str(), other.as_str())
    }
}

/// A map from keys to values, in the order of its keys.
#[derive(Debug)]
pub struct OrderedMap<K: Key, V> {
    entries: Vec<(K, V)>,
}

/// Whether the keys of `entries` rise.
pub open spec fn rises<K: Key, V>(entries: Seq<(K::V, V)>) -> bool {
    forall|i: int, j: int|
        0 <= i < j < entries.len() ==> K::before(#[trigger] entries[i].0, #[trigger] entries[j].0)
}

/// The map with the given entries.
pub open spec fn map_of<A, V>(entries: Seq<(A, V)>) -> Map<A, V>
    decreases entries.len(),
{
    if entries.len() == 0 {
        Map::empty()
    } else {
        map_of(entries.drop_last()).insert(entries.last().0, entries.last().1)
    }
}

/// A map of entries is finite.
pub proof fn lemma_map_of_is_finite<A, V>(entries: Seq<(A, V)>)
    ensures
        map_of(entries).dom().finite(),
    decreases entries.len(),
{
    if entries.len() > 0 {
        lemma_map_of_is_finite(entries.drop_last());
    }
}

proof fn lemma_map_of<K: Key, V>(entries: Seq<(K::V, V)>)
    requires
        rises::<K, V>(entries),
    ensures
        map_of(entries).dom().finite(),
        map_of(entries).len() == entries.len(),
        forall|i: int|
            0 <= i < entries.len() ==> map_of(entries).contains_key(#[trigger] entries[i].0)
                && map_of(entries)[entries[i].0] == entries[i].1,
        forall|k: K::V|
            map_of(entries).contains_key(k) ==> exists|i: int|
                0 <= i < entries.len() && #[trigger] entries[i].0 == k,
    decreases entries.len(),
{
    if entries.len() > 0 {
        let head = entries.drop_last();
        lemma_map_of::<K, V>(head);
        let last = entries.last();
        assert forall|i: int| 0 <= i < head.len() implies head[i].0 != last.0 by {
            K::before_is_total(head[i].0, last.0);
            assert(K::before(entries[i].0, entries[entries.len() - 1].0));
        }
        assert(!map_of(head).contains_key(last.0));
        assert forall|k: K::V| map_of(entries).contains_key(k) implies exists|i: int|
            0 <= i < entries.len() && #[trigger] entries[i].0 == k by {
            if k == last.0 {
                assert(entries[entries.len() - 1].0 == k);
            } else {
                let i = choose|i: int| 0 <= i < head.len() && #[trigger] head[i].0 == k;
                assert(entries[i].0 == k);
            }
        }
        assert forall|i: int| 0 <= i < entries.len() implies map_of(entries).contains_key(
            #[trigger] entries[i].0,
        ) && map_of(entries)[entries[i].0] == entries[i].1 by {
            if i < head.len() {
                assert(head[i] == entries[i]);
            }
        }
    }
}

/// The map of the entries has each of them.
pub proof fn lemma_entry_is_there<K: Key, V>(entries: Seq<(K::V, V)>, i: int)
    requires
        rises::<K, V>(entries),
        0 <= i < entries.len(),
    ensures
        map_of(entries).contains_key(entries[i].0),
        map_of(entries)[entries[i].0] == entries[i].1,
{
    lemma_map_of::<K, V>(entries);
}

/// Each key of the map of the entries has an entry.
pub proof fn lemma_key_has_entry<K: Key, V>(entries: Seq<(K::V, V)>, key: K::V) -> (i: int)
    requires
        rises::<K, V>(entries),
        map_of(entries).contains_key(key),
    ensures
        0 <= i < entries.len(),
        entries[i].0 == key,
        entries[i].1 == map_of(entries)[key],
{
    lemma_map_of::<K, V>(entries);
    choose|i: int| 0 <= i < entries.len() && #[trigger] entries[i].0 == key
}

impl<K: Key, V> View for OrderedMap<K, V> {
    type V = Map<K::V, V>;

    open spec fn view(&self) -> Map<K::V, V> {
        map_of(self.sorted())
    }
}

/// What each key stands for, with its value.
pub open spec fn with_values<K: Key, V>(entries: Seq<(K, V)>) -> Seq<(K::V, V)> {
    entries.map_values(|e: (K, V)| (e.0@, e.1))
}

/// What each key stands for, with the key itself.
pub open spec fn with_keys<K: Key, V>(entries: Seq<(K, V)>) -> Seq<(K::V, K)> {
    entries.map_values(|e: (K, V)| (e.0@, e.0))
}

impl<K: Key, V> OrderedMap<K, V> {
    /// The entries in the order of their keys.
    pub closed spec fn entries(self) -> Seq<(K, V)> {
        self.entries@
    }

    /// The entries in the order of their keys, by what the keys stand for.
    pub open spec fn sorted(self) -> Seq<(K::V, V)> {
        with_values(self.entries())
    }

    /// The keys, by what they stand for. Different keys can stand for the same.
    pub open spec fn keys(self) -> Map<K::V, K> {
        map_of(with_keys(self.entries()))
    }

    #[verifier::type_invariant]
    spec fn well_formed(self) -> bool {
        rises::<K, V>(self.sorted())
    }

    /// A map without entries.
    pub fn new() -> (res: OrderedMap<K, V>)
        ensures
            res@ == Map::<K::V, V>::empty(),
            res.entries() == Seq::<(K, V)>::empty(),
            res.keys() == Map::<K::V, K>::empty(),
    {
        let res = OrderedMap { entries: Vec::new() };
        assert(res.sorted() == Seq::<(K::V, V)>::empty());
        assert(with_keys(res.entries()) == Seq::<(K::V, K)>::empty());
        res
    }

    /// The number of entries.
    pub fn len(&self) -> (res: usize)
        ensures
            res == self@.len(),
            res == self.sorted().len(),
            rises::<K, V>(self.sorted()),
    {
        proof {
            use_type_invariant(self);
            lemma_map_of::<K, V>(self.sorted());
        }
        self.entries.len()
    }

    /// Whether the map has no entry.
    pub fn is_empty(&self) -> (res: bool)
        ensures
            res == (self@ == Map::<K::V, V>::empty()),
            res == (self.sorted().len() == 0),
    {
        proof {
            use_type_invariant(self);
            lemma_map_of::<K, V>(self.sorted());
            if self.sorted().len() > 0 {
                assert(self@.contains_key(self.sorted()[0].0));
            }
        }
        self.entries.len() == 0
    }

    /// The entry at position `i` in the order of the keys.
    pub fn entry(&self, i: usize) -> (res: (&K, &V))
        requires
            i < self.sorted().len(),
        ensures
            (*res.0, *res.1) == self.entries()[i as int],
    {
        (&self.entries[i].0, &self.entries[i].1)
    }

    /// The number of keys that stand before `key`.
    fn position(&self, key: &K) -> (res: usize)
        ensures
            res <= self.sorted().len(),
            forall|i: int| 0 <= i < res ==> K::before(#[trigger] self.sorted()[i].0, key@),
            forall|i: int|
                res <= i < self.sorted().len() ==> !K::before(#[trigger] self.sorted()[i].0, key@),
    {
        proof {
            use_type_invariant(self);
        }
        let mut lo: usize = 0;
        let mut hi: usize = self.entries.len();
        while lo < hi
            invariant
                rises::<K, V>(self.sorted()),
                lo <= hi <= self.entries@.len(),
                forall|i: int| 0 <= i < lo ==> K::before(#[trigger] self.sorted()[i].0, key@),
                forall|i: int|
                    hi <= i < self.sorted().len() ==> !K::before(
                        #[trigger] self.sorted()[i].0,
                        key@,
                    ),
            decreases hi - lo,
        {
            let mid: usize = lo + (hi - lo) / 2;
            let ghost middle = self.sorted()[mid as int].0;
            if self.entries[mid].0.is_before(key) {
                assert forall|i: int| 0 <= i < mid + 1 implies K::before(
                    #[trigger] self.sorted()[i].0,
                    key@,
                ) by {
                    if i < mid {
                        K::before_is_transitive(self.sorted()[i].0, middle, key@);
                    }
                }
                lo = mid + 1;
            } else {
                assert forall|i: int| mid <= i < self.sorted().len() implies !K::before(
                    #[trigger] self.sorted()[i].0,
                    key@,
                ) by {
                    if i > mid && K::before(self.sorted()[i].0, key@) {
                        K::before_is_transitive(middle, self.sorted()[i].0, key@);
                    }
                }
                hi = mid;
            }
        }
        lo
    }

    /// The position of `key`, where the map has it, and its place otherwise.
    fn find(&self, key: &K) -> (res: (usize, bool))
        ensures
            res.0 <= self.sorted().len(),
            forall|i: int| 0 <= i < res.0 ==> K::before(#[trigger] self.sorted()[i].0, key@),
            res.1 ==> res.0 < self.sorted().len() && self.sorted()[res.0 as int].0 == key@,
            !res.1 ==> forall|i: int|
                res.0 <= i < self.sorted().len() ==> K::before(key@, #[trigger] self.sorted()[i].0),
            res.1 == self@.contains_key(key@),
            res.1 ==> self@[key@] == self.sorted()[res.0 as int].1,
    {
        proof {
            use_type_invariant(self);
            lemma_map_of::<K, V>(self.sorted());
        }
        let at = self.position(key);
        let found = at < self.entries.len() && !key.is_before(&self.entries[at].0);
        proof {
            if at < self.sorted().len() {
                K::before_is_total(self.sorted()[at as int].0, key@);
            }
            if !found {
                assert forall|i: int| at <= i < self.sorted().len() implies K::before(
                    key@,
                    #[trigger] self.sorted()[i].0,
                ) by {
                    if i > at {
                        K::before_is_transitive(
                            key@,
                            self.sorted()[at as int].0,
                            self.sorted()[i].0,
                        );
                    }
                }
                assert forall|i: int| 0 <= i < self.sorted().len() implies (
                #[trigger] self.sorted()[i].0) != key@ by {
                    K::before_is_total(self.sorted()[i].0, key@);
                }
            }
        }
        (at, found)
    }

    /// Whether the map has an entry for `key`.
    pub fn contains_key(&self, key: &K) -> (res: bool)
        ensures
            res == self@.contains_key(key@),
    {
        self.find(key).1
    }

    /// The value of `key`, where the map has one.
    pub fn get(&self, key: &K) -> (res: Option<&V>)
        ensures
            match res {
                Some(value) => self@.contains_key(key@) && *value == self@[key@],
                None => !self@.contains_key(key@),
            },
    {
        let (at, found) = self.find(key);
        if found {
            Some(&self.entries[at].1)
        } else {
            None
        }
    }

    /// Sets the value of `key`, and returns the value that it replaces. A key
    /// that is there already stays as it is.
    pub fn insert(&mut self, key: K, value: V) -> (res: Option<V>)
        ensures
            final(self)@ == old(self)@.insert(key@, value),
            final(self).keys() == if old(self)@.contains_key(key@) {
                old(self).keys()
            } else {
                old(self).keys().insert(key@, key)
            },
            match res {
                Some(replaced) => old(self)@.contains_key(key@) && replaced == old(self)@[key@],
                None => !old(self)@.contains_key(key@),
            },
    {
        proof {
            use_type_invariant(&*self);
        }
        let ghost all = self.entries@;
        let ghost before = self.sorted();
        let ghost keys = with_keys(all);
        let ghost k = key@;
        proof {
            lemma_keys_rise(all);
        }
        let (at, found) = self.find(&key);
        let mut entries: Vec<(K, V)> = Vec::new();
        std::mem::swap(&mut entries, &mut self.entries);
        let replaced = if found {
            let (kept, replaced) = entries.remove(at);
            entries.insert(at, (kept, value));
            proof {
                assert(before[at as int].0 == kept@);
                assert(with_values(entries@) == before.update(at as int, (k, value)));
                lemma_replace::<K, V>(before, at as int, k, value);
                assert(with_keys(entries@) == keys);
            }
            Some(replaced)
        } else {
            entries.insert(at, (key, value));
            proof {
                assert forall|i: int| 0 <= i < keys.len() implies keys[i].0 == before[i].0 by {}
                assert(with_values(entries@) == before.insert(at as int, (k, value)));
                lemma_put::<K, V>(before, at as int, k, value);
                assert(with_keys(entries@) == keys.insert(at as int, (k, key)));
                lemma_put::<K, K>(keys, at as int, k, key);
            }
            None
        };
        self.entries = entries;
        replaced
    }
}

/// The keys of a map rise as its entries do.
pub proof fn lemma_keys_rise<K: Key, V>(entries: Seq<(K, V)>)
    requires
        rises::<K, V>(with_values(entries)),
    ensures
        rises::<K, K>(with_keys(entries)),
{
    let keys = with_keys(entries);
    let values = with_values(entries);
    assert forall|i: int, j: int| 0 <= i < j < keys.len() implies K::before(
        #[trigger] keys[i].0,
        #[trigger] keys[j].0,
    ) by {
        assert(keys[i].0 == values[i].0);
        assert(keys[j].0 == values[j].0);
    }
}

proof fn lemma_replace<K: Key, V>(entries: Seq<(K::V, V)>, at: int, key: K::V, value: V)
    requires
        rises::<K, V>(entries),
        0 <= at < entries.len(),
        entries[at].0 == key,
    ensures
        rises::<K, V>(entries.update(at, (key, value))),
        map_of(entries.update(at, (key, value))) == map_of(entries).insert(key, value),
{
    let after = entries.update(at, (key, value));
    assert forall|i: int, j: int| 0 <= i < j < after.len() implies K::before(
        #[trigger] after[i].0,
        #[trigger] after[j].0,
    ) by {
        assert(after[i].0 == entries[i].0);
        assert(after[j].0 == entries[j].0);
    }
    lemma_same_map::<K, V>(entries, after, at, key, value);
}

proof fn lemma_put<K: Key, V>(entries: Seq<(K::V, V)>, at: int, key: K::V, value: V)
    requires
        rises::<K, V>(entries),
        0 <= at <= entries.len(),
        forall|i: int| 0 <= i < at ==> K::before(#[trigger] entries[i].0, key),
        forall|i: int| at <= i < entries.len() ==> K::before(key, #[trigger] entries[i].0),
    ensures
        rises::<K, V>(entries.insert(at, (key, value))),
        map_of(entries.insert(at, (key, value))) == map_of(entries).insert(key, value),
{
    let after = entries.insert(at, (key, value));
    assert forall|i: int, j: int| 0 <= i < j < after.len() implies K::before(
        #[trigger] after[i].0,
        #[trigger] after[j].0,
    ) by {
        let x = if i < at { i } else { i - 1 };
        let y = if j < at { j } else { j - 1 };
        if i != at {
            assert(after[i] == entries[x]);
        }
        if j != at {
            assert(after[j] == entries[y]);
        }
    }
    lemma_same_map::<K, V>(entries, after, at, key, value);
}

/// The entries of `after` are those of `entries` with one set.
proof fn lemma_same_map<K: Key, V>(
    entries: Seq<(K::V, V)>,
    after: Seq<(K::V, V)>,
    at: int,
    key: K::V,
    value: V,
)
    requires
        rises::<K, V>(entries),
        rises::<K, V>(after),
        0 <= at <= entries.len(),
        after == entries.insert(at, (key, value)) || (at < entries.len() && entries[at].0 == key
            && after == entries.update(at, (key, value))),
    ensures
        map_of(after) == map_of(entries).insert(key, value),
{
    lemma_map_of::<K, V>(entries);
    lemma_map_of::<K, V>(after);
    let expected = map_of(entries).insert(key, value);
    let put = after == entries.insert(at, (key, value));
    assert(after[at] == (key, value));
    assert forall|k: K::V| map_of(after).contains_key(k) implies expected.contains_key(k)
        && expected[k] == map_of(after)[k] by {
        let i = choose|i: int| 0 <= i < after.len() && #[trigger] after[i].0 == k;
        if i != at {
            let x = if put && i > at { i - 1 } else { i };
            assert(after[i] == entries[x]);
            if i < at {
                K::before_is_total(after[i].0, after[at].0);
            } else {
                K::before_is_total(after[at].0, after[i].0);
            }
        }
    }
    assert forall|k: K::V| expected.contains_key(k) implies map_of(after).contains_key(k) by {
        if k != key {
            let i = choose|i: int| 0 <= i < entries.len() && #[trigger] entries[i].0 == k;
            let x = if put && i >= at { i + 1 } else { i };
            assert(after[x] == entries[i]);
            assert(map_of(after).contains_key(after[x].0));
        } else {
            assert(map_of(after).contains_key(after[at].0));
        }
    }
    assert(map_of(after) =~= expected);
}

} // verus!
