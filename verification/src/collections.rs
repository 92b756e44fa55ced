//! Maps and sets that keep their keys in order.
use vstd::prelude::*;

use crate::wire::Uuid;
use crate::text::{
    compare_texts, lemma_text_before_irreflexive, lemma_text_before_transitive, text_before,
    Relation,
};

verus! {

/// A key with a strict total order on its view.
pub trait MapKey: View + Sized {
    /// Whether `a` comes before `b`.
    spec fn before(a: Self::V, b: Self::V) -> bool;

    /// No key comes before itself.
    proof fn before_irreflexive(a: Self::V)
        ensures
            !Self::before(a, a),
    ;

    /// The order is transitive.
    proof fn before_transitive(a: Self::V, b: Self::V, c: Self::V)
        requires
            Self::before(a, b),
            Self::before(b, c),
        ensures
            Self::before(a, c),
    ;

    /// Compares two keys.
    fn compare(&self, other: &Self) -> (r: Relation)
        ensures
            r == Relation::Before ==> Self::before(self@, other@),
            r == Relation::Same ==> self@ == other@,
            r == Relation::After ==> Self::before(other@, self@),
    ;

    /// A second key with the same view.
    fn duplicate(&self) -> (r: Self)
        ensures
            r@ == self@,
    ;
}

impl MapKey for String {
    open spec fn before(a: Seq<char>, b: Seq<char>) -> bool {
        text_before(a, b)
    }

    proof fn before_irreflexive(a: Seq<char>) {
        lemma_text_before_irreflexive(a);
    }

    proof fn before_transitive(a: Seq<char>, b: Seq<char>, c: Seq<char>) {
        lemma_text_before_transitive(a, b, c);
    }

    fn compare(&self, other: &Self) -> (r: Relation) {
        compare_texts(self.as_str(), other.as_str())
    }

    fn duplicate(&self) -> (r: Self) {
        self.clone()
    }
}

impl MapKey for i32 {
    open spec fn before(a: i32, b: i32) -> bool {
        a < b
    }

    proof fn before_irreflexive(a: i32) {
    }

    proof fn before_transitive(a: i32, b: i32, c: i32) {
    }

    fn compare(&self, other: &Self) -> (r: Relation) {
        if *self < *other {
            Relation::Before
        } else if *self == *other {
            Relation::Same
        } else {
            Relation::After
        }
    }

    fn duplicate(&self) -> (r: Self) {
        *self
    }
}

impl View for Uuid {
    type V = u128;

    open spec fn view(&self) -> u128 {
        self.0
    }
}

impl MapKey for Uuid {
    open spec fn before(a: u128, b: u128) -> bool {
        a < b
    }

    proof fn before_irreflexive(a: u128) {
    }

    proof fn before_transitive(a: u128, b: u128, c: u128) {
    }

    fn compare(&self, other: &Self) -> (r: Relation) {
        if self.0 < other.0 {
            Relation::Before
        } else if self.0 == other.0 {
            Relation::Same
        } else {
            Relation::After
        }
    }

    fn duplicate(&self) -> (r: Self) {
        *self
    }
}

impl MapKey for (String, i32) {
    open spec fn before(a: (Seq<char>, i32), b: (Seq<char>, i32)) -> bool {
        text_before(a.0, b.0) || (a.0 == b.0 && a.1 < b.1)
    }

    proof fn before_irreflexive(a: (Seq<char>, i32)) {
        lemma_text_before_irreflexive(a.0);
    }

    proof fn before_transitive(a: (Seq<char>, i32), b: (Seq<char>, i32), c: (Seq<char>, i32)) {
        if text_before(a.0, b.0) && text_before(b.0, c.0) {
            lemma_text_before_transitive(a.0, b.0, c.0);
        }
    }

    fn compare(&self, other: &Self) -> (r: Relation) {
        match compare_texts(self.0.as_str(), other.0.as_str()) {
            Relation::Before => Relation::Before,
            Relation::After => Relation::After,
            Relation::Same => {
                if self.1 < other.1 {
                    Relation::Before
                } else if self.1 == other.1 {
                    Relation::Same
                } else {
                    Relation::After
                }
            },
        }
    }

    fn duplicate(&self) -> (r: Self) {
        (self.0.clone(), self.1)
    }
}

/// Whether the keys of `s` stand in strictly ascending order.
pub open spec fn ascending<K: MapKey>(s: Seq<K::V>) -> bool {
    forall|i: int, j: int| 0 <= i < j < s.len() ==> K::before(#[trigger] s[i], #[trigger] s[j])
}

/// Whether the keys of `s` stand in ascending order. A key can stand in it more
/// than once.
pub open spec fn in_order<K: MapKey>(s: Seq<K::V>) -> bool {
    forall|i: int, j: int|
        0 <= i < j < s.len() ==> #[trigger] s[i] == #[trigger] s[j] || K::before(s[i], s[j])
}

/// The place of `k` in `s`.
pub open spec fn place<T>(s: Seq<T>, k: T) -> int {
    choose|i: int| 0 <= i < s.len() && s[i] == k
}

pub proof fn lemma_ascending_distinct<K: MapKey>(s: Seq<K::V>)
    requires
        ascending::<K>(s),
    ensures
        s.no_duplicates(),
        forall|i: int| 0 <= i < s.len() ==> place(s, #[trigger] s[i]) == i,
{
    assert forall|i: int, j: int| 0 <= i < j < s.len() implies s[i] != s[j] by {
        K::before_irreflexive(s[i]);
        assert(K::before(s[i], s[j]));
    }
    assert forall|i: int| 0 <= i < s.len() implies place(s, #[trigger] s[i]) == i by {
        let p = place(s, s[i]);
        assert(0 <= p < s.len() && s[p] == s[i]);
    }
}

/// What a list with one more item holds.
pub proof fn lemma_pushed<A>(list: Seq<A>, item: A, x: A)
    ensures
        list.push(item).contains(x) <==> list.contains(x) || x == item,
{
    let all = list.push(item);
    if list.contains(x) {
        let i = choose|i: int| 0 <= i < list.len() && list[i] == x;
        assert(all[i] == x);
    }
    if all.contains(x) {
        let i = choose|i: int| 0 <= i < all.len() && all[i] == x;
        if i < list.len() {
            assert(list[i] == x);
        }
    }
    assert(all[list.len() as int] == item);
}

/// What the next item adds to the items before it.
pub proof fn lemma_take_next<T>(s: Seq<T>, i: int)
    requires
        0 <= i < s.len(),
    ensures
        s.take(i + 1) == s.take(i).push(s[i]),
        forall|k: T| #[trigger]
            s.take(i + 1).contains(k) <==> s.take(i).contains(k) || k == s[i],
{
    let next = s.take(i + 1);
    let had = s.take(i);
    assert(next =~= had.push(s[i]));
    assert forall|k: T| #[trigger] next.contains(k) <==> had.contains(k) || k == s[i] by {
        if had.contains(k) {
            let j = choose|j: int| 0 <= j < had.len() && had[j] == k;
            assert(next[j] == k);
        }
        assert(next[i] == s[i]);
        if next.contains(k) {
            let j = choose|j: int| 0 <= j < next.len() && next[j] == k;
            if j < i {
                assert(had[j] == k);
            }
        }
    }
}

/// A map whose entries stand in key order.
#[derive(Debug, PartialEq, Eq)]
pub struct SortedMap<K: MapKey, V> {
    entries: Vec<(K, V)>,
}

spec fn keys_of<K: MapKey, V>(entries: Seq<(K, V)>) -> Seq<K::V> {
    Seq::new(entries.len(), |i: int| entries[i].0@)
}

spec fn map_of<K: MapKey, V>(entries: Seq<(K, V)>) -> Map<K::V, V> {
    Map::new(
        |k: K::V| keys_of(entries).contains(k),
        |k: K::V| entries[place(keys_of(entries), k)].1,
    )
}

impl<K: MapKey, V> View for SortedMap<K, V> {
    type V = Map<K::V, V>;

    closed spec fn view(&self) -> Map<K::V, V> {
        map_of(self.entries@)
    }
}

impl<K: MapKey, V> SortedMap<K, V> {
    #[verifier::type_invariant]
    spec fn in_order(self) -> bool {
        ascending::<K>(keys_of(self.entries@))
    }

    /// The keys in their order.
    pub closed spec fn keys(&self) -> Seq<K::V> {
        keys_of(self.entries@)
    }

    /// The keys and their values, in key order.
    pub open spec fn entries(&self) -> Seq<(K::V, V)> {
        Seq::new(self.keys().len(), |i: int| (self.keys()[i], self@[self.keys()[i]]))
    }

    /// What the key sequence says of the map.
    pub open spec fn keys_listed(&self) -> bool {
        &&& ascending::<K>(self.keys())
        &&& self.keys().no_duplicates()
        &&& forall|k: K::V| #[trigger] self.keys().contains(k) <==> self@.contains_key(k)
        &&& self@.dom().finite()
        &&& self@.len() == self.keys().len()
    }

    /// A map without entries.
    pub fn new() -> (r: Self)
        ensures
            r@ == Map::<K::V, V>::empty(),
            r.keys() == Seq::<K::V>::empty(),
    {
        let r = SortedMap { entries: Vec::new() };
        assert(r@ =~= Map::<K::V, V>::empty());
        assert(r.keys() =~= Seq::<K::V>::empty());
        r
    }

    proof fn lemma_listed(&self)
        requires
            self.in_order(),
        ensures
            self.keys_listed(),
            forall|i: int|
                0 <= i < self.entries@.len() ==> {
                    &&& self@.contains_key(#[trigger] self.entries@[i].0@)
                    &&& self@[self.entries@[i].0@] == self.entries@[i].1
                },
    {
        let keys = self.keys();
        lemma_ascending_distinct::<K>(keys);
        keys.unique_seq_to_set();
        assert(self@.dom() =~= keys.to_set());
        assert forall|i: int| 0 <= i < self.entries@.len() implies {
            &&& self@.contains_key(#[trigger] self.entries@[i].0@)
            &&& self@[self.entries@[i].0@] == self.entries@[i].1
        } by {
            assert(keys[i] == self.entries@[i].0@);
            assert(keys.contains(keys[i]));
        }
    }

    /// The number of entries.
    pub fn len(&self) -> (n: usize)
        ensures
            n == self@.len(),
            n == self.keys().len(),
            self.keys_listed(),
    {
        proof {
            use_type_invariant(self);
            self.lemma_listed();
        }
        self.entries.len()
    }

    /// Whether the map has no entry.
    pub fn is_empty(&self) -> (r: bool)
        ensures
            r <==> self@ == Map::<K::V, V>::empty(),
            r <==> self@.len() == 0,
            self.keys_listed(),
    {
        let n = self.len();
        proof {
            if n == 0 {
                assert(self@.dom() =~= Set::empty());
                assert(self@ =~= Map::<K::V, V>::empty());
            }
        }
        n == 0
    }

    /// The key at a place.
    pub fn key_at(&self, i: usize) -> (k: &K)
        requires
            i < self.keys().len(),
        ensures
            k@ == self.keys()[i as int],
            self@.contains_key(k@),
            self.keys_listed(),
    {
        proof {
            use_type_invariant(self);
            self.lemma_listed();
        }
        &self.entries[i].0
    }

    /// The value at a place.
    pub fn value_at(&self, i: usize) -> (v: &V)
        requires
            i < self.keys().len(),
        ensures
            self@.contains_key(self.keys()[i as int]),
            *v == self@[self.keys()[i as int]],
            self.keys_listed(),
    {
        proof {
            use_type_invariant(self);
            self.lemma_listed();
        }
        &self.entries[i].1
    }

    /// The first place whose key does not come before `key`, and whether that
    /// key is `key` itself.
    fn find(&self, key: &K) -> (r: (usize, bool))
        ensures
            r.0 <= self.keys().len(),
            forall|i: int| 0 <= i < r.0 ==> K::before(#[trigger] self.keys()[i], key@),
            r.1 ==> r.0 < self.keys().len() && self.keys()[r.0 as int] == key@,
            !r.1 ==> forall|i: int|
                r.0 <= i < self.keys().len() ==> K::before(key@, #[trigger] self.keys()[i]),
            r.1 <==> self@.contains_key(key@),
    {
        proof {
            use_type_invariant(self);
            self.lemma_listed();
        }
        let ghost keys = self.keys();
        let mut low: usize = 0;
        let mut high: usize = self.entries.len();
        while low < high
            invariant
                keys == self.keys(),
                keys.len() == self.entries@.len(),
                self.in_order(),
                self.keys_listed(),
                low <= high <= keys.len(),
                forall|i: int| 0 <= i < low ==> K::before(#[trigger] keys[i], key@),
                forall|i: int| high <= i < keys.len() ==> K::before(key@, #[trigger] keys[i]),
            decreases high - low,
        {
            let mid: usize = low + (high - low) / 2;
            match self.entries[mid].0.compare(key) {
                Relation::Same => {
                    proof {
                        assert(keys[mid as int] == key@);
                        assert(keys.contains(key@));
                        assert forall|i: int| 0 <= i < mid implies K::before(
                            #[trigger] keys[i],
                            key@,
                        ) by {
                            assert(K::before(keys[i], keys[mid as int]));
                        }
                    }
                    return (mid, true);
                },
                Relation::Before => {
                    proof {
                        assert forall|i: int| 0 <= i < mid + 1 implies K::before(
                            #[trigger] keys[i],
                            key@,
                        ) by {
                            if i < mid {
                                assert(K::before(keys[i], keys[mid as int]));
                                K::before_transitive(keys[i], keys[mid as int], key@);
                            }
                        }
                    }
                    low = mid + 1;
                },
                Relation::After => {
                    proof {
                        assert forall|i: int| mid <= i < keys.len() implies K::before(
                            key@,
                            #[trigger] keys[i],
                        ) by {
                            if mid < i {
                                assert(K::before(keys[mid as int], keys[i]));
                                K::before_transitive(key@, keys[mid as int], keys[i]);
                            }
                        }
                    }
                    high = mid;
                },
            }
        }
        proof {
            if self@.contains_key(key@) {
                assert(keys.contains(key@));
                let i = choose|i: int| 0 <= i < keys.len() && keys[i] == key@;
                K::before_irreflexive(key@);
                assert(K::before(keys[i], key@) || K::before(key@, keys[i]));
            }
        }
        (low, false)
    }

    /// Whether the map has the key.
    pub fn contains_key(&self, key: &K) -> (r: bool)
        ensures
            r == self@.contains_key(key@),
    {
        self.find(key).1
    }

    /// The value of a key.
    pub fn get(&self, key: &K) -> (r: Option<&V>)
        ensures
            r matches Some(v) ==> self@.contains_key(key@) && *v == self@[key@],
            r is None ==> !self@.contains_key(key@),
    {
        proof {
            use_type_invariant(self);
            self.lemma_listed();
        }
        let (i, found) = self.find(key);
        if found {
            Some(&self.entries[i].1)
        } else {
            None
        }
    }

    /// Sets the value of a key and gives back the value it had.
    pub fn insert(&mut self, key: K, value: V) -> (r: Option<V>)
        ensures
            final(self)@ == old(self)@.insert(key@, value),
            r == (if old(self)@.contains_key(key@) { Some(old(self)@[key@]) } else { None }),
            old(self)@.contains_key(key@) ==> final(self).keys() == old(self).keys(),
    {
        let (i, found) = self.find(&key);
        let ghost before = *self;
        proof {
            use_type_invariant(&*self);
            self.lemma_listed();
        }
        let mut entries: Vec<(K, V)> = Vec::new();
        std::mem::swap(&mut entries, &mut self.entries);
        let ghost had = entries@;
        if found {
            let old_entry = entries.remove(i);
            entries.insert(i, (key, value));
            proof {
                assert(entries@ =~= had.update(i as int, (key, value)));
                assert(keys_of(entries@) =~= keys_of(had));
                assert(before@.contains_key(before.entries@[i as int].0@));
            }
            self.entries = entries;
            proof {
                let after = *self;
                after.lemma_listed();
                assert forall|k: K::V| #[trigger] after@.contains_key(k) implies after@[k]
                    == before@.insert(key@, value)[k] by {
                    let p = place(keys_of(had), k);
                    assert(keys_of(had).contains(k));
                    assert(entries@[p].0@ == k);
                }
                assert(after@ =~= before@.insert(key@, value));
            }
            Some(old_entry.1)
        } else {
            entries.insert(i, (key, value));
            let ghost keys = keys_of(had);
            proof {
                assert(entries@ =~= had.insert(i as int, (key, value)));
                assert(keys_of(entries@) =~= keys.insert(i as int, key@));
                assert forall|a: int, b: int| 0 <= a < b < entries@.len() implies K::before(
                    #[trigger] keys_of(entries@)[a],
                    #[trigger] keys_of(entries@)[b],
                ) by {
                    if a < i && b > i {
                        assert(K::before(keys[a], keys[b - 1]));
                    } else if a < i && b < i {
                        assert(K::before(keys[a], keys[b]));
                    } else if a > i {
                        assert(K::before(keys[a - 1], keys[b - 1]));
                    } else if a == i {
                        assert(K::before(key@, keys[b - 1]));
                    } else {
                        assert(K::before(keys[a], key@));
                    }
                }
            }
            self.entries = entries;
            proof {
                let after = *self;
                after.lemma_listed();
                assert forall|k: K::V| after@.contains_key(k) <==> #[trigger] before@.insert(
                    key@,
                    value,
                ).contains_key(k) by {
                    if keys.contains(k) {
                        let p = place(keys, k);
                        assert(after.keys()[if p < i { p } else { p + 1 }] == k);
                    }
                    assert(after.keys()[i as int] == key@);
                    if after.keys().contains(k) {
                        let p = place(after.keys(), k);
                        if p < i {
                            assert(keys[p] == k);
                        } else if p > i {
                            assert(keys[p - 1] == k);
                        }
                    }
                }
                assert forall|k: K::V| #[trigger] after@.contains_key(k) implies after@[k]
                    == before@.insert(key@, value)[k] by {
                    assert(after.keys().contains(k));
                    let p = place(after.keys(), k);
                    assert(entries@[p].0@ == k);
                    if p < i {
                        assert(had[p].0@ == k);
                    } else if p > i {
                        assert(had[p - 1].0@ == k);
                    }
                }
                assert(after@ =~= before@.insert(key@, value));
            }
            None
        }
    }

    /// Takes a key out of the map and gives back the value it had.
    pub fn remove(&mut self, key: &K) -> (r: Option<V>)
        ensures
            final(self)@ == old(self)@.remove(key@),
            r == (if old(self)@.contains_key(key@) { Some(old(self)@[key@]) } else { None }),
    {
        let (i, found) = self.find(key);
        let ghost before = *self;
        proof {
            use_type_invariant(&*self);
            self.lemma_listed();
        }
        if !found {
            assert(before@.remove(key@) =~= before@);
            return None;
        }
        let mut entries: Vec<(K, V)> = Vec::new();
        std::mem::swap(&mut entries, &mut self.entries);
        let ghost had = entries@;
        let ghost keys = keys_of(had);
        let old_entry = entries.remove(i);
        proof {
            assert(before@.contains_key(before.entries@[i as int].0@));
            assert(keys_of(entries@) =~= keys.remove(i as int));
            assert forall|a: int, b: int| 0 <= a < b < entries@.len() implies K::before(
                #[trigger] keys_of(entries@)[a],
                #[trigger] keys_of(entries@)[b],
            ) by {
                let x = if a < i { a } else { a + 1 };
                let y = if b < i { b } else { b + 1 };
                assert(K::before(keys[x], keys[y]));
            }
        }
        self.entries = entries;
        proof {
            let after = *self;
            after.lemma_listed();
            assert forall|k: K::V| after@.contains_key(k) <==> #[trigger] before@.remove(
                key@,
            ).contains_key(k) by {
                if keys.contains(k) && k != key@ {
                    let p = place(keys, k);
                    assert(after.keys()[if p < i { p } else { p - 1 }] == k);
                }
                if after.keys().contains(k) {
                    let p = place(after.keys(), k);
                    let q = if p < i { p } else { p + 1 };
                    assert(keys[q] == k);
                    assert(keys[i as int] == key@);
                }
            }
            assert forall|k: K::V| #[trigger] after@.contains_key(k) implies after@[k]
                == before@[k] by {
                assert(after.keys().contains(k));
                let p = place(after.keys(), k);
                let q = if p < i { p } else { p + 1 };
                assert(entries@[p].0@ == k);
                assert(had[q].0@ == k);
            }
            assert(after@ =~= before@.remove(key@));
        }
        Some(old_entry.1)
    }

    /// The entries as a list in key order.
    pub fn into_entries(self) -> (r: Vec<(K, V)>)
        ensures
            self.keys_listed(),
            r.len() == self.keys().len(),
            forall|i: int|
                0 <= i < r.len() ==> {
                    &&& (#[trigger] r@[i]).0@ == self.keys()[i]
                    &&& self@.contains_key(r@[i].0@)
                    &&& r@[i].1 == self@[r@[i].0@]
                },
    {
        proof {
            use_type_invariant(&self);
            self.lemma_listed();
        }
        self.entries
    }
}

/// The map that the entries of `s` give, where a later entry replaces an
/// earlier one with the same key.
pub open spec fn entries_map<K: MapKey, V>(s: Seq<(K, V)>) -> Map<K::V, V>
    decreases s.len(),
{
    if s.len() == 0 {
        Map::empty()
    } else {
        entries_map(s.drop_last()).insert(s.last().0@, s.last().1)
    }
}

impl<K: MapKey, V> SortedMap<K, V> {
    /// Builds the map of a list of entries.
    pub fn from_entries(entries: Vec<(K, V)>) -> (r: Self)
        ensures
            r@ == entries_map(entries@),
    {
        let mut r: SortedMap<K, V> = SortedMap::new();
        let ghost all = entries@;
        for entry in iter: entries
            invariant
                iter.seq() == all,
                r@ == entries_map(all.take(iter.index() as int)),
        {
            proof {
                let i = iter.index() as int;
                assert(all.take(i + 1).drop_last() =~= all.take(i));
            }
            r.insert(entry.0, entry.1);
        }
        assert(all.take(all.len() as int) =~= all);
        r
    }
}

impl<K: MapKey, V: Clone> Clone for SortedMap<K, V> {
    fn clone(&self) -> (r: Self)
        ensures
            r.keys() == self.keys(),
            r@.dom() == self@.dom(),
            forall|k: K::V| #[trigger]
                self@.contains_key(k) ==> cloned::<V>(self@[k], r@[k]),
    {
        proof {
            use_type_invariant(self);
            self.lemma_listed();
        }
        let mut entries: Vec<(K, V)> = Vec::new();
        let mut i: usize = 0;
        while i < self.entries.len()
            invariant
                i <= self.entries.len(),
                entries.len() == i,
                forall|j: int|
                    0 <= j < i ==> {
                        &&& (#[trigger] entries@[j]).0@ == self.entries@[j].0@
                        &&& cloned::<V>(self.entries@[j].1, entries@[j].1)
                    },
            decreases self.entries.len() - i,
        {
            entries.push((self.entries[i].0.duplicate(), self.entries[i].1.clone()));
            i = i + 1;
        }
        assert(keys_of(entries@) =~= keys_of(self.entries@));
        let r = SortedMap { entries };
        proof {
            r.lemma_listed();
            assert forall|k: K::V| #[trigger] self@.contains_key(k) implies cloned::<V>(
                self@[k],
                r@[k],
            ) by {
                assert(self.keys().contains(k));
                let p = place(self.keys(), k);
                assert(self.entries@[p].0@ == k);
                assert(r.entries@[p].0@ == k);
            }
            assert(r@.dom() =~= self@.dom());
        }
        r
    }
}

/// The entries of `m` that `keep` accepts.
pub open spec fn kept<A, B>(m: Map<A, B>, keep: spec_fn(A, B) -> bool) -> Map<A, B> {
    Map::new(|k: A| m.contains_key(k) && keep(k, m[k]), |k: A| m[k])
}

impl<K: MapKey, V> SortedMap<K, V> {
    /// Takes out every entry that `f` refuses; `keep` is what `f` computes.
    pub(crate) fn retain<F: Fn(&K, &V) -> bool>(
        &mut self,
        f: F,
        Ghost(keep): Ghost<spec_fn(K::V, V) -> bool>,
    )
        requires
            forall|k: &K, v: &V| #[trigger] f.requires((k, v)),
            forall|k: &K, v: &V, b: bool| #[trigger] f.ensures((k, v), b) ==> b == keep(k@, *v),
        ensures
            final(self)@ == kept(old(self)@, keep),
    {
        proof {
            use_type_invariant(&*self);
            self.lemma_listed();
        }
        let ghost before = *self;
        let mut all: SortedMap<K, V> = SortedMap::new();
        std::mem::swap(&mut all, self);
        let entries = all.into_entries();
        let mut out: SortedMap<K, V> = SortedMap::new();
        let ghost done: int = 0;
        for entry in iter: entries
            invariant
                iter.seq() == entries@,
                done == iter.index(),
                before.keys_listed(),
                entries@.len() == before.keys().len(),
                forall|i: int|
                    0 <= i < entries@.len() ==> {
                        &&& (#[trigger] entries@[i]).0@ == before.keys()[i]
                        &&& before@.contains_key(entries@[i].0@)
                        &&& entries@[i].1 == before@[entries@[i].0@]
                    },
                forall|k: &K, v: &V| #[trigger] f.requires((k, v)),
                forall|k: &K, v: &V, b: bool| #[trigger]
                    f.ensures((k, v), b) ==> b == keep(k@, *v),
                forall|i: int|
                    0 <= i < done && keep(#[trigger] before.keys()[i], before@[before.keys()[i]])
                        ==> out@.contains_key(before.keys()[i]),
                forall|k: K::V| #[trigger]
                    out@.contains_key(k) ==> before@.contains_key(k) && keep(k, before@[k])
                        && out@[k] == before@[k],
        {
            assert(entry == entries@[iter.index() as int]);
            if f(&entry.0, &entry.1) {
                out.insert(entry.0, entry.1);
            }
            proof {
                done = done + 1;
            }
        }
        proof {
            assert forall|k: K::V|
                before@.contains_key(k) && keep(k, before@[k]) implies #[trigger] out@.contains_key(
                k,
            ) by {
                assert(before.keys().contains(k));
                let p = place(before.keys(), k);
                assert(before.keys()[p] == k);
            }
            assert(out@ =~= kept(before@, keep));
        }
        *self = out;
    }
}

/// A set whose items stand in order.
#[derive(Debug, PartialEq, Eq)]
pub struct SortedSet<K: MapKey> {
    map: SortedMap<K, ()>,
}

impl<K: MapKey> View for SortedSet<K> {
    type V = Set<K::V>;

    closed spec fn view(&self) -> Set<K::V> {
        self.map@.dom()
    }
}

impl<K: MapKey> SortedSet<K> {
    /// The items in their order.
    pub closed spec fn items(&self) -> Seq<K::V> {
        self.map.keys()
    }

    /// What the item sequence says of the set.
    pub open spec fn items_listed(&self) -> bool {
        &&& ascending::<K>(self.items())
        &&& self.items().no_duplicates()
        &&& forall|k: K::V| #[trigger] self.items().contains(k) <==> self@.contains(k)
        &&& self@.finite()
        &&& self@.len() == self.items().len()
    }

    /// A set without items.
    pub fn new() -> (r: Self)
        ensures
            r@ == Set::<K::V>::empty(),
            r.items() == Seq::<K::V>::empty(),
    {
        let r = SortedSet { map: SortedMap::new() };
        assert(r@ =~= Set::<K::V>::empty());
        r
    }

    /// The number of items.
    pub fn len(&self) -> (n: usize)
        ensures
            n == self@.len(),
            n == self.items().len(),
            self.items_listed(),
    {
        self.map.len()
    }

    /// Whether the set has no item.
    pub fn is_empty(&self) -> (r: bool)
        ensures
            r <==> self@ == Set::<K::V>::empty(),
            self.items_listed(),
    {
        let n = self.len();
        proof {
            if n == 0 {
                assert(self@ =~= Set::empty());
            }
        }
        n == 0
    }

    /// The item at a place.
    pub fn at(&self, i: usize) -> (k: &K)
        requires
            i < self.items().len(),
        ensures
            k@ == self.items()[i as int],
            self@.contains(k@),
            self.items_listed(),
    {
        self.map.key_at(i)
    }

    /// Whether the set has the item.
    pub fn contains(&self, key: &K) -> (r: bool)
        ensures
            r == self@.contains(key@),
    {
        self.map.contains_key(key)
    }

    /// Adds an item, and says whether it was not there before.
    pub fn insert(&mut self, key: K) -> (r: bool)
        ensures
            final(self)@ == old(self)@.insert(key@),
            r == !old(self)@.contains(key@),
    {
        let ghost before = *self;
        let r = self.map.insert(key, ()).is_none();
        assert(self@ =~= before@.insert(key@));
        r
    }

    /// Takes an item out, and says whether it was there before.
    pub fn remove(&mut self, key: &K) -> (r: bool)
        ensures
            final(self)@ == old(self)@.remove(key@),
            r == old(self)@.contains(key@),
    {
        let ghost before = *self;
        let r = self.map.remove(key).is_some();
        assert(self@ =~= before@.remove(key@));
        r
    }

    /// The set of the views of a list's items.
    pub open spec fn of(items: Seq<K>) -> Set<K::V> {
        Set::new(|k: K::V| exists|i: int| 0 <= i < items.len() && (#[trigger] items[i])@ == k)
    }

    /// The set of the items of a list.
    pub fn from_items(items: Vec<K>) -> (r: Self)
        ensures
            r@ == Self::of(items@),
    {
        let mut r: SortedSet<K> = SortedSet::new();
        let ghost all = items@;
        assert(r@ =~= Self::of(all.take(0)));
        for item in iter: items
            invariant
                iter.seq() == all,
                r@ == Self::of(all.take(iter.index() as int)),
        {
            let ghost i = iter.index() as int;
            let ghost had = r@;
            r.insert(item);
            proof {
                let next = all.take(i + 1);
                assert(item == next[i]);
                assert forall|k: K::V| #[trigger] had.insert(item@).contains(k) implies Self::of(
                    next,
                ).contains(k) by {
                    if k == item@ {
                        assert(next[i]@ == k);
                    } else {
                        let j = choose|j: int|
                            0 <= j < all.take(i).len() && (#[trigger] all.take(i)[j])@ == k;
                        assert(next[j]@ == k);
                    }
                }
                assert forall|k: K::V| #[trigger] Self::of(next).contains(k) implies had.insert(
                    item@,
                ).contains(k) by {
                    let j = choose|j: int| 0 <= j < next.len() && (#[trigger] next[j])@ == k;
                    if j < i {
                        assert(all.take(i)[j]@ == k);
                    }
                }
                assert(r@ =~= Self::of(next));
            }
        }
        assert(all.take(all.len() as int) =~= all);
        r
    }
}

impl<K: MapKey> Clone for SortedSet<K> {
    fn clone(&self) -> (r: Self)
        ensures
            r@ == self@,
            r.items() == self.items(),
    {
        SortedSet { map: self.map.clone() }
    }
}

} // verus!
