//! The partitions that a member is assigned, as the coordinator listed them.
use vstd::multiset::Multiset;
use vstd::prelude::*;

use crate::collections::{ascending, SortedSet};
use crate::list_offsets::{has_key, key_views};
use crate::wire::{copy_key, PartitionKey, TopicPartition};

verus! {

/// A second list with the same keys.
pub fn copy_keys(keys: &Vec<TopicPartition>) -> (r: Vec<TopicPartition>)
    ensures
        key_views(r@) == key_views(keys@),
{
    let mut r: Vec<TopicPartition> = Vec::new();
    let mut i: usize = 0;
    while i < keys.len()
        invariant
            i <= keys@.len(),
            key_views(r@) =~= key_views(keys@).take(i as int),
        decreases keys.len() - i,
    {
        let key = copy_key(&keys[i]);
        let ghost had = r@;
        r.push(key);
        proof {
            assert(key_views(r@) =~= key_views(had).push(key@));
        }
        i = i + 1;
    }
    assert(key_views(keys@).take(i as int) =~= key_views(keys@));
    r
}

/// The set of the keys of a list.
pub fn key_set(keys: &Vec<TopicPartition>) -> (r: SortedSet<TopicPartition>)
    ensures
        r@ == key_views(keys@).to_set(),
{
    let mut r: SortedSet<TopicPartition> = SortedSet::new();
    let ghost all = key_views(keys@);
    let mut i: usize = 0;
    assert(r@ =~= all.take(0).to_set());
    while i < keys.len()
        invariant
            i <= keys@.len(),
            all == key_views(keys@),
            r@ == all.take(i as int).to_set(),
        decreases keys.len() - i,
    {
        proof {
            crate::collections::lemma_take_next(all, i as int);
            assert(all[i as int] == keys@[i as int]@);
        }
        r.insert(copy_key(&keys[i]));
        assert(r@ =~= all.take(i + 1).to_set()) by {
            assert forall|k: PartitionKey| all.take(i + 1).to_set().contains(k) <==> #[trigger]
                all.take(i as int).to_set().insert(all[i as int]).contains(k) by {
                assert(all.take(i + 1).contains(k) <==> all.take(i as int).contains(k) || k
                    == all[i as int]);
            }
        }
        i = i + 1;
    }
    assert(all.take(i as int) =~= all);
    r
}

/// The partitions of a member: the list of its assignment, and the set of them.
#[derive(Debug, PartialEq, Eq)]
pub struct Assignment {
    list: Vec<TopicPartition>,
    set: SortedSet<TopicPartition>,
}

impl View for Assignment {
    type V = Set<PartitionKey>;

    /// The assigned partitions.
    open spec fn view(&self) -> Set<PartitionKey> {
        self.listed().to_set()
    }
}

impl Assignment {
    #[verifier::type_invariant]
    spec fn same_partitions(self) -> bool {
        self.set@ == key_views(self.list@).to_set()
    }

    /// The partitions in the order of the assignment.
    pub closed spec fn listed(&self) -> Seq<PartitionKey> {
        key_views(self.list@)
    }

    /// The partitions in their order, each once.
    pub closed spec fn items(&self) -> Seq<PartitionKey> {
        self.set.items()
    }

    /// What the item sequence says of the partitions.
    pub open spec fn items_listed(&self) -> bool {
        &&& ascending::<TopicPartition>(self.items())
        &&& self.items().no_duplicates()
        &&& forall|k: PartitionKey| #[trigger] self.items().contains(k) <==> self@.contains(k)
        &&& self@.finite()
        &&& self@.len() == self.items().len()
    }

    /// No partitions.
    pub fn new() -> (r: Self)
        ensures
            r.listed() == Seq::<PartitionKey>::empty(),
            r@ == Set::<PartitionKey>::empty(),
    {
        Self::from_list(Vec::new())
    }

    /// The partitions of a list, in its order.
    pub fn from_list(list: Vec<TopicPartition>) -> (r: Self)
        ensures
            r.listed() == key_views(list@),
            list@.len() == 0 ==> r.listed() == Seq::<PartitionKey>::empty() && r@ == Set::<
                PartitionKey,
            >::empty(),
    {
        let set = key_set(&list);
        let r = Assignment { list, set };
        proof {
            if list@.len() == 0 {
                assert(r.listed() =~= Seq::empty());
                assert(r@ =~= Set::empty());
            }
        }
        r
    }

    /// Add the partitions of a list that are not there yet, in its order.
    pub fn add_new(&mut self, more: &Vec<TopicPartition>)
        ensures
            final(self).listed() == with_new(old(self).listed(), key_views(more@)),
            final(self)@ == old(self)@.union(key_views(more@).to_set()),
    {
        let ghost before = self.listed();
        let ghost all = key_views(more@);
        let mut list = self.list();
        let mut i: usize = 0;
        assert(with_new(before, all.take(0)) =~= before);
        while i < more.len()
            invariant
                i <= more@.len(),
                all == key_views(more@),
                key_views(list@) == with_new(before, all.take(i as int)),
            decreases more.len() - i,
        {
            proof {
                assert(all.take(i + 1).drop_last() =~= all.take(i as int));
                assert(all.take(i + 1).last() == more@[i as int]@);
            }
            if !has_key(&list, &more[i]) {
                let key = copy_key(&more[i]);
                let ghost had = list@;
                list.push(key);
                assert(key_views(list@) =~= key_views(had).push(key@));
            }
            i = i + 1;
        }
        proof {
            assert(all.take(i as int) =~= all);
            lemma_with_new(before, all);
        }
        *self = Assignment::from_list(list);
    }

    /// The partitions as a list, in the order of the assignment.
    pub fn list(&self) -> (r: Vec<TopicPartition>)
        ensures
            key_views(r@) == self.listed(),
    {
        copy_keys(&self.list)
    }

    /// The set of the partitions.
    pub fn set(&self) -> (r: &SortedSet<TopicPartition>)
        ensures
            r@ == self@,
            r.items() == self.items(),
    {
        proof {
            use_type_invariant(self);
        }
        &self.set
    }

    /// The number of different partitions.
    pub fn len(&self) -> (n: usize)
        ensures
            n == self@.len(),
            n == self.items().len(),
            self.items_listed(),
    {
        self.set().len()
    }

    /// Whether there is no partition.
    pub fn is_empty(&self) -> (r: bool)
        ensures
            r <==> self@ == Set::<PartitionKey>::empty(),
            self.items_listed(),
    {
        self.set().is_empty()
    }

    /// The partition at a place of the items.
    pub fn at(&self, i: usize) -> (k: &TopicPartition)
        requires
            i < self.items().len(),
        ensures
            k@ == self.items()[i as int],
            self@.contains(k@),
            self.items_listed(),
    {
        self.set().at(i)
    }

    /// Whether a partition is assigned.
    pub fn contains(&self, key: &TopicPartition) -> (r: bool)
        ensures
            r == self@.contains(key@),
    {
        self.set().contains(key)
    }
}

impl Clone for Assignment {
    fn clone(&self) -> (r: Self)
        ensures
            r.listed() == self.listed(),
    {
        Self::from_list(copy_keys(&self.list))
    }
}

/// `list`, followed by the keys of `more` that it does not have yet, each once.
pub open spec fn with_new(list: Seq<PartitionKey>, more: Seq<PartitionKey>) -> Seq<PartitionKey>
    decreases more.len(),
{
    if more.len() == 0 {
        list
    } else {
        let before = with_new(list, more.drop_last());
        if before.contains(more.last()) {
            before
        } else {
            before.push(more.last())
        }
    }
}

/// The keys of both lists are there, and no other.
pub proof fn lemma_with_new(list: Seq<PartitionKey>, more: Seq<PartitionKey>)
    ensures
        with_new(list, more).to_set() == list.to_set().union(more.to_set()),
    decreases more.len(),
{
    let all = with_new(list, more);
    if more.len() > 0 {
        let front = more.drop_last();
        let last = more.last();
        let before = with_new(list, front);
        lemma_with_new(list, front);
        assert forall|k: PartitionKey| #[trigger] more.to_set().contains(k) <==> (
        front.to_set().contains(k) || k == last) by {
            assert(more[more.len() - 1] == last);
            if front.contains(k) {
                let j = choose|j: int| 0 <= j < front.len() && front[j] == k;
                assert(more[j] == k);
            }
            if more.contains(k) && k != last {
                let j = choose|j: int| 0 <= j < more.len() && more[j] == k;
                assert(front[j] == k);
            }
        }
        assert forall|k: PartitionKey| #[trigger] all.to_set().contains(k) <==> (
        before.to_set().contains(k) || k == last) by {
            if before.contains(k) {
                let j = choose|j: int| 0 <= j < before.len() && before[j] == k;
                assert(all[j] == k);
            }
            if !before.contains(last) {
                assert(all[all.len() - 1] == last);
            }
            if all.contains(k) {
                let j = choose|j: int| 0 <= j < all.len() && all[j] == k;
                if j < before.len() {
                    assert(before[j] == k);
                }
            }
        }
        assert forall|k: PartitionKey| #[trigger] all.to_set().contains(k) <==> list.to_set().union(
            more.to_set(),
        ).contains(k) by {
            assert(before.to_set().contains(k) <==> list.to_set().union(front.to_set()).contains(
                k,
            ));
        }
    } else {
        assert(more.to_set() =~= Set::empty());
    }
    assert(all.to_set() =~= list.to_set().union(more.to_set()));
}

/// The keys of `list` that `pick` picks, in order.
pub open spec fn picked(list: Seq<PartitionKey>, pick: spec_fn(PartitionKey) -> bool) -> Seq<
    PartitionKey,
>
    decreases list.len(),
{
    if list.len() == 0 {
        seq![]
    } else if pick(list.last()) {
        picked(list.drop_last(), pick).push(list.last())
    } else {
        picked(list.drop_last(), pick)
    }
}

/// What is picked of a list are the keys of it that are picked.
pub proof fn lemma_picked(list: Seq<PartitionKey>, pick: spec_fn(PartitionKey) -> bool)
    ensures
        picked(list, pick).to_set() == list.to_set().filter(pick),
    decreases list.len(),
{
    let all = picked(list, pick);
    if list.len() > 0 {
        let front = list.drop_last();
        let before = picked(front, pick);
        let last = list.last();
        lemma_picked(front, pick);
        assert forall|k: PartitionKey| #[trigger] all.to_set().contains(k) <==> (
        before.to_set().contains(k) || (pick(last) && k == last)) by {
            if before.contains(k) {
                let j = choose|j: int| 0 <= j < before.len() && before[j] == k;
                assert(all[j] == k);
            }
            if pick(last) {
                assert(all[all.len() - 1] == last);
            }
            if all.contains(k) {
                let j = choose|j: int| 0 <= j < all.len() && all[j] == k;
                if j < before.len() {
                    assert(before[j] == k);
                }
            }
        }
        assert forall|k: PartitionKey| #[trigger] list.to_set().contains(k) <==> (
        front.to_set().contains(k) || k == last) by {
            assert(list[list.len() - 1] == last);
            if front.contains(k) {
                let j = choose|j: int| 0 <= j < front.len() && front[j] == k;
                assert(list[j] == k);
            }
            if list.contains(k) && k != last {
                let j = choose|j: int| 0 <= j < list.len() && list[j] == k;
                assert(front[j] == k);
            }
        }
        assert forall|k: PartitionKey| #[trigger] all.to_set().contains(k) <==> list.to_set().filter(
            pick,
        ).contains(k) by {
            assert(before.to_set().contains(k) <==> front.to_set().filter(pick).contains(k));
        }
    }
    assert(all.to_set() =~= list.to_set().filter(pick));
}

/// The keys of a list that are not in a set, in order.
pub fn keys_without(list: &Vec<TopicPartition>, set: &SortedSet<TopicPartition>) -> (r: Vec<
    TopicPartition,
>)
    ensures
        key_views(r@) == picked(key_views(list@), |k: PartitionKey| !set@.contains(k)),
{
    let mut r: Vec<TopicPartition> = Vec::new();
    let ghost all = key_views(list@);
    let ghost pick = |k: PartitionKey| !set@.contains(k);
    let mut i: usize = 0;
    while i < list.len()
        invariant
            i <= list@.len(),
            all == key_views(list@),
            pick == (|k: PartitionKey| !set@.contains(k)),
            key_views(r@) =~= picked(all.take(i as int), pick),
        decreases list.len() - i,
    {
        proof {
            assert(all.take(i + 1).drop_last() =~= all.take(i as int));
            assert(all.take(i + 1).last() == list@[i as int]@);
        }
        if !set.contains(&list[i]) {
            let key = copy_key(&list[i]);
            let ghost had = r@;
            r.push(key);
            assert(key_views(r@) =~= key_views(had).push(key@));
        }
        i = i + 1;
    }
    assert(all.take(i as int) =~= all);
    r
}

/// The keys of a set as a multiset have that set as their domain.
pub proof fn lemma_from_set(set: Set<PartitionKey>)
    requires
        set.finite(),
    ensures
        Multiset::from_set(set).dom() == set,
        forall|k: PartitionKey| #[trigger]
            Multiset::from_set(set).count(k) == if set.contains(k) {
                1nat
            } else {
                0nat
            },
{
    broadcast use vstd::multiset::group_multiset_axioms;

    let m = Map::new(|k: PartitionKey| set.contains(k), |k: PartitionKey| 1nat);
    assert(m.dom() =~= set);
    assert forall|k: PartitionKey| #[trigger] Multiset::from_set(set).count(k) == if set.contains(
        k,
    ) {
        1nat
    } else {
        0nat
    } by {
        assert(m.dom().contains(k) <==> set.contains(k));
    }
    assert(Multiset::from_set(set).dom() =~= set);
}

/// The keys of a list as a multiset: their domain is the set of the list, and a
/// list without repeats has each key once.
pub proof fn lemma_list_multiset(list: Seq<PartitionKey>)
    ensures
        list.to_multiset().dom() == list.to_set(),
        list.no_duplicates() ==> list.to_multiset() == Multiset::from_set(list.to_set()),
{
    broadcast use vstd::multiset::group_multiset_axioms;

    list.to_multiset_ensures();
    vstd::seq_lib::seq_to_set_is_finite(list);
    assert(list.to_multiset().dom() =~= list.to_set());
    if list.no_duplicates() {
        lemma_from_set(list.to_set());
        list.lemma_multiset_has_no_duplicates();
        assert(list.to_multiset() =~= Multiset::from_set(list.to_set())) by {
            assert forall|k: PartitionKey| #[trigger]
                list.to_multiset().count(k) == Multiset::from_set(list.to_set()).count(k) by {
                if list.contains(k) {
                    assert(list.to_multiset().contains(k));
                }
            }
        }
    }
}

} // verus!
