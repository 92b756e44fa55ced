//! The partition counts of subscribed topics.
//!
//! A topic never loses partitions. The counts that an assignment was computed
//! against only grow, so that a short metadata answer causes no rejoin.
use vstd::prelude::*;

use crate::collections::{lemma_take_next, SortedMap};
use crate::metadata::{topic_name, MetadataResponse, MetadataTopic};
use crate::subscription::{text_set, Subscription};
use crate::wire::Uuid;

verus! {

/// The count of a topic, 0 where it is not known.
pub open spec fn count_of(counts: Map<Seq<char>, i32>, topic: Seq<char>) -> i32 {
    if counts.contains_key(topic) {
        counts[topic]
    } else {
        0
    }
}

/// Whether a topic has more partitions than are known.
pub open spec fn grew(known: Map<Seq<char>, i32>, current: Map<Seq<char>, i32>) -> bool {
    exists|t: Seq<char>| #[trigger] current.contains_key(t) && current[t] > count_of(known, t)
}

/// Whether a subscribed topic appeared or gained partitions. The group must
/// then join again, so that the new partitions are distributed.
pub fn subscribed_topics_grew(known: &SortedMap<String, i32>, current: &SortedMap<String, i32>) -> (r:
    bool)
    ensures
        r == grew(known@, current@),
{
    let n = current.len();
    let mut i: usize = 0;
    while i < n
        invariant
            n == current.keys().len(),
            current.keys_listed(),
            i <= n,
            forall|j: int|
                0 <= j < i ==> current@[#[trigger] current.keys()[j]] <= count_of(
                    known@,
                    current.keys()[j],
                ),
        decreases n - i,
    {
        let count = *current.value_at(i);
        let had: i32 = match known.get(current.key_at(i)) {
            Some(had) => *had,
            None => 0,
        };
        if count > had {
            assert(current@.contains_key(current.keys()[i as int]));
            return true;
        }
        i = i + 1;
    }
    proof {
        if grew(known@, current@) {
            let t = choose|t: Seq<char>| #[trigger]
                current@.contains_key(t) && current@[t] > count_of(known@, t);
            assert(current.keys().contains(t));
            let j = choose|j: int| 0 <= j < n && current.keys()[j] == t;
            assert(current@[current.keys()[j]] <= count_of(known@, current.keys()[j]));
        }
    }
    false
}

/// The larger of two counts.
pub open spec fn larger(a: i32, b: i32) -> i32 {
    if a < b {
        b
    } else {
        a
    }
}

/// The known counts after `current` was merged into them: the larger count of
/// each topic.
pub open spec fn merged(known: Map<Seq<char>, i32>, current: Map<Seq<char>, i32>) -> Map<
    Seq<char>,
    i32,
> {
    Map::new(
        |t: Seq<char>| known.contains_key(t) || current.contains_key(t),
        |t: Seq<char>|
            if current.contains_key(t) {
                larger(count_of(known, t), current[t])
            } else {
                known[t]
            },
    )
}

/// Merge `current` into the known counts.
pub fn merge_counts(known: &mut SortedMap<String, i32>, current: &SortedMap<String, i32>)
    ensures
        final(known)@ == merged(old(known)@, current@),
{
    let ghost before = known@;
    let ghost keys = current.keys();
    let n = current.len();
    let mut i: usize = 0;
    while i < n
        invariant
            n == keys.len(),
            keys == current.keys(),
            current.keys_listed(),
            i <= n,
            forall|t: Seq<char>| #[trigger]
                known@.contains_key(t) <==> before.contains_key(t) || keys.take(i as int).contains(
                    t,
                ),
            forall|t: Seq<char>| #[trigger]
                known@.contains_key(t) ==> known@[t] == if keys.take(i as int).contains(t) {
                    larger(count_of(before, t), current@[t])
                } else {
                    before[t]
                },
        decreases n - i,
    {
        let topic = current.key_at(i);
        let count = *current.value_at(i);
        proof {
            lemma_take_next(keys, i as int);
            assert(!keys.take(i as int).contains(keys[i as int])) by {
                if keys.take(i as int).contains(keys[i as int]) {
                    let j = choose|j: int|
                        0 <= j < keys.take(i as int).len() && keys.take(i as int)[j]
                            == keys[i as int];
                    assert(keys[j] == keys[i as int]);
                }
            }
        }
        let had: i32 = match known.get(topic) {
            Some(had) => *had,
            None => 0,
        };
        known.insert(
            topic.clone(),
            if had < count {
                count
            } else {
                had
            },
        );
        i = i + 1;
    }
    proof {
        assert(keys.take(n as int) =~= keys);
        assert(known@ =~= merged(before, current@));
    }
}

/// Merged counts never fall, and the merged counts themselves are no growth: a
/// rejoin for them does not start again.
pub proof fn law_merged_counts_only_advance(
    known: Map<Seq<char>, i32>,
    current: Map<Seq<char>, i32>,
)
    ensures
        forall|t: Seq<char>| #[trigger]
            count_of(merged(known, current), t) >= count_of(known, t),
        !grew(merged(known, current), current),
        merged(merged(known, current), current) == merged(known, current),
{
    let after = merged(known, current);
    if grew(after, current) {
        let t = choose|t: Seq<char>| #[trigger]
            current.contains_key(t) && current[t] > count_of(after, t);
        assert(false);
    }
    assert(merged(after, current) =~= after);
}

/// A member that is not the leader has no counts to merge; the known ones stay.
pub proof fn law_empty_counts_change_nothing(known: Map<Seq<char>, i32>)
    ensures
        merged(known, Map::empty()) == known,
{
    assert(merged(known, Map::<Seq<char>, i32>::empty()) =~= known);
}

/// The number of partitions of a topic, as far as it fits.
pub open spec fn partition_count(topic: MetadataTopic) -> i32 {
    if topic.partitions@.len() > i32::MAX {
        i32::MAX
    } else {
        topic.partitions@.len() as i32
    }
}

/// The counts of the topics in `wanted`; a later topic replaces an earlier one.
pub open spec fn topic_counts(topics: Seq<MetadataTopic>, wanted: Set<Seq<char>>) -> Map<
    Seq<char>,
    i32,
>
    decreases topics.len(),
{
    if topics.len() == 0 {
        Map::empty()
    } else {
        let before = topic_counts(topics.drop_last(), wanted);
        match topic_name(topics.last()) {
            Some(name) => if wanted.contains(name) {
                before.insert(name, partition_count(topics.last()))
            } else {
                before
            },
            None => before,
        }
    }
}

/// The ids of the topics in `wanted`, written over `ids`.
pub open spec fn topic_ids_after(
    ids: Map<Seq<char>, Uuid>,
    topics: Seq<MetadataTopic>,
    wanted: Set<Seq<char>>,
) -> Map<Seq<char>, Uuid>
    decreases topics.len(),
{
    if topics.len() == 0 {
        ids
    } else {
        let before = topic_ids_after(ids, topics.drop_last(), wanted);
        match topic_name(topics.last()) {
            Some(name) => if wanted.contains(name) {
                before.insert(name, topics.last().topic_id)
            } else {
                before
            },
            None => before,
        }
    }
}

/// The number of partitions of a topic.
fn count_partitions(topic: &MetadataTopic) -> (r: i32)
    ensures
        r == partition_count(*topic),
{
    let n = topic.partitions.len();
    if n > i32::MAX as usize {
        i32::MAX
    } else {
        n as i32
    }
}

/// The partition count of each subscribed topic that the metadata has. A
/// subscribed topic that does not exist yet is not in the map.
pub fn subscribed_partition_counts(
    metadata: &MetadataResponse,
    subscription: &Subscription,
) -> (r: SortedMap<String, i32>)
    ensures
        r@ == topic_counts(metadata.topics@, text_set(subscription.topics@)),
{
    let mut counts: SortedMap<String, i32> = SortedMap::new();
    let ghost wanted = text_set(subscription.topics@);
    let mut i: usize = 0;
    while i < metadata.topics.len()
        invariant
            i <= metadata.topics@.len(),
            wanted == text_set(subscription.topics@),
            counts@ == topic_counts(metadata.topics@.take(i as int), wanted),
        decreases metadata.topics.len() - i,
    {
        assert(metadata.topics@.take(i + 1).drop_last() =~= metadata.topics@.take(i as int));
        let topic = &metadata.topics[i];
        if let Some(name) = &topic.name {
            if subscription.contains(name.as_str()) {
                counts.insert(name.clone(), count_partitions(topic));
            }
        }
        i = i + 1;
    }
    assert(metadata.topics@.take(i as int) =~= metadata.topics@);
    counts
}

/// The partition count of each topic that a member of the group subscribes to.
pub fn member_partition_counts(
    metadata: &MetadataResponse,
    wanted: &crate::collections::SortedSet<String>,
) -> (r: SortedMap<String, i32>)
    ensures
        r@ == topic_counts(metadata.topics@, wanted@),
{
    let mut counts: SortedMap<String, i32> = SortedMap::new();
    let mut i: usize = 0;
    while i < metadata.topics.len()
        invariant
            i <= metadata.topics@.len(),
            counts@ == topic_counts(metadata.topics@.take(i as int), wanted@),
        decreases metadata.topics.len() - i,
    {
        assert(metadata.topics@.take(i + 1).drop_last() =~= metadata.topics@.take(i as int));
        let topic = &metadata.topics[i];
        if let Some(name) = &topic.name {
            if wanted.contains(name) {
                counts.insert(name.clone(), count_partitions(topic));
            }
        }
        i = i + 1;
    }
    assert(metadata.topics@.take(i as int) =~= metadata.topics@);
    counts
}

/// Learn the ids of the subscribed topics.
pub fn learn_topic_ids(
    ids: &mut SortedMap<String, Uuid>,
    metadata: &MetadataResponse,
    subscription: &Subscription,
)
    ensures
        final(ids)@ == topic_ids_after(
            old(ids)@,
            metadata.topics@,
            text_set(subscription.topics@),
        ),
{
    let ghost before = ids@;
    let ghost wanted = text_set(subscription.topics@);
    let mut i: usize = 0;
    while i < metadata.topics.len()
        invariant
            i <= metadata.topics@.len(),
            wanted == text_set(subscription.topics@),
            ids@ == topic_ids_after(before, metadata.topics@.take(i as int), wanted),
        decreases metadata.topics.len() - i,
    {
        assert(metadata.topics@.take(i + 1).drop_last() =~= metadata.topics@.take(i as int));
        let topic = &metadata.topics[i];
        if let Some(name) = &topic.name {
            if subscription.contains(name.as_str()) {
                ids.insert(name.clone(), topic.topic_id);
            }
        }
        i = i + 1;
    }
    assert(metadata.topics@.take(i as int) =~= metadata.topics@);
}

} // verus!
