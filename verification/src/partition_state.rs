//! The state of a partition that the application reads and changes: pause and
//! resume, the fetch position and the committed offset.
//!
//! A pause belongs to one ownership of its partition. A rebalance that keeps
//! the partition keeps the ownership and with it the pause; an assignment that
//! adds the partition again starts a new ownership, which is not paused.
use vstd::prelude::*;

use crate::collections::{kept, SortedMap, SortedSet};
use crate::consumer::Consumer;
use crate::error::{partition_name, partition_text, ConsumerError};
use crate::grouping::{listed, no_empty_list, push_at};
use crate::list_offsets::{has_key, is_reset_sentinel, key_views, reset_sentinel};
use crate::offset_laws::{
    has_commit_of, last_of_its_partition, law_committed_answers_each_requested_partition,
};
use crate::offset_wire::{
    build_offset_fetch, committed_view, names_topics, parse_committed_offsets, rows_committed,
    CommittedModel, OffsetAndMetadata, OffsetFetchResponse, TopicNameOffsetFetch,
};
use crate::position::PositionMap;
use crate::text::concat3;
use crate::wire::{copy_key, PartitionKey, TopicPartition};

verus! {

/// The first key of `keys` that is not in `owned`.
pub open spec fn first_missing(keys: Seq<PartitionKey>, owned: Set<PartitionKey>) -> Option<
    PartitionKey,
>
    decreases keys.len(),
{
    if keys.len() == 0 {
        None
    } else if first_missing(keys.drop_last(), owned) is Some {
        first_missing(keys.drop_last(), owned)
    } else if !owned.contains(keys.last()) {
        Some(keys.last())
    } else {
        None
    }
}

proof fn lemma_missing_stays(keys: Seq<PartitionKey>, owned: Set<PartitionKey>, n: int)
    requires
        0 <= n <= keys.len(),
        first_missing(keys.take(n), owned) is Some,
    ensures
        first_missing(keys, owned) == first_missing(keys.take(n), owned),
    decreases keys.len() - n,
{
    if n < keys.len() {
        assert(keys.take(n + 1).drop_last() =~= keys.take(n));
        lemma_missing_stays(keys, owned, n + 1);
    } else {
        assert(keys.take(n) =~= keys);
    }
}

proof fn lemma_none_missing(keys: Seq<PartitionKey>, owned: Set<PartitionKey>)
    requires
        first_missing(keys, owned) is None,
    ensures
        forall|i: int| 0 <= i < keys.len() ==> owned.contains(#[trigger] keys[i]),
    decreases keys.len(),
{
    if keys.len() > 0 {
        lemma_none_missing(keys.drop_last(), owned);
        assert forall|i: int| 0 <= i < keys.len() implies owned.contains(#[trigger] keys[i]) by {
            if i < keys.len() - 1 {
                assert(keys.drop_last()[i] == keys[i]);
            }
        }
    }
}

/// Whether an error says that the consumer does not own a partition.
pub open spec fn not_assigned(e: ConsumerError, key: PartitionKey) -> bool {
    e matches ConsumerError::NoCurrentAssignment { topic, partition } && topic@ == key.0
        && partition == key.1
}

/// The error of a call that names a partition that the consumer does not own.
pub fn no_current_assignment(key: &TopicPartition) -> (r: ConsumerError)
    ensures
        not_assigned(r, key@),
{
    ConsumerError::NoCurrentAssignment { topic: key.0.clone(), partition: key.1 }
}

/// The pauses after `keys` were paused in the ownerships `ids`.
pub open spec fn paused_more(
    paused: Map<PartitionKey, u64>,
    keys: Seq<PartitionKey>,
    ids: Map<PartitionKey, u64>,
) -> Map<PartitionKey, u64> {
    Map::new(
        |k: PartitionKey| paused.contains_key(k) || keys.contains(k),
        |k: PartitionKey|
            if keys.contains(k) {
                ids[k]
            } else {
                paused[k]
            },
    )
}

/// The pauses that are in effect for the ownerships `ids`.
pub open spec fn pauses_in_effect(
    paused: Map<PartitionKey, u64>,
    ids: Map<PartitionKey, u64>,
) -> Map<PartitionKey, u64> {
    kept(paused, |k: PartitionKey, id: u64| ids.contains_key(k) && ids[k] == id)
}

/// The position of a partition when it is valid: not a placeholder for a
/// reset, and not one that waits for validation.
pub open spec fn valid_position_of(
    offsets: Map<PartitionKey, i64>,
    positions: PositionMap,
    key: PartitionKey,
) -> Option<i64> {
    if offsets.contains_key(key) && !reset_sentinel(offsets[key]) && !(positions.contains_key(key)
        && positions[key].awaiting_validation) {
        Some(offsets[key])
    } else {
        None
    }
}

impl Consumer {
    /// The owned partition that a call names first and the consumer does not
    /// own.
    fn find_unowned(&self, partitions: &Vec<TopicPartition>) -> (r: Option<usize>)
        ensures
            r is Some <==> first_missing(
                key_views(partitions@),
                self.ownership_ids@.dom(),
            ) is Some,
            r matches Some(i) ==> i < partitions@.len() && first_missing(
                key_views(partitions@),
                self.ownership_ids@.dom(),
            ) == Some(partitions@[i as int]@),
    {
        let ghost keys = key_views(partitions@);
        let ghost owned = self.ownership_ids@.dom();
        let mut i: usize = 0;
        while i < partitions.len()
            invariant
                i <= partitions@.len(),
                keys == key_views(partitions@),
                owned == self.ownership_ids@.dom(),
                first_missing(keys.take(i as int), owned) is None,
            decreases partitions.len() - i,
        {
            proof {
                assert(keys.take(i + 1).drop_last() =~= keys.take(i as int));
                assert(keys[i as int] == partitions@[i as int]@);
            }
            if !self.ownership_ids.contains_key(&partitions[i]) {
                proof {
                    lemma_missing_stays(keys, owned, i + 1);
                }
                return Some(i);
            }
            i = i + 1;
        }
        assert(keys.take(i as int) =~= keys);
        None
    }

    /// Stop fetching from `partitions`.
    ///
    /// `poll` does not return records of a paused partition and does not fetch
    /// it. The consumer stays in the group. Records that were fetched before
    /// the pause come after [`resume`](Self::resume). A rebalance that keeps
    /// the partition keeps the pause. If the consumer does not own a
    /// partition, the call pauses none.
    pub fn pause(&mut self, partitions: &Vec<TopicPartition>) -> (r: Result<(), ConsumerError>)
        ensures
            match first_missing(key_views(partitions@), old(self).ownership_ids@.dom()) {
                Some(key) => r is Err && not_assigned(r->Err_0, key) && *final(self) == *old(self),
                None => r is Ok && final(self).paused_partitions@ == paused_more(
                    old(self).paused_partitions@,
                    key_views(partitions@),
                    old(self).ownership_ids@,
                ),
            },
            *final(self) == (Consumer {
                paused_partitions: final(self).paused_partitions,
                ..*old(self)
            }),
    {
        if let Some(i) = self.find_unowned(partitions) {
            return Err(no_current_assignment(&partitions[i]));
        }
        let ghost keys = key_views(partitions@);
        let ghost before = self.paused_partitions@;
        let ghost ids = self.ownership_ids@;
        proof {
            lemma_none_missing(keys, ids.dom());
            assert(paused_more(before, keys.take(0), ids) =~= before);
        }
        let mut i: usize = 0;
        while i < partitions.len()
            invariant
                i <= partitions@.len(),
                keys == key_views(partitions@),
                ids == self.ownership_ids@,
                forall|j: int| 0 <= j < keys.len() ==> ids.dom().contains(#[trigger] keys[j]),
                self.paused_partitions@ == paused_more(before, keys.take(i as int), ids),
                *self == (Consumer { paused_partitions: self.paused_partitions, ..*old(self) }),
            decreases partitions.len() - i,
        {
            proof {
                crate::collections::lemma_take_next(keys, i as int);
                assert(keys[i as int] == partitions@[i as int]@);
            }
            if let Some(id) = self.ownership_ids.get(&partitions[i]) {
                let id: u64 = *id;
                self.paused_partitions.insert(copy_key(&partitions[i]), id);
            }
            assert(self.paused_partitions@ =~= paused_more(before, keys.take(i + 1), ids));
            i = i + 1;
        }
        assert(keys.take(i as int) =~= keys);
        Ok(())
    }

    /// Fetch from `partitions` again. If the consumer does not own a partition,
    /// the call resumes none.
    pub fn resume(&mut self, partitions: &Vec<TopicPartition>) -> (r: Result<(), ConsumerError>)
        ensures
            match first_missing(key_views(partitions@), old(self).ownership_ids@.dom()) {
                Some(key) => r is Err && not_assigned(r->Err_0, key) && *final(self) == *old(self),
                None => r is Ok && final(self).paused_partitions@ == old(
                    self,
                ).paused_partitions@.remove_keys(key_views(partitions@).to_set()),
            },
            *final(self) == (Consumer {
                paused_partitions: final(self).paused_partitions,
                ..*old(self)
            }),
    {
        if let Some(i) = self.find_unowned(partitions) {
            return Err(no_current_assignment(&partitions[i]));
        }
        let ghost keys = key_views(partitions@);
        let ghost before = self.paused_partitions@;
        assert(before.remove_keys(keys.take(0).to_set()) =~= before);
        let mut i: usize = 0;
        while i < partitions.len()
            invariant
                i <= partitions@.len(),
                keys == key_views(partitions@),
                self.paused_partitions@ == before.remove_keys(keys.take(i as int).to_set()),
                *self == (Consumer { paused_partitions: self.paused_partitions, ..*old(self) }),
            decreases partitions.len() - i,
        {
            proof {
                crate::collections::lemma_take_next(keys, i as int);
                assert(keys[i as int] == partitions@[i as int]@);
            }
            self.paused_partitions.remove(&partitions[i]);
            assert(self.paused_partitions@ =~= before.remove_keys(keys.take(i + 1).to_set())) by {
                assert forall|k: PartitionKey| keys.take(i + 1).to_set().contains(k) <==> #[trigger]
                    keys.take(i as int).to_set().contains(k) || k == keys[i as int] by {
                    assert(keys.take(i + 1).contains(k) <==> keys.take(i as int).contains(k) || k
                        == keys[i as int]);
                }
            }
            i = i + 1;
        }
        assert(keys.take(i as int) =~= keys);
        Ok(())
    }

    /// The partitions whose pause is in effect for the ownerships of the
    /// consumer. The other pauses end.
    pub fn paused_of(&mut self) -> (r: SortedSet<TopicPartition>)
        ensures
            final(self).paused_partitions@ == pauses_in_effect(
                old(self).paused_partitions@,
                old(self).ownership_ids@,
            ),
            r@ == final(self).paused_partitions@.dom(),
            *final(self) == (Consumer {
                paused_partitions: final(self).paused_partitions,
                ..*old(self)
            }),
    {
        let ghost ids = self.ownership_ids@;
        let ownership_ids = &self.ownership_ids;
        let in_effect = |k: &TopicPartition, id: &u64| -> (b: bool)
            ensures
                b == (ownership_ids@.contains_key(k@) && ownership_ids@[k@] == *id),
            {
                match ownership_ids.get(k) {
                    Some(owned) => *owned == *id,
                    None => false,
                }
            };
        self.paused_partitions.retain(
            in_effect,
            Ghost(|k: PartitionKey, id: u64| ids.contains_key(k) && ids[k] == id),
        );
        map_keys(&self.paused_partitions)
    }

    /// The paused partitions that the consumer owns.
    pub fn paused(&mut self) -> (r: SortedSet<TopicPartition>)
        ensures
            r@ == pauses_in_effect(
                old(self).paused_partitions@,
                old(self).ownership_ids@,
            ).dom(),
            *final(self) == (Consumer {
                paused_partitions: final(self).paused_partitions,
                ..*old(self)
            }),
            final(self).paused_partitions@ == pauses_in_effect(
                old(self).paused_partitions@,
                old(self).ownership_ids@,
            ),
    {
        self.paused_of()
    }

    /// The position of `key` when it is valid. A position that waits for a
    /// reset or for validation is not valid.
    pub fn valid_position(&self, key: &TopicPartition) -> (r: Option<i64>)
        ensures
            r == valid_position_of(self.next_offsets@, self.positions@, key@),
    {
        let offset = match self.next_offsets.get(key) {
            Some(offset) => *offset,
            None => {
                return None;
            },
        };
        let awaiting_validation = match self.positions.get(key) {
            Some(position) => position.awaiting_validation,
            None => false,
        };
        if !is_reset_sentinel(offset) && !awaiting_validation {
            Some(offset)
        } else {
            None
        }
    }

    /// The offset of the next record that `poll` fetches for a partition, or
    /// `Ok(None)` while the partition waits for an offset reset or for a
    /// validation. The caller then updates the fetch positions and asks again.
    pub fn position(&self, topic: &str, partition: i32) -> (r: Result<Option<i64>, ConsumerError>)
        ensures
            r is Err <==> !self.assigned@.contains((topic@, partition)),
            r matches Err(e) ==> not_assigned(e, (topic@, partition)),
            r matches Ok(offset) ==> offset == valid_position_of(
                self.next_offsets@,
                self.positions@,
                (topic@, partition),
            ),
    {
        let key: TopicPartition = (topic.to_owned(), partition);
        assert(key@ == (topic@, partition));
        if !self.assigned.contains(&key) {
            return Err(no_current_assignment(&key));
        }
        Ok(self.valid_position(&key))
    }

    /// The error of a `position` that is not known in time.
    pub fn position_timeout(topic: &str, partition: i32) -> (r: ConsumerError)
        ensures
            r matches ConsumerError::Timeout { message, cause } && cause is None && message@
                == "the position for partition "@ + partition_name(topic@, partition as int)
                + " could not be determined"@,
    {
        ConsumerError::timeout(
            concat3(
                "the position for partition ",
                partition_text(topic, partition).as_str(),
                " could not be determined",
            ),
        )
    }

    /// The offset fetch that asks for the committed offsets of `partitions`,
    /// or `None` when there is nothing to ask.
    pub fn committed_request(&self, partitions: &Vec<TopicPartition>) -> (r: Result<
        Option<(TopicNameOffsetFetch, SortedMap<String, Vec<i32>>)>,
        ConsumerError,
    >)
        ensures
            r is Err <==> !self.has_group(),
            r matches Err(e) ==> e is InvalidGroupId,
            r matches Ok(request) ==> {
                &&& request is None <==> partitions@.len() == 0
                &&& request matches Some(asked) ==> {
                    &&& asked.0.group_id@ == self.settings.group_id@
                    &&& names_topics(asked.0.topics@, asked.1)
                    &&& asked.0.groups@.len() == 1
                    &&& asked.0.groups@[0].group_id@ == self.settings.group_id@
                    &&& names_topics(asked.0.groups@[0].topics@, asked.1)
                    &&& asked.0.require_stable
                    &&& no_empty_list(asked.1@)
                    &&& forall|t: Seq<char>| #[trigger]
                        listed(asked.1@, t) == partitions_of(key_views(partitions@), t)
                }
            },
    {
        match self.require_group_id() {
            Ok(_) => {},
            Err(e) => {
                return Err(e);
            },
        }
        if partitions.is_empty() {
            return Ok(None);
        }
        let by_topic = group_by_topic(partitions);
        let request = build_offset_fetch(self.settings.group_id.as_str(), &by_topic);
        Ok(Some((request, by_topic)))
    }

    /// The committed offsets of `partitions` in an offset fetch answer. A
    /// partition without a committed offset maps to `None`.
    pub fn committed(&self, partitions: &Vec<TopicPartition>, response: &OffsetFetchResponse) -> (r:
        SortedMap<TopicPartition, Option<OffsetAndMetadata>>)
        ensures
            r@.dom() == key_views(partitions@).to_set(),
            forall|k: PartitionKey| #[trigger]
                r@.contains_key(k) ==> committed_view(r@[k]) == committed_in(
                    rows_committed(response.offset_rows()),
                    k,
                ),
            forall|i: int|
                #[trigger] last_of_its_partition(response.offset_rows(), i) && key_views(
                    partitions@,
                ).contains(
                    (
                        response.offset_rows()[i].0,
                        response.offset_rows()[i].1.partition_index,
                    ),
                ) ==> has_commit_of(r@, response.offset_rows()[i]),
    {
        let mut committed = parse_committed_offsets(response);
        let ghost keys = key_views(partitions@);
        let ghost model = rows_committed(response.offset_rows());
        let is_asked = |k: &TopicPartition, v: &Option<OffsetAndMetadata>| -> (b: bool)
            ensures
                b == key_views(partitions@).contains(k@),
            { has_key(partitions, k) };
        committed.retain(
            is_asked,
            Ghost(|k: PartitionKey, v: Option<OffsetAndMetadata>| keys.contains(k)),
        );
        let mut i: usize = 0;
        while i < partitions.len()
            invariant
                i <= partitions@.len(),
                keys == key_views(partitions@),
                model == rows_committed(response.offset_rows()),
                forall|k: PartitionKey| #[trigger] committed@.contains_key(k) ==> keys.contains(k),
                forall|k: PartitionKey| #[trigger]
                    committed@.contains_key(k) ==> committed_view(committed@[k]) == committed_in(
                        model,
                        k,
                    ),
                forall|k: PartitionKey| #[trigger]
                    keys.contains(k) && model.contains_key(k) ==> committed@.contains_key(k),
                forall|j: int| 0 <= j < i ==> committed@.contains_key(#[trigger] keys[j]),
            decreases partitions.len() - i,
        {
            proof {
                assert(keys[i as int] == partitions@[i as int]@);
                assert(keys.contains(keys[i as int]));
            }
            if !committed.contains_key(&partitions[i]) {
                committed.insert(copy_key(&partitions[i]), None);
            }
            i = i + 1;
        }
        proof {
            assert forall|k: PartitionKey| #[trigger] keys.to_set().contains(k) implies committed@
                .contains_key(k) by {
                let j = choose|j: int| 0 <= j < keys.len() && keys[j] == k;
                assert(committed@.contains_key(keys[j]));
            }
            assert(committed@.dom() =~= keys.to_set());
            let rows = response.offset_rows();
            assert forall|i: int|
                #[trigger] last_of_its_partition(rows, i) && keys.contains(
                    (rows[i].0, rows[i].1.partition_index),
                ) implies has_commit_of(committed@, rows[i]) by {
                law_committed_answers_each_requested_partition(
                    committed@,
                    keys,
                    rows,
                    (rows[i].0, rows[i].1.partition_index),
                );
            }
        }
        committed
    }

    /// The error of a `committed` that has no answer in time.
    pub fn committed_timeout() -> (r: ConsumerError)
        ensures
            r matches ConsumerError::Timeout { message, cause } && cause is None && message@
                == "the last committed offsets could not be determined"@,
    {
        ConsumerError::timeout("the last committed offsets could not be determined".to_owned())
    }
}

/// The committed offset of a partition, if there is one.
pub open spec fn committed_in(
    committed: Map<PartitionKey, Option<CommittedModel>>,
    key: PartitionKey,
) -> Option<CommittedModel> {
    if committed.contains_key(key) {
        committed[key]
    } else {
        None
    }
}

/// The partitions of a topic in `keys`, in order.
pub open spec fn partitions_of(keys: Seq<PartitionKey>, topic: Seq<char>) -> Seq<i32>
    decreases keys.len(),
{
    if keys.len() == 0 {
        seq![]
    } else {
        let before = partitions_of(keys.drop_last(), topic);
        if keys.last().0 == topic {
            before.push(keys.last().1)
        } else {
            before
        }
    }
}

/// The partitions of `keys` by topic.
pub fn group_by_topic(keys: &Vec<TopicPartition>) -> (r: SortedMap<String, Vec<i32>>)
    ensures
        no_empty_list(r@),
        forall|t: Seq<char>| #[trigger] listed(r@, t) == partitions_of(key_views(keys@), t),
{
    let mut by_topic: SortedMap<String, Vec<i32>> = SortedMap::new();
    let ghost all = key_views(keys@);
    let mut i: usize = 0;
    while i < keys.len()
        invariant
            i <= keys@.len(),
            all == key_views(keys@),
            no_empty_list(by_topic@),
            forall|t: Seq<char>| #[trigger]
                listed(by_topic@, t) == partitions_of(all.take(i as int), t),
        decreases keys.len() - i,
    {
        let ghost before = by_topic@;
        push_at(&mut by_topic, keys[i].0.clone(), keys[i].1);
        proof {
            assert(all.take(i + 1).drop_last() =~= all.take(i as int));
            assert(all.take(i + 1).last() == keys@[i as int]@);
            assert forall|t: Seq<char>| #[trigger] listed(by_topic@, t) == partitions_of(
                all.take(i + 1),
                t,
            ) by {
                assert(listed(before, t) == partitions_of(all.take(i as int), t));
            }
        }
        i = i + 1;
    }
    assert(all.take(i as int) =~= all);
    by_topic
}

/// The keys of a map as a set.
pub(crate) fn map_keys<V>(map: &SortedMap<TopicPartition, V>) -> (r: SortedSet<TopicPartition>)
    ensures
        r@ == map@.dom(),
{
    let mut r: SortedSet<TopicPartition> = SortedSet::new();
    let n = map.len();
    let mut i: usize = 0;
    while i < n
        invariant
            n == map.keys().len(),
            map.keys_listed(),
            i <= n,
            forall|k: PartitionKey| #[trigger] r@.contains(k) ==> map@.contains_key(k),
            forall|j: int| 0 <= j < i ==> r@.contains(#[trigger] map.keys()[j]),
        decreases n - i,
    {
        r.insert(copy_key(map.key_at(i)));
        i = i + 1;
    }
    proof {
        assert forall|k: PartitionKey| #[trigger] map@.contains_key(k) implies r@.contains(k) by {
            assert(map.keys().contains(k));
            let j = choose|j: int| 0 <= j < n && map.keys()[j] == k;
            assert(r@.contains(map.keys()[j]));
        }
        assert(r@ =~= map@.dom());
    }
    r
}

/// A pause followed by a resume of the same partitions leaves none of them
/// paused, and keeps the other pauses.
pub proof fn law_resume_undoes_pause(
    paused: Map<PartitionKey, u64>,
    keys: Seq<PartitionKey>,
    ids: Map<PartitionKey, u64>,
)
    ensures
        paused_more(paused, keys, ids).remove_keys(keys.to_set()) == paused.remove_keys(
            keys.to_set(),
        ),
{
    assert(paused_more(paused, keys, ids).remove_keys(keys.to_set()) =~= paused.remove_keys(
        keys.to_set(),
    ));
}

/// A pause is in effect as long as its partition keeps its ownership: at once,
/// and after a rebalance that changes other ownerships only.
pub proof fn law_pause_follows_ownership(
    paused: Map<PartitionKey, u64>,
    keys: Seq<PartitionKey>,
    ids: Map<PartitionKey, u64>,
    later: Map<PartitionKey, u64>,
    key: PartitionKey,
)
    requires
        keys.contains(key),
        first_missing(keys, ids.dom()) is None,
    ensures
        pauses_in_effect(paused_more(paused, keys, ids), later).contains_key(key) <==> (
        later.contains_key(key) && later[key] == ids[key]),
{
}

} // verus!
