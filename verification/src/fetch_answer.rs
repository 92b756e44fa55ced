//! What the rows of fetch answers do to the state of a consumer.
use std::collections::VecDeque;
use vstd::prelude::*;

use crate::collections::{SortedMap, SortedSet};
use crate::config::{is_read_committed, AutoOffsetReset, IsolationLevel};
use crate::error::ConsumerError;
use crate::fetch::{
    answer_rows, answer_topic_rows, answer_topics_rows, classify_fetch_partition_error,
    partition_action, readable_end, record_readable_end, resolve_name, resolved_name,
    FetchPartitionAction, FetchResponse, FetchableTopicResponse, PartitionData, PartitionRow,
};
use crate::fetch_buffer::{BufferedModel, BufferedPartition};
use crate::list_offsets::{
    fetch_offset_or_unknown, fetched_views, offset_or_unknown, FetchedFrom, LATEST_SENTINEL,
    UNKNOWN_LEADER_ID,
};
use crate::position::{position_of, position_or_default, PartitionPosition, PositionMap};
use crate::records::{
    batches_in_range, batches_ordered, decode_batches, highest_end, highest_epoch,
    highest_leader_epoch, next_offset_after, record_models, returned_records, AbortedTransaction,
    ConsumerRecord, RecordBatch, RecordModel, RecordsPayload,
};
use crate::wire::{copy_key, LeaderEpoch, PartitionKey, TopicPartition, Uuid};

verus! {

/// The fetched data of one partition, in the models of its records.
pub struct FetchedModel {
    pub key: PartitionKey,
    pub position: i64,
    pub records: Seq<RecordModel>,
    pub next_offset: int,
    pub last_epoch: Option<LeaderEpoch>,
}

/// The fetched data of a buffered partition.
pub open spec fn fetched_model(part: BufferedModel) -> FetchedModel {
    FetchedModel {
        key: part.key,
        position: part.position,
        records: record_models(part.records),
        next_offset: part.next_offset as int,
        last_epoch: part.last_epoch,
    }
}

/// The record batches of a row, if it has batches of the current format.
pub open spec fn row_batches(part: PartitionData) -> Option<Seq<RecordBatch>> {
    match part.records {
        Some(RecordsPayload::V2(batches)) => Some(batches@),
        _ => None,
    }
}

/// The aborted transactions of a row.
pub open spec fn row_aborted(part: PartitionData) -> Seq<AbortedTransaction> {
    match part.aborted_transactions {
        Some(list) => list@,
        None => seq![],
    }
}

/// The position that a fetch starts from, 0 where a partition has none.
pub open spec fn fetch_floor(offsets: Map<PartitionKey, i64>, key: PartitionKey) -> i64 {
    if offsets.contains_key(key) {
        offsets[key]
    } else {
        0
    }
}

/// The data that a row gives: the records of its batches from the position on.
pub open spec fn row_data(
    offsets: Map<PartitionKey, i64>,
    isolation: IsolationLevel,
    key: PartitionKey,
    part: PartitionData,
) -> Option<FetchedModel> {
    match row_batches(part) {
        Some(batches) => if batches.len() == 0 {
            None
        } else {
            Some(
                FetchedModel {
                    key,
                    position: fetch_floor(offsets, key),
                    records: returned_records(
                        batches,
                        row_aborted(part),
                        isolation == IsolationLevel::ReadCommitted,
                        batches.len() as int,
                        fetch_floor(offsets, key),
                        key.0,
                        part.partition_index,
                    ),
                    next_offset: highest_end(batches),
                    last_epoch: Some(LeaderEpoch(highest_epoch(batches))),
                },
            )
        },
        None => None,
    }
}

/// The data of a row whose batches stand in offset order waits for `poll` in
/// offset order, between the position and the offset after it. So a drain of it
/// moves the position past no record that it keeps.
pub proof fn law_fetched_data_is_in_offset_order(
    offsets: Map<PartitionKey, i64>,
    isolation: IsolationLevel,
    key: PartitionKey,
    part: PartitionData,
    data: BufferedModel,
)
    requires
        row_batches(part) is Some,
        batches_ordered(row_batches(part)->Some_0),
        batches_in_range(row_batches(part)->Some_0),
        row_data(offsets, isolation, key, part) == Some(fetched_model(data)),
    ensures
        data.ordered(),
{
    let batches = row_batches(part)->Some_0;
    let n = batches.len() as int;
    let floor = fetch_floor(offsets, key);
    crate::records::law_returned_records_are_in_offset_order(
        batches,
        row_aborted(part),
        isolation == IsolationLevel::ReadCommitted,
        n,
        floor,
        key.0,
        part.partition_index,
    );
    let models = record_models(data.records);
    assert(highest_end(batches) >= batches[n - 1].base_offset + batches[n - 1].last_offset_delta
        + 1);
    assert forall|i: int, j: int| 0 <= i < j < data.records.len() implies (
    #[trigger] data.records[i]).offset < (#[trigger] data.records[j]).offset by {
        assert(models[i].offset < models[j].offset);
    }
    assert forall|i: int| 0 <= i < data.records.len() implies data.position <= (
    #[trigger] data.records[i]).offset < data.next_offset by {
        assert(models[i].offset >= floor);
    }
}

/// Whether the offsets and times of a row fit their types.
pub open spec fn row_in_range(part: PartitionData) -> bool {
    match row_batches(part) {
        Some(batches) => batches_in_range(batches),
        None => true,
    }
}

fn into_queue(records: Vec<ConsumerRecord>) -> (r: VecDeque<ConsumerRecord>)
    ensures
        r@ == records@,
{
    let mut r: VecDeque<ConsumerRecord> = VecDeque::new();
    let ghost all = records@;
    for record in iter: records
        invariant
            iter.seq() == all,
            r@ == all.take(iter.index() as int),
    {
        r.push_back(record);
        assert(r@ =~= all.take(iter.index() + 1));
    }
    assert(all.take(all.len() as int) =~= all);
    r
}

/// Decode the records of one partition row.
///
/// The consumed position does not move here. It moves when `poll` returns the
/// records. A row without batches of the current format gives nothing.
pub fn process_partition_records(
    offsets: &SortedMap<TopicPartition, i64>,
    isolation: IsolationLevel,
    key: &TopicPartition,
    part: &PartitionData,
) -> (r: Option<BufferedPartition>)
    requires
        row_in_range(*part),
    ensures
        r is Some <==> row_data(offsets@, isolation, key@, *part) is Some,
        r matches Some(data) ==> {
            &&& Some(fetched_model(data@)) == row_data(offsets@, isolation, key@, *part)
            &&& data@.in_range()
        },
{
    let payload = match &part.records {
        Some(payload) => payload,
        None => {
            return None;
        },
    };
    let batches = match payload.as_v2() {
        Some(batches) => batches,
        None => {
            return None;
        },
    };
    let floor: i64 = match offsets.get(key) {
        Some(offset) => *offset,
        None => 0,
    };
    let none: Vec<AbortedTransaction> = Vec::new();
    let aborted = match &part.aborted_transactions {
        Some(list) => list,
        None => &none,
    };
    assert(aborted@ =~= row_aborted(*part));
    let records = decode_batches(
        batches,
        aborted,
        is_read_committed(isolation),
        floor,
        key.0.as_str(),
        part.partition_index,
    );
    let next_offset = match next_offset_after(batches) {
        Some(next) => next,
        None => {
            return None;
        },
    };
    let last_epoch = match highest_leader_epoch(batches) {
        Some(epoch) => Some(LeaderEpoch(epoch)),
        None => None,
    };
    let data = BufferedPartition {
        key: copy_key(key),
        position: floor,
        records: into_queue(records),
        next_offset,
        last_epoch,
    };
    Some(data)
}

/// A change of a preferred read replica: fetch from it, or from the leader.
pub type ReplicaUpdate = (TopicPartition, Option<i32>);

/// A fetch position that a row reset, `None` where it waits for a reset.
pub type PolledReset = (TopicPartition, Option<i64>);

/// The state that rows read and change.
pub struct RowsModel {
    pub offsets: Map<PartitionKey, i64>,
    pub positions: PositionMap,
    pub end_offsets: Map<PartitionKey, i64>,
    /// The data for the fetch buffer.
    pub fetched: Seq<FetchedModel>,
    /// The partitions out of range that need their log start.
    pub out_of_range: Seq<(PartitionKey, i64)>,
    pub polled_resets: Seq<(PartitionKey, Option<i64>)>,
    pub replica_updates: Seq<(PartitionKey, Option<i32>)>,
    /// Whether the metadata must be refreshed.
    pub refresh: bool,
}

/// Why a row fails the poll.
pub enum RowFailure {
    /// The leader's log does not reach the position, and there is no reset
    /// policy.
    Truncation { key: PartitionKey, fetch_offset: i64, safe_offset: i64 },
    /// The row has an error code that is not handled.
    Server(i16),
}

/// Whether an error reports a failure.
pub open spec fn reports(e: ConsumerError, failure: RowFailure) -> bool {
    match failure {
        RowFailure::Truncation { key, fetch_offset, safe_offset } => e matches
            ConsumerError::LogTruncation { topic, partition, fetch_offset: at, safe_offset: safe }
            && topic@ == key.0 && partition == key.1 && at == fetch_offset && safe == safe_offset,
        RowFailure::Server(code) => e == ConsumerError::Server(code),
    }
}

/// What the settings and the assignment say to a row.
pub struct RowContext {
    pub policy: AutoOffsetReset,
    pub isolation: IsolationLevel,
    pub owned: Set<PartitionKey>,
}

/// The failure of a row of an owned partition: a truncation without a reset
/// policy, or an error code that is not handled.
pub open spec fn row_failure(c: RowContext, s: RowsModel, row: PartitionRow) -> Option<RowFailure> {
    let (key, part) = row;
    if !c.owned.contains(key) {
        None
    } else if part.diverging_epoch.end_offset >= 0 {
        if c.policy == AutoOffsetReset::NoReset {
            Some(
                RowFailure::Truncation {
                    key,
                    fetch_offset: offset_or_unknown(s.offsets, key),
                    safe_offset: part.diverging_epoch.end_offset,
                },
            )
        } else {
            None
        }
    } else {
        match partition_action(part.error_code) {
            FetchPartitionAction::Fail(code) => Some(RowFailure::Server(code)),
            _ => None,
        }
    }
}

/// A row without an error: its data waits for `poll`, the readable end of the
/// partition is recorded, and a named replica is preferred.
pub open spec fn after_records(
    c: RowContext,
    s: RowsModel,
    key: PartitionKey,
    part: PartitionData,
) -> RowsModel {
    RowsModel {
        end_offsets: s.end_offsets.insert(
            key,
            readable_end(c.isolation, part.high_watermark, part.last_stable_offset),
        ),
        fetched: match row_data(s.offsets, c.isolation, key, part) {
            Some(data) => s.fetched.push(data),
            None => s.fetched,
        },
        replica_updates: if part.preferred_read_replica >= 0 {
            s.replica_updates.push((key, Some(part.preferred_read_replica)))
        } else {
            s.replica_updates
        },
        ..s
    }
}

/// A row out of range: the reset policy plants a placeholder, or the log start
/// has to be asked for.
pub open spec fn after_out_of_range(c: RowContext, s: RowsModel, key: PartitionKey) -> RowsModel {
    match c.policy {
        AutoOffsetReset::Latest | AutoOffsetReset::ByDuration(_) => RowsModel {
            offsets: s.offsets.insert(key, LATEST_SENTINEL),
            polled_resets: s.polled_resets.push((key, None)),
            ..s
        },
        _ => RowsModel {
            out_of_range: s.out_of_range.push((key, offset_or_unknown(s.offsets, key))),
            ..s
        },
    }
}

/// A row of a broker that does not lead the partition: the hint becomes the
/// leader, or the leader is forgotten and the metadata refreshed.
pub open spec fn after_reroute(s: RowsModel, key: PartitionKey, part: PartitionData) -> RowsModel {
    let s = RowsModel { replica_updates: s.replica_updates.push((key, None)), ..s };
    if part.current_leader.leader_id >= 0 {
        RowsModel {
            positions: s.positions.insert(
                key,
                PartitionPosition {
                    leader_id: part.current_leader.leader_id,
                    leader_epoch: LeaderEpoch(part.current_leader.leader_epoch),
                    ..position_of(s.positions, key)
                },
            ),
            ..s
        }
    } else {
        RowsModel {
            positions: if s.positions.contains_key(key) {
                s.positions.insert(
                    key,
                    PartitionPosition { leader_id: UNKNOWN_LEADER_ID, ..s.positions[key] },
                )
            } else {
                s.positions
            },
            refresh: true,
            ..s
        }
    }
}

/// A row with a stale leader epoch: the epoch is forgotten, and a position
/// with a consumed epoch waits for validation.
pub open spec fn after_stale_epoch(s: RowsModel, key: PartitionKey) -> RowsModel {
    RowsModel {
        replica_updates: s.replica_updates.push((key, None)),
        positions: if s.positions.contains_key(key) {
            let had = s.positions[key];
            s.positions.insert(
                key,
                PartitionPosition {
                    leader_epoch: LeaderEpoch(UNKNOWN_LEADER_ID),
                    awaiting_validation: had.awaiting_validation || had.offset_epoch.0 >= 0,
                    ..had
                },
            )
        } else {
            s.positions
        },
        ..s
    }
}

/// The state after a row that does not fail. A row of a partition that the
/// consumer no longer owns changes nothing.
pub open spec fn after_row(c: RowContext, s: RowsModel, row: PartitionRow) -> RowsModel {
    let (key, part) = row;
    if !c.owned.contains(key) {
        s
    } else if part.diverging_epoch.end_offset >= 0 {
        RowsModel {
            offsets: s.offsets.insert(key, part.diverging_epoch.end_offset),
            polled_resets: s.polled_resets.push((key, Some(part.diverging_epoch.end_offset))),
            ..s
        }
    } else {
        match partition_action(part.error_code) {
            FetchPartitionAction::Records => after_records(c, s, key, part),
            FetchPartitionAction::ResetOffset => after_out_of_range(c, s, key),
            FetchPartitionAction::Reroute => after_reroute(s, key, part),
            FetchPartitionAction::RevalidateEpoch => after_stale_epoch(s, key),
            FetchPartitionAction::RefreshMetadata => RowsModel {
                replica_updates: s.replica_updates.push((key, None)),
                refresh: true,
                ..s
            },
            FetchPartitionAction::Fail(_) => s,
        }
    }
}

/// The state after rows, and the failure of the first row that fails. The rows
/// after it change nothing.
pub open spec fn after_rows(c: RowContext, s: RowsModel, rows: Seq<PartitionRow>) -> (
    RowsModel,
    Option<RowFailure>,
)
    decreases rows.len(),
{
    if rows.len() == 0 {
        (s, None)
    } else {
        let (before, failure) = after_rows(c, s, rows.drop_last());
        if failure is Some {
            (before, failure)
        } else if row_failure(c, before, rows.last()) is Some {
            (before, row_failure(c, before, rows.last()))
        } else {
            (after_row(c, before, rows.last()), None)
        }
    }
}

/// Whether fetched records are of the partition that they were fetched for.
pub open spec fn fetched_belongs(data: FetchedModel) -> bool {
    forall|i: int|
        0 <= i < data.records.len() ==> (
        (#[trigger] data.records[i]).topic,
        data.records[i].partition,
    ) == data.key
}

proof fn lemma_row_data_belongs(
    offsets: Map<PartitionKey, i64>,
    isolation: IsolationLevel,
    key: PartitionKey,
    part: PartitionData,
)
    requires
        key.1 == part.partition_index,
    ensures
        row_data(offsets, isolation, key, part) matches Some(data) ==> fetched_belongs(data),
{
    if row_data(offsets, isolation, key, part) is Some {
        let batches = row_batches(part)->Some_0;
        let data = row_data(offsets, isolation, key, part)->Some_0;
        let read_committed = isolation == IsolationLevel::ReadCommitted;
        assert forall|i: int| 0 <= i < data.records.len() implies (
            (#[trigger] data.records[i]).topic,
            data.records[i].partition,
        ) == data.key by {
            crate::records::law_exactly_the_readable_records_are_returned(
                batches,
                row_aborted(part),
                read_committed,
                fetch_floor(offsets, key),
                key.0,
                part.partition_index,
                data.records[i],
            );
            assert(data.records.contains(data.records[i]));
        }
    }
}

/// The data that rows give is of the partitions of the rows.
pub proof fn lemma_rows_belong(c: RowContext, s: RowsModel, rows: Seq<PartitionRow>)
    requires
        forall|i: int|
            0 <= i < rows.len() ==> (#[trigger] rows[i]).0.1 == rows[i].1.partition_index,
        forall|i: int| 0 <= i < s.fetched.len() ==> fetched_belongs(#[trigger] s.fetched[i]),
    ensures
        forall|i: int|
            0 <= i < after_rows(c, s, rows).0.fetched.len() ==> fetched_belongs(
                #[trigger] after_rows(c, s, rows).0.fetched[i],
            ),
    decreases rows.len(),
{
    if rows.len() > 0 {
        let front = rows.drop_last();
        assert forall|i: int| 0 <= i < front.len() implies (#[trigger] front[i]).0.1
            == front[i].1.partition_index by {
            assert(rows[i] == front[i]);
        }
        lemma_rows_belong(c, s, front);
        let before = after_rows(c, s, front).0;
        let last = rows[rows.len() - 1];
        assert(last.0.1 == last.1.partition_index);
        lemma_row_data_belongs(before.offsets, c.isolation, last.0, last.1);
    }
}

/// The rows of answers stand under their own partitions.
pub proof fn lemma_answer_rows_indexed(responses: Seq<FetchResponse>, names: Map<u128, String>)
    ensures
        forall|i: int|
            0 <= i < answer_rows(responses, names).len() ==> (#[trigger] answer_rows(
                responses,
                names,
            )[i]).0.1 == answer_rows(responses, names)[i].1.partition_index,
    decreases responses.len(),
{
    if responses.len() > 0 {
        lemma_answer_rows_indexed(responses.drop_last(), names);
        lemma_topics_rows_indexed(responses.last().responses@, names);
    }
}

proof fn lemma_topics_rows_indexed(topics: Seq<FetchableTopicResponse>, names: Map<u128, String>)
    ensures
        forall|i: int|
            0 <= i < answer_topics_rows(topics, names).len() ==> (#[trigger] answer_topics_rows(
                topics,
                names,
            )[i]).0.1 == answer_topics_rows(topics, names)[i].1.partition_index,
    decreases topics.len(),
{
    if topics.len() > 0 {
        lemma_topics_rows_indexed(topics.drop_last(), names);
    }
}

/// The rows of owned partitions, in order.
pub open spec fn owned_rows(rows: Seq<PartitionRow>, owned: Set<PartitionKey>) -> Seq<PartitionRow>
    decreases rows.len(),
{
    if rows.len() == 0 {
        seq![]
    } else if owned.contains(rows.last().0) {
        owned_rows(rows.drop_last(), owned).push(rows.last())
    } else {
        owned_rows(rows.drop_last(), owned)
    }
}

/// A row of a partition that the consumer does not own, such as one revoked
/// while the fetch was in flight, has no effect at all, whatever its error code:
/// the rows of the owned partitions alone give the same state and the same
/// failure.
pub proof fn law_unowned_rows_have_no_effect(c: RowContext, s: RowsModel, rows: Seq<PartitionRow>)
    ensures
        after_rows(c, s, rows) == after_rows(c, s, owned_rows(rows, c.owned)),
    decreases rows.len(),
{
    if rows.len() > 0 {
        let front = rows.drop_last();
        let kept = owned_rows(rows, c.owned);
        law_unowned_rows_have_no_effect(c, s, front);
        if c.owned.contains(rows.last().0) {
            assert(kept.drop_last() =~= owned_rows(front, c.owned));
            assert(kept.last() == rows.last());
        }
    }
}

/// Answers that differ only in rows of partitions that the consumer does not own
/// are processed alike: with the same state after, and the same failure.
pub proof fn law_answers_are_read_by_their_owned_rows(
    c: RowContext,
    s: RowsModel,
    answers: Seq<FetchResponse>,
    others: Seq<FetchResponse>,
    names: Map<u128, String>,
)
    requires
        owned_rows(answer_rows(answers, names), c.owned) == owned_rows(
            answer_rows(others, names),
            c.owned,
        ),
    ensures
        after_rows(c, s, answer_rows(answers, names)) == after_rows(
            c,
            s,
            answer_rows(others, names),
        ),
{
    law_unowned_rows_have_no_effect(c, s, answer_rows(answers, names));
    law_unowned_rows_have_no_effect(c, s, answer_rows(others, names));
}

/// Fetch answers change nothing of a partition that has no row in them, or that
/// the consumer no longer owns.
pub proof fn law_rows_change_only_their_owned_partitions(
    c: RowContext,
    s: RowsModel,
    rows: Seq<PartitionRow>,
    key: PartitionKey,
)
    requires
        !c.owned.contains(key) || forall|i: int|
            0 <= i < rows.len() ==> (#[trigger] rows[i]).0 != key,
    ensures
        ({
            let after = after_rows(c, s, rows).0;
            &&& after.offsets.contains_key(key) == s.offsets.contains_key(key)
            &&& after.offsets[key] == s.offsets[key]
            &&& after.positions.contains_key(key) == s.positions.contains_key(key)
            &&& after.positions[key] == s.positions[key]
            &&& after.end_offsets.contains_key(key) == s.end_offsets.contains_key(key)
            &&& after.end_offsets[key] == s.end_offsets[key]
            &&& forall|i: int|
                s.fetched.len() <= i < after.fetched.len() ==> (#[trigger] after.fetched[i]).key
                    != key
            &&& after.fetched.len() >= s.fetched.len()
        }),
    decreases rows.len(),
{
    if rows.len() > 0 {
        let front = rows.drop_last();
        assert(!c.owned.contains(key) || rows.last().0 != key) by {
            assert(rows[rows.len() - 1] == rows.last());
        }
        assert(!c.owned.contains(key) || forall|i: int|
            0 <= i < front.len() ==> (#[trigger] front[i]).0 != key) by {
            if c.owned.contains(key) {
                assert forall|i: int| 0 <= i < front.len() implies (#[trigger] front[i]).0
                    != key by {
                    assert(rows[i] == front[i]);
                }
            }
        }
        law_rows_change_only_their_owned_partitions(c, s, front, key);
    }
}

/// The lists that rows fill.
pub struct RowsProgress {
    pub fetched: Vec<BufferedPartition>,
    pub out_of_range: Vec<FetchedFrom>,
    pub polled_resets: Vec<PolledReset>,
    pub replica_updates: Vec<ReplicaUpdate>,
    pub refresh: bool,
}

/// The models of the fetched data.
pub open spec fn fetched_models(parts: Seq<BufferedPartition>) -> Seq<FetchedModel> {
    Seq::new(parts.len(), |i: int| fetched_model(parts[i]@))
}

/// The models of resets.
pub open spec fn reset_views(list: Seq<PolledReset>) -> Seq<(PartitionKey, Option<i64>)> {
    Seq::new(list.len(), |i: int| (list[i].0@, list[i].1))
}

/// The models of replica updates.
pub open spec fn replica_views(list: Seq<ReplicaUpdate>) -> Seq<(PartitionKey, Option<i32>)> {
    Seq::new(list.len(), |i: int| (list[i].0@, list[i].1))
}

impl RowsProgress {
    /// Whether the offset after each fetched record fits its type.
    pub open spec fn in_range(self) -> bool {
        forall|i: int| 0 <= i < self.fetched@.len() ==> (#[trigger] self.fetched@[i])@.in_range()
    }

    /// The state of rows with these lists.
    pub open spec fn model(
        self,
        offsets: Map<PartitionKey, i64>,
        positions: PositionMap,
        end_offsets: Map<PartitionKey, i64>,
    ) -> RowsModel {
        RowsModel {
            offsets,
            positions,
            end_offsets,
            fetched: fetched_models(self.fetched@),
            out_of_range: fetched_views(self.out_of_range@),
            polled_resets: reset_views(self.polled_resets@),
            replica_updates: replica_views(self.replica_updates@),
            refresh: self.refresh,
        }
    }

    /// No rows yet.
    pub fn new() -> (r: Self)
        ensures
            r.in_range(),
            r.fetched@.len() == 0,
            r.out_of_range@.len() == 0,
            r.polled_resets@.len() == 0,
            r.replica_updates@.len() == 0,
            !r.refresh,
    {
        RowsProgress {
            fetched: Vec::new(),
            out_of_range: Vec::new(),
            polled_resets: Vec::new(),
            replica_updates: Vec::new(),
            refresh: false,
        }
    }

    fn push_fetched(&mut self, data: BufferedPartition)
        requires
            old(self).in_range(),
            data@.in_range(),
        ensures
            fetched_models(final(self).fetched@) == fetched_models(old(self).fetched@).push(
                fetched_model(data@),
            ),
            final(self).in_range(),
            *final(self) == (RowsProgress { fetched: final(self).fetched, ..*old(self) }),
    {
        let ghost had = self.fetched@;
        self.fetched.push(data);
        proof {
            assert(fetched_models(self.fetched@) =~= fetched_models(had).push(
                fetched_model(data@),
            ));
            assert forall|i: int| 0 <= i < self.fetched@.len() implies (
            #[trigger] self.fetched@[i])@.in_range() by {
                if i < had.len() {
                    assert(had[i]@.in_range());
                }
            }
        }
    }

    fn push_out_of_range(&mut self, key: &TopicPartition, offset: i64)
        requires
            old(self).in_range(),
        ensures
            fetched_views(final(self).out_of_range@) == fetched_views(
                old(self).out_of_range@,
            ).push((key@, offset)),
            final(self).in_range(),
            *final(self) == (RowsProgress { out_of_range: final(self).out_of_range, ..*old(self) }),
    {
        let ghost had = self.out_of_range@;
        self.out_of_range.push((copy_key(key), offset));
        assert(fetched_views(self.out_of_range@) =~= fetched_views(had).push((key@, offset)));
    }

    fn push_reset(&mut self, key: &TopicPartition, offset: Option<i64>)
        requires
            old(self).in_range(),
        ensures
            reset_views(final(self).polled_resets@) == reset_views(old(self).polled_resets@).push(
                (key@, offset),
            ),
            final(self).in_range(),
            *final(self) == (RowsProgress {
                polled_resets: final(self).polled_resets,
                ..*old(self)
            }),
    {
        let ghost had = self.polled_resets@;
        self.polled_resets.push((copy_key(key), offset));
        assert(reset_views(self.polled_resets@) =~= reset_views(had).push((key@, offset)));
    }

    fn push_replica(&mut self, key: &TopicPartition, replica: Option<i32>)
        requires
            old(self).in_range(),
        ensures
            replica_views(final(self).replica_updates@) == replica_views(
                old(self).replica_updates@,
            ).push((key@, replica)),
            final(self).in_range(),
            *final(self) == (RowsProgress {
                replica_updates: final(self).replica_updates,
                ..*old(self)
            }),
    {
        let ghost had = self.replica_updates@;
        self.replica_updates.push((copy_key(key), replica));
        assert(replica_views(self.replica_updates@) =~= replica_views(had).push((key@, replica)));
    }
}

/// Moves a position to the end of a diverging epoch, or reports the truncation
/// when there is no reset policy.
pub fn handle_truncation_in_poll(
    policy: AutoOffsetReset,
    offsets: &mut SortedMap<TopicPartition, i64>,
    key: &TopicPartition,
    safe_offset: i64,
) -> (r: Result<(), ConsumerError>)
    ensures
        r is Err <==> policy == AutoOffsetReset::NoReset,
        r matches Err(e) ==> {
            &&& reports(
                e,
                RowFailure::Truncation {
                    key: key@,
                    fetch_offset: offset_or_unknown(old(offsets)@, key@),
                    safe_offset,
                },
            )
            &&& final(offsets)@ == old(offsets)@
        },
        r is Ok ==> final(offsets)@ == old(offsets)@.insert(key@, safe_offset),
{
    if policy == AutoOffsetReset::NoReset {
        let fetch_offset = fetch_offset_or_unknown(offsets, key);
        return Err(
            ConsumerError::LogTruncation {
                topic: key.0.clone(),
                partition: key.1,
                fetch_offset,
                safe_offset,
            },
        );
    }
    offsets.insert(copy_key(key), safe_offset);
    Ok(())
}

fn reroute(
    positions: &mut SortedMap<TopicPartition, PartitionPosition>,
    progress: &mut RowsProgress,
    key: &TopicPartition,
    part: &PartitionData,
    Ghost(s): Ghost<RowsModel>,
)
    requires
        old(progress).in_range(),
        s == old(progress).model(s.offsets, old(positions)@, s.end_offsets),
    ensures
        final(progress).in_range(),
        final(progress).model(s.offsets, final(positions)@, s.end_offsets) == after_reroute(
            s,
            key@,
            *part,
        ),
{
    progress.push_replica(key, None);
    if part.current_leader.leader_id >= 0 {
        let had = position_or_default(positions, key);
        positions.insert(
            copy_key(key),
            PartitionPosition {
                offset_epoch: had.offset_epoch,
                leader_id: part.current_leader.leader_id,
                leader_epoch: LeaderEpoch(part.current_leader.leader_epoch),
                awaiting_validation: had.awaiting_validation,
            },
        );
    } else {
        let known = match positions.get(key) {
            Some(had) => Some(*had),
            None => None,
        };
        if let Some(had) = known {
            positions.insert(
                copy_key(key),
                PartitionPosition {
                    offset_epoch: had.offset_epoch,
                    leader_id: UNKNOWN_LEADER_ID,
                    leader_epoch: had.leader_epoch,
                    awaiting_validation: had.awaiting_validation,
                },
            );
        }
        progress.refresh = true;
    }
}

fn revalidate(
    positions: &mut SortedMap<TopicPartition, PartitionPosition>,
    progress: &mut RowsProgress,
    key: &TopicPartition,
    Ghost(s): Ghost<RowsModel>,
)
    requires
        old(progress).in_range(),
        s == old(progress).model(s.offsets, old(positions)@, s.end_offsets),
    ensures
        final(progress).in_range(),
        final(progress).model(s.offsets, final(positions)@, s.end_offsets) == after_stale_epoch(
            s,
            key@,
        ),
{
    progress.push_replica(key, None);
    let known = match positions.get(key) {
        Some(had) => Some(*had),
        None => None,
    };
    if let Some(had) = known {
        positions.insert(
            copy_key(key),
            PartitionPosition {
                offset_epoch: had.offset_epoch,
                leader_id: had.leader_id,
                leader_epoch: LeaderEpoch(UNKNOWN_LEADER_ID),
                awaiting_validation: had.awaiting_validation || had.offset_epoch.is_known(),
            },
        );
    }
}

/// Act on one row of a fetch answer.
fn process_row(
    policy: AutoOffsetReset,
    isolation: IsolationLevel,
    owned: &SortedSet<TopicPartition>,
    offsets: &mut SortedMap<TopicPartition, i64>,
    positions: &mut SortedMap<TopicPartition, PartitionPosition>,
    end_offsets: &mut SortedMap<TopicPartition, i64>,
    progress: &mut RowsProgress,
    key: &TopicPartition,
    part: &PartitionData,
) -> (r: Result<(), ConsumerError>)
    requires
        old(progress).in_range(),
        row_read(owned@, key@, *part) ==> row_in_range(*part),
    ensures
        final(progress).in_range(),
        ({
            let c = RowContext { policy, isolation, owned: owned@ };
            let s = old(progress).model(old(offsets)@, old(positions)@, old(end_offsets)@);
            let t = final(progress).model(final(offsets)@, final(positions)@, final(end_offsets)@);
            match row_failure(c, s, (key@, *part)) {
                Some(failure) => r is Err && reports(r->Err_0, failure) && t == s,
                None => r is Ok && t == after_row(c, s, (key@, *part)),
            }
        }),
{
    if !owned.contains(key) {
        return Ok(());
    }
    let ghost s = progress.model(offsets@, positions@, end_offsets@);
    if part.diverging_epoch.end_offset >= 0 {
        match handle_truncation_in_poll(policy, offsets, key, part.diverging_epoch.end_offset) {
            Err(e) => {
                return Err(e);
            },
            Ok(_) => {},
        }
        progress.push_reset(key, Some(part.diverging_epoch.end_offset));
        return Ok(());
    }
    match classify_fetch_partition_error(part.error_code) {
        FetchPartitionAction::Records => {
            if part.preferred_read_replica >= 0 {
                progress.push_replica(key, Some(part.preferred_read_replica));
            }
            record_readable_end(
                end_offsets,
                copy_key(key),
                isolation,
                part.high_watermark,
                part.last_stable_offset,
            );
            if let Some(data) = process_partition_records(offsets, isolation, key, part) {
                progress.push_fetched(data);
            }
        },
        FetchPartitionAction::ResetOffset => {
            match policy {
                AutoOffsetReset::Latest | AutoOffsetReset::ByDuration(_) => {
                    offsets.insert(copy_key(key), LATEST_SENTINEL);
                    progress.push_reset(key, None);
                },
                AutoOffsetReset::Earliest | AutoOffsetReset::NoReset => {
                    let fetch_offset = fetch_offset_or_unknown(offsets, key);
                    progress.push_out_of_range(key, fetch_offset);
                },
            }
        },
        FetchPartitionAction::Reroute => {
            reroute(positions, progress, key, part, Ghost(s));
        },
        FetchPartitionAction::RevalidateEpoch => {
            revalidate(positions, progress, key, Ghost(s));
        },
        FetchPartitionAction::RefreshMetadata => {
            progress.push_replica(key, None);
            progress.refresh = true;
        },
        FetchPartitionAction::Fail(code) => {
            return Err(ConsumerError::Server(code));
        },
    }
    Ok(())
}

proof fn lemma_failure_stays(c: RowContext, s: RowsModel, a: Seq<PartitionRow>, b: Seq<PartitionRow>)
    requires
        after_rows(c, s, a).1 is Some,
    ensures
        after_rows(c, s, a + b) == after_rows(c, s, a),
    decreases b.len(),
{
    if b.len() == 0 {
        assert(a + b =~= a);
    } else {
        lemma_failure_stays(c, s, a, b.drop_last());
        assert((a + b).drop_last() =~= a + b.drop_last());
    }
}

/// Whether the records of a row are decoded: its partition is owned, and the row
/// has neither a truncation nor an error.
pub open spec fn row_read(owned: Set<PartitionKey>, key: PartitionKey, part: PartitionData) -> bool {
    owned.contains(key) && part.diverging_epoch.end_offset < 0 && partition_action(part.error_code)
        == FetchPartitionAction::Records
}

/// Whether the offsets and times of every row of a topic that is read fit their
/// types.
pub open spec fn topic_in_range(
    topic: FetchableTopicResponse,
    owned: Set<PartitionKey>,
    names: Map<u128, String>,
) -> bool {
    forall|i: int|
        0 <= i < topic.partitions@.len() && row_read(
            owned,
            (resolved_name(topic, names), topic.partitions@[i].partition_index),
            topic.partitions@[i],
        ) ==> row_in_range(#[trigger] topic.partitions@[i])
}

/// Whether the offsets and times of every row of an answer that is read fit
/// their types.
pub open spec fn response_in_range(
    response: FetchResponse,
    owned: Set<PartitionKey>,
    names: Map<u128, String>,
) -> bool {
    forall|i: int|
        0 <= i < response.responses@.len() ==> topic_in_range(
            #[trigger] response.responses@[i],
            owned,
            names,
        )
}

/// Whether the offsets and times of every row of answers that is read fit their
/// types.
pub open spec fn responses_in_range(
    responses: Seq<FetchResponse>,
    owned: Set<PartitionKey>,
    names: Map<u128, String>,
) -> bool {
    forall|i: int|
        0 <= i < responses.len() ==> response_in_range(#[trigger] responses[i], owned, names)
}

/// Whether the offsets and times of every row of an answer that is read fit
/// their types.
pub fn is_response_in_range(
    response: &FetchResponse,
    owned: &SortedSet<TopicPartition>,
    names: &SortedMap<Uuid, String>,
) -> (r: bool)
    ensures
        r == response_in_range(*response, owned@, names@),
{
    let mut i: usize = 0;
    while i < response.responses.len()
        invariant
            i <= response.responses@.len(),
            forall|j: int|
                0 <= j < i ==> topic_in_range(
                    #[trigger] response.responses@[j],
                    owned@,
                    names@,
                ),
        decreases response.responses.len() - i,
    {
        let topic = &response.responses[i];
        let name = resolve_name(topic, names);
        let mut j: usize = 0;
        while j < topic.partitions.len()
            invariant
                i < response.responses@.len(),
                topic == response.responses@[i as int],
                name@ == resolved_name(*topic, names@),
                j <= topic.partitions@.len(),
                forall|k: int|
                    0 <= k < j && row_read(
                        owned@,
                        (name@, topic.partitions@[k].partition_index),
                        topic.partitions@[k],
                    ) ==> row_in_range(#[trigger] topic.partitions@[k]),
            decreases topic.partitions.len() - j,
        {
            let part = &topic.partitions[j];
            let key = (name.clone(), part.partition_index);
            assert(key@ == (name@, part.partition_index));
            let read = owned.contains(&key) && part.diverging_epoch.end_offset < 0
                && match classify_fetch_partition_error(part.error_code) {
                FetchPartitionAction::Records => true,
                _ => false,
            };
            let fits = match &part.records {
                Some(RecordsPayload::V2(batches)) => crate::records::are_batches_in_range(batches),
                _ => true,
            };
            if read && !fits {
                assert(!row_in_range(topic.partitions@[j as int]));
                assert(!topic_in_range(response.responses@[i as int], owned@, names@));
                return false;
            }
            j = j + 1;
        }
        i = i + 1;
    }
    true
}

/// The state of a consumer that rows change.
pub struct RowsTarget<'a> {
    pub policy: AutoOffsetReset,
    pub isolation: IsolationLevel,
    pub owned: &'a SortedSet<TopicPartition>,
    pub names: &'a SortedMap<Uuid, String>,
}

impl<'a> RowsTarget<'a> {
    /// What the settings and the assignment say to a row.
    pub open spec fn context(self) -> RowContext {
        RowContext { policy: self.policy, isolation: self.isolation, owned: self.owned@ }
    }
}

/// Whether a result and a state are those of `rows`.
pub open spec fn processed(
    c: RowContext,
    s: RowsModel,
    rows: Seq<PartitionRow>,
    result: Result<(), ConsumerError>,
    t: RowsModel,
) -> bool {
    let (after, failure) = after_rows(c, s, rows);
    &&& t == after
    &&& match failure {
        Some(failure) => result is Err && reports(result->Err_0, failure),
        None => result is Ok,
    }
}

fn process_topic(
    target: &RowsTarget<'_>,
    offsets: &mut SortedMap<TopicPartition, i64>,
    positions: &mut SortedMap<TopicPartition, PartitionPosition>,
    end_offsets: &mut SortedMap<TopicPartition, i64>,
    progress: &mut RowsProgress,
    topic: &FetchableTopicResponse,
    Ghost(s): Ghost<RowsModel>,
    Ghost(done): Ghost<Seq<PartitionRow>>,
) -> (r: Result<(), ConsumerError>)
    requires
        old(progress).in_range(),
        topic_in_range(*topic, target.owned@, target.names@),
        after_rows(target.context(), s, done) == (
            old(progress).model(old(offsets)@, old(positions)@, old(end_offsets)@),
            None::<RowFailure>,
        ),
    ensures
        final(progress).in_range(),
        processed(
            target.context(),
            s,
            done + answer_topic_rows(*topic, target.names@),
            r,
            final(progress).model(final(offsets)@, final(positions)@, final(end_offsets)@),
        ),
{
    let name = resolve_name(topic, target.names);
    let ghost c = target.context();
    let ghost rows = answer_topic_rows(*topic, target.names@);
    let mut i: usize = 0;
    assert(done + rows.take(0) =~= done);
    while i < topic.partitions.len()
        invariant
            i <= topic.partitions@.len(),
            progress.in_range(),
            topic_in_range(*topic, target.owned@, target.names@),
            c == target.context(),
            rows == answer_topic_rows(*topic, target.names@),
            name@ == resolved_name(*topic, target.names@),
            after_rows(c, s, done + rows.take(i as int)) == (
                progress.model(offsets@, positions@, end_offsets@),
                None::<RowFailure>,
            ),
        decreases topic.partitions.len() - i,
    {
        let part = &topic.partitions[i];
        let key = (name.clone(), part.partition_index);
        let ghost next = done + rows.take(i + 1);
        proof {
            assert(topic.partitions@[i as int] == *part);
            assert(next.drop_last() =~= done + rows.take(i as int));
            assert(next.last() == rows[i as int]);
            assert(key@ == rows[i as int].0);
        }
        match process_row(
            target.policy,
            target.isolation,
            target.owned,
            offsets,
            positions,
            end_offsets,
            progress,
            &key,
            part,
        ) {
            Ok(_) => {},
            Err(e) => {
                proof {
                    lemma_failure_stays(c, s, next, rows.skip(i + 1));
                    assert(next + rows.skip(i + 1) =~= done + rows);
                }
                return Err(e);
            },
        }
        i = i + 1;
    }
    assert(rows.take(i as int) =~= rows);
    Ok(())
}

fn process_response(
    target: &RowsTarget<'_>,
    offsets: &mut SortedMap<TopicPartition, i64>,
    positions: &mut SortedMap<TopicPartition, PartitionPosition>,
    end_offsets: &mut SortedMap<TopicPartition, i64>,
    progress: &mut RowsProgress,
    response: &FetchResponse,
    Ghost(s): Ghost<RowsModel>,
    Ghost(done): Ghost<Seq<PartitionRow>>,
) -> (r: Result<(), ConsumerError>)
    requires
        old(progress).in_range(),
        response_in_range(*response, target.owned@, target.names@),
        after_rows(target.context(), s, done) == (
            old(progress).model(old(offsets)@, old(positions)@, old(end_offsets)@),
            None::<RowFailure>,
        ),
    ensures
        final(progress).in_range(),
        processed(
            target.context(),
            s,
            done + answer_topics_rows(response.responses@, target.names@),
            r,
            final(progress).model(final(offsets)@, final(positions)@, final(end_offsets)@),
        ),
{
    let ghost c = target.context();
    let ghost topics = response.responses@;
    let ghost names = target.names@;
    let mut i: usize = 0;
    assert(done + answer_topics_rows(topics.take(0), names) =~= done);
    while i < response.responses.len()
        invariant
            i <= response.responses@.len(),
            progress.in_range(),
            response_in_range(*response, target.owned@, target.names@),
            c == target.context(),
            topics == response.responses@,
            names == target.names@,
            after_rows(c, s, done + answer_topics_rows(topics.take(i as int), names)) == (
                progress.model(offsets@, positions@, end_offsets@),
                None::<RowFailure>,
            ),
        decreases response.responses.len() - i,
    {
        let ghost before = done + answer_topics_rows(topics.take(i as int), names);
        let ghost of_topic = answer_topic_rows(topics[i as int], names);
        proof {
            assert(topic_in_range(topics[i as int], target.owned@, target.names@));
            assert(topics.take(i + 1).drop_last() =~= topics.take(i as int));
            assert(before + of_topic =~= done + answer_topics_rows(topics.take(i + 1), names));
        }
        match process_topic(
            target,
            offsets,
            positions,
            end_offsets,
            progress,
            &response.responses[i],
            Ghost(s),
            Ghost(before),
        ) {
            Ok(_) => {},
            Err(e) => {
                proof {
                    lemma_topics_rows_split(topics, names, i + 1);
                    let rest = answer_topics_rows(topics, names).skip(
                        answer_topics_rows(topics.take(i + 1), names).len() as int,
                    );
                    lemma_failure_stays(c, s, before + of_topic, rest);
                    assert(before + of_topic + rest =~= done + answer_topics_rows(topics, names));
                }
                return Err(e);
            },
        }
        i = i + 1;
    }
    assert(topics.take(i as int) =~= topics);
    Ok(())
}

proof fn lemma_topics_rows_split(
    topics: Seq<FetchableTopicResponse>,
    names: Map<u128, String>,
    n: int,
)
    requires
        0 <= n <= topics.len(),
    ensures
        answer_topics_rows(topics.take(n), names).len() <= answer_topics_rows(topics, names).len(),
        answer_topics_rows(topics, names).take(
            answer_topics_rows(topics.take(n), names).len() as int,
        ) == answer_topics_rows(topics.take(n), names),
    decreases topics.len() - n,
{
    let all = answer_topics_rows(topics, names);
    let front = answer_topics_rows(topics.take(n), names);
    if n == topics.len() {
        assert(topics.take(n) =~= topics);
        assert(all.take(front.len() as int) =~= front);
    } else {
        lemma_topics_rows_split(topics, names, n + 1);
        let more = answer_topics_rows(topics.take(n + 1), names);
        assert(topics.take(n + 1).drop_last() =~= topics.take(n));
        assert(more.take(front.len() as int) =~= front);
        assert(all.take(front.len() as int) =~= all.take(more.len() as int).take(
            front.len() as int,
        ));
    }
}

proof fn lemma_rows_split(responses: Seq<FetchResponse>, names: Map<u128, String>, n: int)
    requires
        0 <= n <= responses.len(),
    ensures
        answer_rows(responses.take(n), names).len() <= answer_rows(responses, names).len(),
        answer_rows(responses, names).take(answer_rows(responses.take(n), names).len() as int)
            == answer_rows(responses.take(n), names),
    decreases responses.len() - n,
{
    let all = answer_rows(responses, names);
    let front = answer_rows(responses.take(n), names);
    if n == responses.len() {
        assert(responses.take(n) =~= responses);
        assert(all.take(front.len() as int) =~= front);
    } else {
        lemma_rows_split(responses, names, n + 1);
        let more = answer_rows(responses.take(n + 1), names);
        assert(responses.take(n + 1).drop_last() =~= responses.take(n));
        assert(more.take(front.len() as int) =~= front);
        assert(all.take(front.len() as int) =~= all.take(more.len() as int).take(
            front.len() as int,
        ));
    }
}

/// Act on the rows of fetch answers, in order, until one fails.
pub fn process_rows(
    target: &RowsTarget<'_>,
    offsets: &mut SortedMap<TopicPartition, i64>,
    positions: &mut SortedMap<TopicPartition, PartitionPosition>,
    end_offsets: &mut SortedMap<TopicPartition, i64>,
    progress: &mut RowsProgress,
    responses: &Vec<FetchResponse>,
) -> (r: Result<(), ConsumerError>)
    requires
        old(progress).in_range(),
        responses_in_range(responses@, target.owned@, target.names@),
    ensures
        final(progress).in_range(),
        processed(
            target.context(),
            old(progress).model(old(offsets)@, old(positions)@, old(end_offsets)@),
            answer_rows(responses@, target.names@),
            r,
            final(progress).model(final(offsets)@, final(positions)@, final(end_offsets)@),
        ),
{
    let ghost c = target.context();
    let ghost names = target.names@;
    let ghost s = progress.model(offsets@, positions@, end_offsets@);
    let ghost all = answer_rows(responses@, names);
    let mut i: usize = 0;
    while i < responses.len()
        invariant
            i <= responses@.len(),
            progress.in_range(),
            responses_in_range(responses@, target.owned@, target.names@),
            c == target.context(),
            names == target.names@,
            all == answer_rows(responses@, names),
            s == old(progress).model(old(offsets)@, old(positions)@, old(end_offsets)@),
            after_rows(c, s, answer_rows(responses@.take(i as int), names)) == (
                progress.model(offsets@, positions@, end_offsets@),
                None::<RowFailure>,
            ),
        decreases responses.len() - i,
    {
        let ghost before = answer_rows(responses@.take(i as int), names);
        let ghost of_response = answer_topics_rows(responses@[i as int].responses@, names);
        proof {
            assert(response_in_range(responses@[i as int], target.owned@, target.names@));
            assert(responses@.take(i + 1).drop_last() =~= responses@.take(i as int));
            assert(before + of_response =~= answer_rows(responses@.take(i + 1), names));
        }
        match process_response(
            target,
            offsets,
            positions,
            end_offsets,
            progress,
            &responses[i],
            Ghost(s),
            Ghost(before),
        ) {
            Ok(_) => {},
            Err(e) => {
                proof {
                    lemma_rows_split(responses@, names, i + 1);
                    let front = answer_rows(responses@.take(i + 1), names);
                    let rest = all.skip(front.len() as int);
                    lemma_failure_stays(c, s, front, rest);
                    assert(front + rest =~= all);
                }
                return Err(e);
            },
        }
        i = i + 1;
    }
    assert(responses@.take(i as int) =~= responses@);
    Ok(())
}

} // verus!
