//! What becomes of committed offsets, seeks and resets, stated over the fields
//! of the answers and of the state.
use vstd::prelude::*;

use crate::config::AutoOffsetReset;
use crate::consumer::Consumer;
use crate::error::ConsumerError;
use crate::offset_wire::{
    committed_as, committed_of, committed_view, groups_rows, rows_committed, topic_rows,
    topics_rows, OffsetAndMetadata, OffsetFetchGroup, OffsetFetchResponse, OffsetFetchTopic,
    OffsetRow,
};
use crate::partition_state::{committed_in, valid_position_of};
use crate::position::{PartitionPosition, PositionMap};
use crate::position_update::{offsets_committed, positions_committed, start_from, start_of};
use crate::rejoin::{
    missing_offsets, missing_positions, offset_row_key, offset_row_keys, primed_offsets,
    primed_positions,
};
use crate::wire::PartitionKey;

verus! {

/// A partition without a committed offset starts at 0 under the earliest policy,
/// and at the placeholder of a reset under every other one.
pub proof fn law_start_without_a_committed_offset(policy: AutoOffsetReset)
    ensures
        start_of(policy) == match policy {
            AutoOffsetReset::Earliest => 0i64,
            AutoOffsetReset::Latest => 9223372036854775807i64,
            AutoOffsetReset::NoReset => 9223372036854775807i64,
            AutoOffsetReset::ByDuration(_) => 9223372036854775807i64,
        },
{
}

/// A committed offset is where a partition starts, 0 included.
pub proof fn law_start_at_the_committed_offset(committed: i64, policy: AutoOffsetReset)
    ensures
        committed >= 0 ==> start_from(committed, policy) == committed,
        committed < 0 && policy == AutoOffsetReset::Earliest ==> start_from(committed, policy) == 0,
        committed < 0 && policy != AutoOffsetReset::Earliest ==> start_from(committed, policy)
            == 9223372036854775807i64,
{
}

/// Whether row `i` is the last row of its partition.
pub open spec fn last_of_its_partition(rows: Seq<OffsetRow>, i: int) -> bool {
    &&& 0 <= i < rows.len()
    &&& forall|j: int|
        i < j < rows.len() ==> !((#[trigger] rows[j]).0 == rows[i].0 && rows[j].1.partition_index
            == rows[i].1.partition_index)
}

proof fn lemma_primed(
    offsets: Map<PartitionKey, i64>,
    positions: PositionMap,
    rows: Seq<OffsetRow>,
    policy: AutoOffsetReset,
    i: int,
)
    requires
        last_of_its_partition(rows, i),
    ensures
        ({
            let key = (rows[i].0, rows[i].1.partition_index);
            let after = primed_offsets(offsets, rows, policy);
            let placed = primed_positions(positions, rows);
            &&& after.contains_key(key)
            &&& after[key] == start_from(rows[i].1.committed_offset, policy)
            &&& placed.contains_key(key)
            &&& placed[key].offset_epoch.0 == rows[i].1.committed_leader_epoch
        }),
    decreases rows.len(),
{
    let front = rows.drop_last();
    if i < rows.len() - 1 {
        assert(front[i] == rows[i]);
        assert(last_of_its_partition(front, i)) by {
            assert forall|j: int| i < j < front.len() implies !((#[trigger] front[j]).0
                == front[i].0 && front[j].1.partition_index == front[i].1.partition_index) by {
                assert(rows[j] == front[j]);
            }
        }
        lemma_primed(offsets, positions, front, policy, i);
        assert(rows[rows.len() - 1] == rows.last());
    }
}

proof fn lemma_primed_others(
    offsets: Map<PartitionKey, i64>,
    positions: PositionMap,
    rows: Seq<OffsetRow>,
    policy: AutoOffsetReset,
    key: PartitionKey,
)
    requires
        forall|i: int|
            0 <= i < rows.len() ==> ((#[trigger] rows[i]).0, rows[i].1.partition_index) != key,
    ensures
        primed_offsets(offsets, rows, policy).contains_key(key) == offsets.contains_key(key),
        primed_offsets(offsets, rows, policy)[key] == offsets[key],
        primed_positions(positions, rows).contains_key(key) == positions.contains_key(key),
        primed_positions(positions, rows)[key] == positions[key],
    decreases rows.len(),
{
    if rows.len() > 0 {
        let front = rows.drop_last();
        assert forall|i: int| 0 <= i < front.len() implies (
            (#[trigger] front[i]).0,
            front[i].1.partition_index,
        ) != key by {
            assert(rows[i] == front[i]);
        }
        assert((rows[rows.len() - 1].0, rows[rows.len() - 1].1.partition_index) != key);
        lemma_primed_others(offsets, positions, front, policy, key);
    }
}

proof fn lemma_primed_leader(positions: PositionMap, rows: Seq<OffsetRow>, key: PartitionKey)
    ensures
        primed_positions(positions, rows).contains_key(key) ==> {
            let after = primed_positions(positions, rows)[key];
            if positions.contains_key(key) {
                after.leader_id == positions[key].leader_id && after.leader_epoch
                    == positions[key].leader_epoch && after.awaiting_validation
                    == positions[key].awaiting_validation
            } else {
                after.leader_id == -1 && after.leader_epoch.0 == -1 && !after.awaiting_validation
            }
        },
        positions.contains_key(key) ==> primed_positions(positions, rows).contains_key(key),
    decreases rows.len(),
{
    if rows.len() > 0 {
        lemma_primed_leader(positions, rows.drop_last(), key);
        let last = (rows.last().0, rows.last().1.partition_index);
        lemma_primed_leader(positions, rows.drop_last(), last);
    }
}

/// Whether the partition of a row starts at the committed offset of the row if it
/// is not negative, else where the reset policy says, with the epoch of the row.
pub open spec fn starts_at_its_offset(
    row: OffsetRow,
    policy: AutoOffsetReset,
    offsets: Map<PartitionKey, i64>,
    positions: PositionMap,
) -> bool {
    let key = (row.0, row.1.partition_index);
    &&& offsets.contains_key(key)
    &&& row.1.committed_offset >= 0 ==> offsets[key] == row.1.committed_offset
    &&& row.1.committed_offset < 0 ==> offsets[key] == if policy == AutoOffsetReset::Earliest {
        0i64
    } else {
        9223372036854775807i64
    }
    &&& positions.contains_key(key)
    &&& positions[key].offset_epoch.0 == row.1.committed_leader_epoch
}

/// Each partition that an answer names starts at its own committed offset and
/// leader epoch, those of its last row: at the offset if it is not negative, else
/// where the reset policy says. What is known of its leader stays.
pub proof fn law_named_partitions_start_at_their_own_offset(
    offsets: Map<PartitionKey, i64>,
    positions: PositionMap,
    rows: Seq<OffsetRow>,
    keys: Seq<PartitionKey>,
    policy: AutoOffsetReset,
    i: int,
)
    requires
        last_of_its_partition(rows, i),
    ensures
        ({
            let key = (rows[i].0, rows[i].1.partition_index);
            let after = missing_offsets(
                primed_offsets(offsets, rows, policy),
                keys,
                offset_row_keys(rows),
                policy,
            );
            let placed = missing_positions(
                primed_positions(positions, rows),
                keys,
                offset_row_keys(rows),
            );
            &&& starts_at_its_offset(rows[i], policy, after, placed)
            &&& positions.contains_key(key) ==> placed[key] == (PartitionPosition {
                offset_epoch: placed[key].offset_epoch,
                ..positions[key]
            })
        }),
{
    let key = (rows[i].0, rows[i].1.partition_index);
    lemma_primed(offsets, positions, rows, policy, i);
    lemma_primed_leader(positions, rows, key);
    assert(offset_row_key(rows[i]) == key);
    assert(offset_row_keys(rows).contains(key));
}

/// A primed partition that the answer does not name starts where the reset policy
/// says, and a partition that is neither named nor primed stays as it was.
pub proof fn law_unnamed_partitions_start_at_the_reset(
    offsets: Map<PartitionKey, i64>,
    positions: PositionMap,
    rows: Seq<OffsetRow>,
    keys: Seq<PartitionKey>,
    policy: AutoOffsetReset,
    key: PartitionKey,
)
    requires
        forall|i: int|
            0 <= i < rows.len() ==> ((#[trigger] rows[i]).0, rows[i].1.partition_index) != key,
    ensures
        ({
            let after = missing_offsets(
                primed_offsets(offsets, rows, policy),
                keys,
                offset_row_keys(rows),
                policy,
            );
            let placed = missing_positions(
                primed_positions(positions, rows),
                keys,
                offset_row_keys(rows),
            );
            &&& keys.contains(key) ==> after.contains_key(key) && after[key] == if policy
                == AutoOffsetReset::Earliest {
                0i64
            } else {
                9223372036854775807i64
            }
            &&& keys.contains(key) ==> placed.contains_key(key)
            &&& !keys.contains(key) ==> after.contains_key(key) == offsets.contains_key(key)
            &&& !keys.contains(key) && offsets.contains_key(key) ==> after[key] == offsets[key]
            &&& !keys.contains(key) ==> placed.contains_key(key) == positions.contains_key(key)
            &&& positions.contains_key(key) ==> placed.contains_key(key) && placed[key]
                == positions[key]
        }),
{
    lemma_primed_others(offsets, positions, rows, policy, key);
    assert(!offset_row_keys(rows).contains(key)) by {
        if offset_row_keys(rows).contains(key) {
            let j = choose|j: int| 0 <= j < rows.len() && offset_row_key(#[trigger] rows[j]) == key;
            assert((rows[j].0, rows[j].1.partition_index) == key);
        }
    }
}

/// Whether a row is partition `p` of topic `t`, for some of them.
pub open spec fn is_topic_row(topics: Seq<OffsetFetchTopic>, row: OffsetRow) -> bool {
    exists|t: int, p: int|
        0 <= t < topics.len() && 0 <= p < topics[t].partitions@.len() && row == (
            topics[t].name@,
            #[trigger] topics[t].partitions@[p],
        )
}

proof fn lemma_topics_rows(topics: Seq<OffsetFetchTopic>, row: OffsetRow)
    ensures
        topics_rows(topics).contains(row) <==> is_topic_row(topics, row),
    decreases topics.len(),
{
    if topics.len() > 0 {
        let front = topics.drop_last();
        let before = topics_rows(front);
        let own = topic_rows(topics.last());
        let all = topics_rows(topics);
        lemma_topics_rows(front, row);
        if all.contains(row) {
            let i = choose|i: int| 0 <= i < all.len() && all[i] == row;
            if i < before.len() {
                assert(before[i] == row);
                let (t, p) = choose|t: int, p: int|
                    0 <= t < front.len() && 0 <= p < front[t].partitions@.len() && row == (
                        front[t].name@,
                        #[trigger] front[t].partitions@[p],
                    );
                assert(topics[t].partitions@[p] == front[t].partitions@[p]);
            } else {
                assert(own[i - before.len()] == row);
                assert(topics[topics.len() - 1].partitions@[i - before.len()] == row.1);
            }
        }
        if is_topic_row(topics, row) {
            let (t, p) = choose|t: int, p: int|
                0 <= t < topics.len() && 0 <= p < topics[t].partitions@.len() && row == (
                    topics[t].name@,
                    #[trigger] topics[t].partitions@[p],
                );
            if t < front.len() {
                assert(front[t].partitions@[p] == topics[t].partitions@[p]);
                assert(before.contains(row));
                let i = choose|i: int| 0 <= i < before.len() && before[i] == row;
                assert(all[i] == row);
            } else {
                assert(all[before.len() + p] == own[p]);
            }
        }
    }
}

proof fn lemma_groups_rows(groups: Seq<OffsetFetchGroup>, row: OffsetRow)
    ensures
        groups_rows(groups).contains(row) <==> exists|g: int|
            0 <= g < groups.len() && is_topic_row((#[trigger] groups[g]).topics@, row),
    decreases groups.len(),
{
    if groups.len() > 0 {
        let front = groups.drop_last();
        let before = groups_rows(front);
        let own = topics_rows(groups.last().topics@);
        let all = groups_rows(groups);
        lemma_groups_rows(front, row);
        lemma_topics_rows(groups.last().topics@, row);
        if all.contains(row) {
            let i = choose|i: int| 0 <= i < all.len() && all[i] == row;
            if i < before.len() {
                assert(before[i] == row);
                let g = choose|g: int|
                    0 <= g < front.len() && is_topic_row((#[trigger] front[g]).topics@, row);
                assert(groups[g] == front[g]);
            } else {
                assert(own[i - before.len()] == row);
                assert(is_topic_row(groups[groups.len() - 1].topics@, row));
            }
        }
        if exists|g: int|
            0 <= g < groups.len() && is_topic_row((#[trigger] groups[g]).topics@, row) {
            let g = choose|g: int|
                0 <= g < groups.len() && is_topic_row((#[trigger] groups[g]).topics@, row);
            if g < front.len() {
                assert(front[g] == groups[g]);
                assert(before.contains(row));
                let i = choose|i: int| 0 <= i < before.len() && before[i] == row;
                assert(all[i] == row);
            } else {
                assert(own.contains(row));
                let i = choose|i: int| 0 <= i < own.len() && own[i] == row;
                assert(all[before.len() + i] == row);
            }
        }
    }
}

/// The rows that count for committed offsets are all partitions of all topics:
/// of every group of an answer with groups, else of the answer itself. An error
/// is looked for in both places.
pub proof fn law_every_partition_of_an_answer_is_a_row(
    response: OffsetFetchResponse,
    row: OffsetRow,
)
    ensures
        response.offset_rows().contains(row) <==> if response.groups@.len() == 0 {
            is_topic_row(response.topics@, row)
        } else {
            exists|g: int|
                0 <= g < response.groups@.len() && is_topic_row(
                    (#[trigger] response.groups@[g]).topics@,
                    row,
                )
        },
        response.all_rows().contains(row) <==> is_topic_row(response.topics@, row) || exists|g: int|
            0 <= g < response.groups@.len() && is_topic_row(
                (#[trigger] response.groups@[g]).topics@,
                row,
            ),
{
    lemma_topics_rows(response.topics@, row);
    lemma_groups_rows(response.groups@, row);
    let a = topics_rows(response.topics@);
    let b = groups_rows(response.groups@);
    if a.contains(row) {
        let i = choose|i: int| 0 <= i < a.len() && a[i] == row;
        assert((a + b)[i] == row);
    }
    if b.contains(row) {
        let i = choose|i: int| 0 <= i < b.len() && b[i] == row;
        assert((a + b)[a.len() + i] == row);
    }
    if (a + b).contains(row) {
        let i = choose|i: int| 0 <= i < (a + b).len() && (a + b)[i] == row;
        if i < a.len() {
            assert(a[i] == row);
        } else {
            assert(b[i - a.len()] == row);
        }
    }
}

proof fn lemma_rows_committed(rows: Seq<OffsetRow>, i: int)
    requires
        last_of_its_partition(rows, i),
    ensures
        ({
            let key = (rows[i].0, rows[i].1.partition_index);
            rows_committed(rows).contains_key(key) && rows_committed(rows)[key] == committed_of(
                rows[i],
            )
        }),
    decreases rows.len(),
{
    let front = rows.drop_last();
    if i < rows.len() - 1 {
        assert(front[i] == rows[i]);
        assert(last_of_its_partition(front, i)) by {
            assert forall|j: int| i < j < front.len() implies !((#[trigger] front[j]).0
                == front[i].0 && front[j].1.partition_index == front[i].1.partition_index) by {
                assert(rows[j] == front[j]);
            }
        }
        lemma_rows_committed(front, i);
        assert(rows[rows.len() - 1] == rows.last());
    }
}

proof fn lemma_not_committed(rows: Seq<OffsetRow>, key: PartitionKey)
    requires
        forall|i: int|
            0 <= i < rows.len() ==> ((#[trigger] rows[i]).0, rows[i].1.partition_index) != key,
    ensures
        !rows_committed(rows).contains_key(key),
    decreases rows.len(),
{
    if rows.len() > 0 {
        let front = rows.drop_last();
        assert forall|i: int| 0 <= i < front.len() implies (
            (#[trigger] front[i]).0,
            front[i].1.partition_index,
        ) != key by {
            assert(rows[i] == front[i]);
        }
        assert((rows[rows.len() - 1].0, rows[rows.len() - 1].1.partition_index) != key);
        lemma_not_committed(front, key);
    }
}

/// Whether `committed` is what a row without an error and with an offset says:
/// its offset, its epoch unless that is negative, and its metadata text.
pub open spec fn reports_commit(committed: Option<OffsetAndMetadata>, row: OffsetRow) -> bool {
    &&& committed is Some
    &&& committed->Some_0.offset == row.1.committed_offset
    &&& row.1.committed_leader_epoch >= 0 ==> committed->Some_0.leader_epoch == Some(
        row.1.committed_leader_epoch,
    )
    &&& row.1.committed_leader_epoch < 0 ==> committed->Some_0.leader_epoch is None
    &&& row.1.metadata is Some ==> committed->Some_0.metadata@ == row.1.metadata->Some_0@
    &&& row.1.metadata is None ==> committed->Some_0.metadata@.len() == 0
}

/// Whether a map has, for the partition of a row, what the row says: a row with
/// an error, or with a negative offset, says that there is no committed offset.
pub open spec fn has_commit_of(
    map: Map<PartitionKey, Option<OffsetAndMetadata>>,
    row: OffsetRow,
) -> bool {
    let key = (row.0, row.1.partition_index);
    &&& map.contains_key(key)
    &&& row.1.error_code == 0 && row.1.committed_offset >= 0 ==> reports_commit(map[key], row)
    &&& row.1.error_code != 0 || row.1.committed_offset < 0 ==> map[key] is None
}

/// The committed offset of a partition is that of its last row, whatever the
/// leader epoch is: a row with an error, or with a negative offset, says that
/// there is none.
pub proof fn law_committed_offsets_are_those_of_the_rows(
    map: Map<PartitionKey, Option<OffsetAndMetadata>>,
    rows: Seq<OffsetRow>,
    i: int,
)
    requires
        committed_as(map, rows_committed(rows)),
        last_of_its_partition(rows, i),
    ensures
        has_commit_of(map, rows[i]),
{
    let key = (rows[i].0, rows[i].1.partition_index);
    lemma_rows_committed(rows, i);
    assert(map.dom().contains(key));
    assert(committed_view(map[key]) == committed_of(rows[i]));
}

/// The answer of `committed` for a requested partition is that of its last row,
/// and no offset where the coordinator names no row of it.
pub proof fn law_committed_answers_each_requested_partition(
    result: Map<PartitionKey, Option<OffsetAndMetadata>>,
    requested: Seq<PartitionKey>,
    rows: Seq<OffsetRow>,
    key: PartitionKey,
)
    requires
        result.dom() == requested.to_set(),
        forall|k: PartitionKey| #[trigger]
            result.contains_key(k) ==> committed_view(result[k]) == committed_in(
                rows_committed(rows),
                k,
            ),
        requested.contains(key),
    ensures
        result.contains_key(key),
        forall|i: int|
            #[trigger] last_of_its_partition(rows, i) && (rows[i].0, rows[i].1.partition_index)
                == key ==> has_commit_of(result, rows[i]),
        (forall|i: int|
            0 <= i < rows.len() ==> ((#[trigger] rows[i]).0, rows[i].1.partition_index) != key)
            ==> result[key] is None,
{
    assert(result.dom().contains(key));
    assert forall|i: int|
        #[trigger] last_of_its_partition(rows, i) && (rows[i].0, rows[i].1.partition_index)
            == key implies has_commit_of(result, rows[i]) by {
        lemma_rows_committed(rows, i);
        assert(committed_view(result[key]) == committed_of(rows[i]));
    }
    if forall|i: int|
        0 <= i < rows.len() ==> ((#[trigger] rows[i]).0, rows[i].1.partition_index) != key {
        lemma_not_committed(rows, key);
    }
}

/// A manually assigned partition that waits for its committed offset takes it
/// with its epoch, and waits for validation when the leader has a newer epoch.
/// Without a committed offset it starts where the reset policy says. A partition
/// that does not wait stays as it is.
pub proof fn law_waiting_partitions_take_their_committed_offset(
    offsets: Map<PartitionKey, i64>,
    positions: PositionMap,
    keys: Seq<PartitionKey>,
    committed: Map<PartitionKey, Option<OffsetAndMetadata>>,
    policy: AutoOffsetReset,
    key: PartitionKey,
)
    requires
        offsets.contains_key(key),
    ensures
        ({
            let after = offsets_committed(offsets, keys, committed, policy);
            let placed = positions_committed(positions, offsets, keys, committed);
            let waits = keys.contains(key) && offsets[key] == 9223372036854775804i64;
            let found = committed.contains_key(key) && committed[key] is Some;
            let commit = committed[key]->Some_0;
            &&& after.dom() == offsets.dom()
            &&& waits && found ==> {
                &&& after[key] == commit.offset
                &&& placed.contains_key(key)
                &&& placed[key].offset_epoch.0 == match commit.leader_epoch {
                    Some(epoch) => epoch,
                    None => -1i32,
                }
                &&& positions.contains_key(key) ==> {
                    &&& placed[key].leader_id == positions[key].leader_id
                    &&& placed[key].leader_epoch == positions[key].leader_epoch
                    &&& placed[key].awaiting_validation <==> commit.leader_epoch is Some && 0
                        <= commit.leader_epoch->Some_0 < positions[key].leader_epoch.0
                }
            }
            &&& waits && !found ==> after[key] == if policy == AutoOffsetReset::Earliest {
                0i64
            } else {
                9223372036854775807i64
            }
            &&& !waits ==> after[key] == offsets[key]
            &&& !waits || !found ==> {
                &&& placed.contains_key(key) == positions.contains_key(key)
                &&& positions.contains_key(key) ==> placed[key] == positions[key]
            }
        }),
{
    assert(offsets_committed(offsets, keys, committed, policy).dom() =~= offsets.dom());
}

/// A position is valid where there is an offset below the placeholders of resets
/// that does not wait for validation.
pub proof fn law_valid_positions(
    offsets: Map<PartitionKey, i64>,
    positions: PositionMap,
    key: PartitionKey,
)
    ensures
        ({
            let valid = valid_position_of(offsets, positions, key);
            &&& valid is Some <==> offsets.contains_key(key) && offsets[key]
                < 9223372036854775804i64 && !(positions.contains_key(key)
                && positions[key].awaiting_validation)
            &&& valid is Some ==> valid->Some_0 == offsets[key]
        }),
{
}

/// A seek sets the offset of its partition, and its epoch, or none. The position
/// waits for validation when both the given epoch and the epoch of the leader are
/// known. The leader and every other partition stay as they were. A negative
/// offset and a partition that is not assigned change nothing.
pub proof fn law_seek_changes_its_partition_only(
    before: Consumer,
    after: Consumer,
    key: PartitionKey,
    offset: i64,
    leader_epoch: Option<i32>,
    result: Result<(), ConsumerError>,
    other: PartitionKey,
)
    requires
        before.seek_done(key, offset, leader_epoch, result, after),
        other != key,
    ensures
        result is Ok <==> offset >= 0 && before.assigned@.contains(key),
        offset < 0 ==> result == Err::<(), ConsumerError>(ConsumerError::InvalidOffset(offset)),
        result is Err ==> after == before,
        result is Ok ==> {
            let given: int = match leader_epoch {
                Some(epoch) => epoch as int,
                None => -1,
            };
            let position = after.positions@[key];
            &&& after.next_offsets@.contains_key(key)
            &&& after.next_offsets@[key] == offset
            &&& after.positions@.contains_key(key)
            &&& position.offset_epoch.0 == given
            &&& before.positions@.contains_key(key) ==> {
                let had = before.positions@[key];
                &&& position.leader_id == had.leader_id
                &&& position.leader_epoch == had.leader_epoch
                &&& position.awaiting_validation <==> given >= 0 && had.leader_epoch.0 >= 0
            }
            &&& !before.positions@.contains_key(key) ==> !position.awaiting_validation
            &&& after.next_offsets@.contains_key(other) == before.next_offsets@.contains_key(other)
            &&& after.next_offsets@[other] == before.next_offsets@[other]
            &&& after.positions@.contains_key(other) == before.positions@.contains_key(other)
            &&& after.positions@[other] == before.positions@[other]
            &&& after.fetch_buffer == before.fetch_buffer
            &&& after.assigned == before.assigned
        },
{
}

} // verus!
