//! What the rows of fetch answers do to positions and buffers, stated over the
//! fields of the rows.
use vstd::prelude::*;

use crate::config::{AutoOffsetReset, IsolationLevel};
use crate::fetch::{PartitionData, PartitionRow};
use crate::fetch_answer::{
    after_row, after_rows, row_failure, FetchedModel, RowContext, RowFailure, RowsModel,
};
use crate::position::PositionMap;
use crate::record_laws::law_end_of_batches;
use crate::records::{returned_records, AbortedTransaction, RecordBatch, RecordsPayload};
use crate::wire::PartitionKey;

verus! {

/// Whether an error code asks for new metadata.
pub open spec fn asks_for_metadata(code: i16) -> bool {
    code == 3 || code == 9 || code == 56 || code == 78 || code == 100 || code == 103
}

/// Whether an error code is handled within the poll.
pub open spec fn handled_code(code: i16) -> bool {
    code == 0 || code == 1 || code == 6 || code == 74 || code == 75 || asks_for_metadata(code)
}

/// Whether a row fails the poll: its log was truncated and there is no reset
/// policy, or its error code is not handled.
pub open spec fn fails_poll(c: RowContext, row: PartitionRow) -> bool {
    c.owned.contains(row.0) && if row.1.diverging_epoch.end_offset >= 0 {
        c.policy == AutoOffsetReset::NoReset
    } else {
        !handled_code(row.1.error_code)
    }
}

/// The batches of a row, none without records of the current format.
pub open spec fn batches_of(part: PartitionData) -> Seq<RecordBatch> {
    match part.records {
        Some(RecordsPayload::V2(batches)) => batches@,
        _ => seq![],
    }
}

/// Whether `data` is what a row of a partition at `position` gives to the
/// buffer: the records of its batches from the position on, with the position
/// after all its batches and the highest epoch of theirs.
pub open spec fn buffers(
    data: FetchedModel,
    key: PartitionKey,
    part: PartitionData,
    position: i64,
    isolation: IsolationLevel,
) -> bool {
    let batches = batches_of(part);
    &&& data.key == key
    &&& data.position == position
    &&& data.records == returned_records(
        batches,
        match part.aborted_transactions {
            Some(list) => list@,
            None => Seq::<AbortedTransaction>::empty(),
        },
        isolation == IsolationLevel::ReadCommitted,
        batches.len() as int,
        position,
        key.0,
        part.partition_index,
    )
    &&& exists|i: int|
        0 <= i < batches.len() && data.next_offset == (#[trigger] batches[i]).base_offset
            + batches[i].last_offset_delta + 1
    &&& forall|i: int|
        0 <= i < batches.len() ==> data.next_offset > (#[trigger] batches[i]).base_offset
            + batches[i].last_offset_delta
    &&& data.last_epoch is Some
    &&& exists|i: int|
        0 <= i < batches.len() && data.last_epoch->Some_0.0 == (
        #[trigger] batches[i]).partition_leader_epoch
    &&& forall|i: int|
        0 <= i < batches.len() ==> data.last_epoch->Some_0.0 >= (
        #[trigger] batches[i]).partition_leader_epoch
}

/// What a row does to the state: `s` is the state before it and `t` that after
/// it.
pub open spec fn row_effects(c: RowContext, s: RowsModel, row: PartitionRow, t: RowsModel) -> bool {
    let key = row.0;
    let part = row.1;
    let code = part.error_code;
    let diverges = part.diverging_epoch.end_offset >= 0;
    let at: int = if s.offsets.contains_key(key) {
        s.offsets[key] as int
    } else {
        -1
    };
    let resets = c.policy == AutoOffsetReset::Latest || c.policy is ByDuration;
    &&& !c.owned.contains(key) ==> t == s
    &&& c.owned.contains(key) && diverges ==> {
        &&& t.offsets == s.offsets.insert(key, part.diverging_epoch.end_offset)
        &&& t.polled_resets == s.polled_resets.push(
            (key, Some(part.diverging_epoch.end_offset)),
        )
        &&& t == (RowsModel { offsets: t.offsets, polled_resets: t.polled_resets, ..s })
    }
    &&& c.owned.contains(key) && !diverges && code == 0 ==> {
        &&& t.end_offsets == s.end_offsets.insert(
            key,
            if c.isolation == IsolationLevel::ReadCommitted {
                part.last_stable_offset
            } else {
                part.high_watermark
            },
        )
        &&& batches_of(part).len() == 0 ==> t.fetched == s.fetched
        &&& batches_of(part).len() > 0 ==> {
            &&& t.fetched.len() == s.fetched.len() + 1
            &&& t.fetched.drop_last() == s.fetched
            &&& buffers(
                t.fetched.last(),
                key,
                part,
                if s.offsets.contains_key(key) {
                    s.offsets[key]
                } else {
                    0
                },
                c.isolation,
            )
        }
        &&& t.replica_updates == if part.preferred_read_replica >= 0 {
            s.replica_updates.push((key, Some(part.preferred_read_replica)))
        } else {
            s.replica_updates
        }
        &&& t == (RowsModel {
            end_offsets: t.end_offsets,
            fetched: t.fetched,
            replica_updates: t.replica_updates,
            ..s
        })
    }
    &&& c.owned.contains(key) && !diverges && code == 1 && resets ==> {
        &&& t.offsets == s.offsets.insert(key, 9223372036854775807i64)
        &&& t.polled_resets == s.polled_resets.push((key, None))
        &&& t == (RowsModel { offsets: t.offsets, polled_resets: t.polled_resets, ..s })
    }
    &&& c.owned.contains(key) && !diverges && code == 1 && !resets ==> {
        &&& t.out_of_range == s.out_of_range.push((key, at as i64))
        &&& t == (RowsModel { out_of_range: t.out_of_range, ..s })
    }
    &&& c.owned.contains(key) && !diverges && (code == 6 || code == 74 || code == 75
        || asks_for_metadata(code)) ==> {
        &&& t.replica_updates == s.replica_updates.push((key, None))
        &&& t.refresh == (s.refresh || asks_for_metadata(code) || (code == 6
            && part.current_leader.leader_id < 0))
        &&& leader_effects(s.positions, key, part, t.positions)
        &&& t == (RowsModel {
            replica_updates: t.replica_updates,
            refresh: t.refresh,
            positions: t.positions,
            ..s
        })
    }
    &&& fails_poll(c, row) && !diverges ==> t == s
}

/// What the position of a partition keeps after an error of its leader: an error
/// that names the new leader sets it, one without a name forgets the leader; a
/// fenced or unknown epoch forgets the epoch, and a position with an epoch of its
/// own is then validated. All else stays.
pub open spec fn leader_effects(
    before: PositionMap,
    key: PartitionKey,
    part: PartitionData,
    after: PositionMap,
) -> bool {
    let code = part.error_code;
    let named = code == 6 && part.current_leader.leader_id >= 0;
    &&& forall|k: PartitionKey|
        k != key ==> (#[trigger] after.contains_key(k) == before.contains_key(k)) && after[k]
            == before[k]
    &&& after.contains_key(key) == (before.contains_key(key) || named)
    &&& named ==> {
        &&& after[key].leader_id == part.current_leader.leader_id
        &&& after[key].leader_epoch.0 == part.current_leader.leader_epoch
    }
    &&& named && !before.contains_key(key) ==> {
        &&& after[key].offset_epoch.0 == -1
        &&& !after[key].awaiting_validation
    }
    &&& before.contains_key(key) ==> {
        let had = before[key];
        let has = after[key];
        &&& has.offset_epoch == had.offset_epoch
        &&& code == 6 ==> has.awaiting_validation == had.awaiting_validation
        &&& code == 6 && !named ==> has.leader_id == -1 && has.leader_epoch == had.leader_epoch
        &&& code == 74 || code == 75 ==> {
            &&& has.leader_id == had.leader_id
            &&& has.leader_epoch.0 == -1
            &&& has.awaiting_validation <==> had.awaiting_validation || had.offset_epoch.0 >= 0
        }
        &&& asks_for_metadata(code) ==> has == had
    }
}

/// Each row does what its error code says, and to its own partition only.
pub proof fn law_a_row_does_what_its_code_says(c: RowContext, s: RowsModel, row: PartitionRow)
    ensures
        row_effects(c, s, row, after_row(c, s, row)),
        row_failure(c, s, row) is Some <==> fails_poll(c, row),
        fails_poll(c, row) && row.1.diverging_epoch.end_offset < 0 ==> row_failure(c, s, row)
            == Some(RowFailure::Server(row.1.error_code)),
        fails_poll(c, row) && row.1.diverging_epoch.end_offset >= 0 ==> row_failure(c, s, row)
            == Some(
            RowFailure::Truncation {
                key: row.0,
                fetch_offset: if s.offsets.contains_key(row.0) {
                    s.offsets[row.0]
                } else {
                    -1i64
                },
                safe_offset: row.1.diverging_epoch.end_offset,
            },
        ),
{
    let t = after_row(c, s, row);
    if batches_of(row.1).len() > 0 {
        law_end_of_batches(batches_of(row.1));
    }
    if batches_of(row.1).len() > 0 && t.fetched.len() > s.fetched.len() {
        assert(t.fetched.drop_last() =~= s.fetched);
    }
    match row.1.records {
        Some(RecordsPayload::V2(batches)) => {
            assert(batches_of(row.1) == batches@);
        },
        _ => {},
    }
    assert(Seq::<AbortedTransaction>::empty() =~= seq![]);
}

/// Whether no row before `i` fails the poll.
pub open spec fn reached(c: RowContext, rows: Seq<PartitionRow>, i: int) -> bool {
    forall|j: int| 0 <= j < i ==> !fails_poll(c, #[trigger] rows[j])
}

/// The state before row `i`.
pub open spec fn state_before(
    c: RowContext,
    s: RowsModel,
    rows: Seq<PartitionRow>,
    i: int,
) -> RowsModel {
    after_rows(c, s, rows.take(i)).0
}

/// Rows take effect one after another up to the first that fails the poll, and
/// none after it does: the answer fails as that row says, with the effects of the
/// rows before it.
pub proof fn law_rows_take_effect_in_order(
    c: RowContext,
    s: RowsModel,
    rows: Seq<PartitionRow>,
    i: int,
)
    requires
        0 <= i < rows.len(),
        reached(c, rows, i),
    ensures
        state_before(c, s, rows, 0) == s,
        fails_poll(c, rows[i]) ==> {
            &&& after_rows(c, s, rows).0 == state_before(c, s, rows, i)
            &&& after_rows(c, s, rows).1 is Some
            &&& rows[i].1.diverging_epoch.end_offset < 0 ==> after_rows(c, s, rows).1 == Some(
                RowFailure::Server(rows[i].1.error_code),
            )
            &&& rows[i].1.diverging_epoch.end_offset >= 0 ==> after_rows(
                c,
                s,
                rows,
            ).1->Some_0 is Truncation
        },
        !fails_poll(c, rows[i]) ==> row_effects(
            c,
            state_before(c, s, rows, i),
            rows[i],
            state_before(c, s, rows, i + 1),
        ),
        reached(c, rows, rows.len() as int) ==> after_rows(c, s, rows) == (
            state_before(c, s, rows, rows.len() as int),
            None::<RowFailure>,
        ),
{
    lemma_rows_up_to(c, s, rows, i);
    law_a_row_does_what_its_code_says(c, state_before(c, s, rows, i), rows[i]);
    assert(rows.take(i + 1).drop_last() =~= rows.take(i));
    assert(rows.take(rows.len() as int) =~= rows);
    if fails_poll(c, rows[i]) {
        lemma_failure_stays(c, s, rows, i + 1);
    }
    if reached(c, rows, rows.len() as int) {
        lemma_rows_up_to(c, s, rows, rows.len() as int);
    }
}

proof fn lemma_rows_up_to(c: RowContext, s: RowsModel, rows: Seq<PartitionRow>, n: int)
    requires
        0 <= n <= rows.len(),
        reached(c, rows, n),
    ensures
        after_rows(c, s, rows.take(n)).1 is None,
    decreases n,
{
    if n > 0 {
        lemma_rows_up_to(c, s, rows, n - 1);
        assert(rows.take(n).drop_last() =~= rows.take(n - 1));
        assert(!fails_poll(c, rows[n - 1]));
        law_a_row_does_what_its_code_says(c, state_before(c, s, rows, n - 1), rows[n - 1]);
    }
}

proof fn lemma_failure_stays(c: RowContext, s: RowsModel, rows: Seq<PartitionRow>, n: int)
    requires
        0 <= n <= rows.len(),
        after_rows(c, s, rows.take(n)).1 is Some,
    ensures
        after_rows(c, s, rows) == after_rows(c, s, rows.take(n)),
    decreases rows.len() - n,
{
    if n < rows.len() {
        assert(rows.take(n + 1).drop_last() =~= rows.take(n));
        lemma_failure_stays(c, s, rows, n + 1);
    } else {
        assert(rows.take(n) =~= rows);
    }
}

} // verus!
