//! What a drain of the fetch buffer does with its first partition, stated over
//! the records of that partition, and how it goes on with the others.
use vstd::prelude::*;

use crate::consumer::Consumer;
use crate::fetch_buffer::{drained, BufferedModel, Drained};
use crate::partition_state::pauses_in_effect;
use crate::position::{with_offset_epoch, PositionMap};
use crate::records::ConsumerRecord;
use crate::wire::{LeaderEpoch, PartitionKey};

verus! {

/// Whether only the epoch of the last record changes in the position of a
/// partition.
pub open spec fn sets_epoch(
    before: PositionMap,
    key: PartitionKey,
    epoch: LeaderEpoch,
    after: PositionMap,
) -> bool {
    &&& after.contains_key(key)
    &&& after[key].offset_epoch == epoch
    &&& before.contains_key(key) ==> after[key].leader_id == before[key].leader_id
        && after[key].leader_epoch == before[key].leader_epoch && after[key].awaiting_validation
        == before[key].awaiting_validation
    &&& !before.contains_key(key) ==> after[key].leader_id == -1 && after[key].leader_epoch.0 == -1
        && !after[key].awaiting_validation
    &&& after.remove(key) == before.remove(key)
}

/// Data of a partition that was taken away, or whose position moved, is dropped,
/// and data of a paused partition waits; neither gives a record.
pub proof fn law_drain_passes_over_a_partition(
    part: BufferedModel,
    rest: Seq<BufferedModel>,
    max: nat,
    assigned: Set<PartitionKey>,
    paused: Set<PartitionKey>,
    out: Seq<ConsumerRecord>,
    offsets: Map<PartitionKey, i64>,
    positions: PositionMap,
)
    ensures
        ({
            let d = drained(seq![part] + rest, max, assigned, paused, out, offsets, positions);
            let others = drained(rest, max, assigned, paused, out, offsets, positions);
            let current = assigned.contains(part.key) && offsets.contains_key(part.key)
                && offsets[part.key] == part.position;
            &&& !current ==> d == others
            &&& current && paused.contains(part.key) ==> {
                &&& d.out == others.out
                &&& d.offsets == others.offsets
                &&& d.positions == others.positions
                &&& d.left == seq![part] + others.left
            }
        }),
{
    assert((seq![part] + rest).skip(1) =~= rest);
    assert((seq![part] + rest)[0] == part);
}

/// A partition with more records than there is room for gives the first of them.
/// The others stay at the front of the buffer, and the partition goes on at the
/// offset after the last record that went out, with the epoch of that record.
pub proof fn law_drain_splits_a_partition(
    part: BufferedModel,
    rest: Seq<BufferedModel>,
    max: nat,
    assigned: Set<PartitionKey>,
    paused: Set<PartitionKey>,
    out: Seq<ConsumerRecord>,
    offsets: Map<PartitionKey, i64>,
    positions: PositionMap,
    room: int,
)
    requires
        part.in_range(),
        assigned.contains(part.key),
        offsets.contains_key(part.key),
        offsets[part.key] == part.position,
        !paused.contains(part.key),
        0 <= room < part.records.len(),
        out.len() + room == max,
    ensures
        ({
            let d = drained(seq![part] + rest, max, assigned, paused, out, offsets, positions);
            let at = d.offsets[part.key];
            &&& d.out.len() == max
            &&& forall|i: int| 0 <= i < out.len() ==> #[trigger] d.out[i] == out[i]
            &&& forall|i: int|
                0 <= i < room ==> d.out[out.len() + i] == #[trigger] part.records[i]
            &&& d.left.len() == rest.len() + 1
            &&& d.left.skip(1) == rest
            &&& d.left[0].key == part.key
            &&& d.left[0].position == at
            &&& d.left[0].next_offset == part.next_offset
            &&& d.left[0].last_epoch == part.last_epoch
            &&& d.left[0].records.len() == part.records.len() - room
            &&& forall|i: int|
                0 <= i < part.records.len() - room ==> #[trigger] d.left[0].records[i]
                    == part.records[room + i]
            &&& d.offsets == offsets.insert(part.key, at)
            &&& room == 0 ==> at == part.position && d.positions == positions
            &&& room > 0 ==> at == part.records[room - 1].offset + 1
            &&& room > 0 ==> sets_epoch(
                positions,
                part.key,
                LeaderEpoch(part.records[room - 1].leader_epoch),
                d.positions,
            )
        }),
{
    let parts = seq![part] + rest;
    let d = drained(parts, max, assigned, paused, out, offsets, positions);
    assert(parts.skip(1) =~= rest);
    assert(parts[0] == part);
    assert(d.left.skip(1) =~= rest);
    if room > 0 {
        assert(part.records[room - 1].offset < i64::MAX);
        assert(d.positions.remove(part.key) =~= positions.remove(part.key));
    }
}

/// A partition whose records all fit gives all of them and goes on after all of
/// its batches, with their highest epoch where that is known. The drain then
/// goes on with the other partitions while there is room.
pub proof fn law_drain_empties_a_partition(
    part: BufferedModel,
    rest: Seq<BufferedModel>,
    max: nat,
    assigned: Set<PartitionKey>,
    paused: Set<PartitionKey>,
    out: Seq<ConsumerRecord>,
    offsets: Map<PartitionKey, i64>,
    positions: PositionMap,
)
    requires
        assigned.contains(part.key),
        offsets.contains_key(part.key),
        offsets[part.key] == part.position,
        !paused.contains(part.key),
        out.len() + part.records.len() <= max,
    ensures
        exists|moved: PositionMap| #[trigger]
            drain_goes_on(
                part,
                rest,
                max,
                assigned,
                paused,
                out + part.records,
                offsets.insert(part.key, part.next_offset),
                positions,
                moved,
                drained(seq![part] + rest, max, assigned, paused, out, offsets, positions),
            ),
{
    let parts = seq![part] + rest;
    let d = drained(parts, max, assigned, paused, out, offsets, positions);
    let n = part.records.len() as int;
    assert(parts.skip(1) =~= rest);
    assert(parts[0] == part);
    assert(part.records.take(n) =~= part.records);
    let moved = match part.last_epoch {
        Some(epoch) => with_offset_epoch(positions, part.key, epoch),
        None => if n > 0 {
            with_offset_epoch(
                positions,
                part.key,
                LeaderEpoch(part.records[n - 1].leader_epoch),
            )
        } else {
            positions
        },
    };
    assert(moved.remove(part.key) =~= positions.remove(part.key));
    assert(drain_goes_on(
        part,
        rest,
        max,
        assigned,
        paused,
        out + part.records,
        offsets.insert(part.key, part.next_offset),
        positions,
        moved,
        d,
    ));
}

/// Whether a drain that emptied a partition goes on with the others from the
/// positions `moved`, unless there is no more room.
pub open spec fn drain_goes_on(
    part: BufferedModel,
    rest: Seq<BufferedModel>,
    max: nat,
    assigned: Set<PartitionKey>,
    paused: Set<PartitionKey>,
    out: Seq<ConsumerRecord>,
    offsets: Map<PartitionKey, i64>,
    positions: PositionMap,
    moved: PositionMap,
    d: Drained,
) -> bool {
    let n = part.records.len() as int;
    &&& part.last_epoch is Some ==> sets_epoch(
        positions,
        part.key,
        part.last_epoch->Some_0,
        moved,
    )
    &&& part.last_epoch is None && n > 0 ==> sets_epoch(
        positions,
        part.key,
        LeaderEpoch(part.records[n - 1].leader_epoch),
        moved,
    )
    &&& part.last_epoch is None && n == 0 ==> moved == positions
    &&& out.len() >= max ==> d.out == out && d.left == rest && d.offsets == offsets && d.positions
        == moved
    &&& out.len() < max ==> d == drained(rest, max, assigned, paused, out, offsets, moved)
}

/// A drain of an empty buffer changes nothing.
pub proof fn law_drain_of_nothing(
    max: nat,
    assigned: Set<PartitionKey>,
    paused: Set<PartitionKey>,
    out: Seq<ConsumerRecord>,
    offsets: Map<PartitionKey, i64>,
    positions: PositionMap,
)
    ensures
        ({
            let d = drained(seq![], max, assigned, paused, out, offsets, positions);
            d.out == out && d.left.len() == 0 && d.offsets == offsets && d.positions == positions
        }),
{
}

/// The records that `poll` returns come from its buffer, with the limit of the
/// settings, and only for partitions that are assigned and not paused since they
/// were assigned.
pub proof fn law_poll_drains_its_buffer(
    before: Consumer,
    out: Seq<ConsumerRecord>,
    after: Consumer,
    key: PartitionKey,
)
    requires
        before.drained_to(out, after),
    ensures
        ({
            let paused = Set::new(
                |k: PartitionKey|
                    before.paused_partitions@.contains_key(k)
                        && before.ownership_ids@.contains_key(k) && before.ownership_ids@[k]
                        == before.paused_partitions@[k],
            );
            let d = drained(
                before.fetch_buffer@,
                before.settings.max_poll_records as nat,
                before.assigned@,
                paused,
                seq![],
                before.next_offsets@,
                before.positions@,
            );
            &&& out == d.out
            &&& after.fetch_buffer@ == d.left
            &&& after.next_offsets@ == d.offsets
            &&& after.positions@ == d.positions
            &&& after.paused_partitions@.contains_key(key) <==> paused.contains(key)
            &&& paused.contains(key) ==> after.paused_partitions@[key]
                == before.paused_partitions@[key]
            &&& after.assigned == before.assigned
            &&& after.fetches == before.fetches
            &&& after.end_offsets == before.end_offsets
        }),
{
    let paused = Set::new(
        |k: PartitionKey|
            before.paused_partitions@.contains_key(k) && before.ownership_ids@.contains_key(k)
                && before.ownership_ids@[k] == before.paused_partitions@[k],
    );
    assert(pauses_in_effect(
        before.paused_partitions@,
        before.ownership_ids@,
    ).dom() =~= paused);
}

} // verus!
