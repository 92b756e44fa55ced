//! What the consumer knows of a partition beside its next offset.
use vstd::prelude::*;

use crate::collections::SortedMap;
use crate::wire::{copy_key, LeaderEpoch, PartitionKey, TopicPartition};

verus! {

/// The epochs and the leader of a partition.
#[derive(Clone, Copy, Debug, PartialEq, Eq, Structural)]
pub struct PartitionPosition {
    /// The leader epoch of the last consumed record.
    pub offset_epoch: LeaderEpoch,
    /// The broker that leads the partition, or -1.
    pub leader_id: i32,
    /// The epoch of that leader.
    pub leader_epoch: LeaderEpoch,
    /// The position must be compared with the leader's log before a fetch.
    pub awaiting_validation: bool,
}

impl PartitionPosition {
    /// The position of a partition of which nothing is known.
    pub open spec fn unknown() -> Self {
        PartitionPosition {
            offset_epoch: LeaderEpoch(-1i32),
            leader_id: -1i32,
            leader_epoch: LeaderEpoch(-1i32),
            awaiting_validation: false,
        }
    }
}

impl Default for PartitionPosition {
    fn default() -> (r: Self)
        ensures
            r == PartitionPosition::unknown(),
    {
        PartitionPosition {
            offset_epoch: LeaderEpoch(-1),
            leader_id: -1,
            leader_epoch: LeaderEpoch(-1),
            awaiting_validation: false,
        }
    }
}

/// The positions of partitions.
pub type PositionMap = Map<PartitionKey, PartitionPosition>;

/// The position of a partition, unknown where there is none.
pub open spec fn position_of(positions: PositionMap, key: PartitionKey) -> PartitionPosition {
    if positions.contains_key(key) {
        positions[key]
    } else {
        PartitionPosition::unknown()
    }
}

/// The positions after a record of leader epoch `epoch` was consumed.
pub open spec fn with_offset_epoch(
    positions: PositionMap,
    key: PartitionKey,
    epoch: LeaderEpoch,
) -> PositionMap {
    positions.insert(
        key,
        PartitionPosition { offset_epoch: epoch, ..position_of(positions, key) },
    )
}

/// The position of a partition, unknown where there is none.
pub fn position_or_default(
    positions: &SortedMap<TopicPartition, PartitionPosition>,
    key: &TopicPartition,
) -> (r: PartitionPosition)
    ensures
        r == position_of(positions@, key@),
{
    match positions.get(key) {
        Some(position) => *position,
        None => PartitionPosition::default(),
    }
}

/// Records that a record of leader epoch `epoch` was consumed.
pub fn set_offset_epoch(
    positions: &mut SortedMap<TopicPartition, PartitionPosition>,
    key: &TopicPartition,
    epoch: LeaderEpoch,
)
    ensures
        final(positions)@ == with_offset_epoch(old(positions)@, key@, epoch),
{
    let had = position_or_default(positions, key);
    positions.insert(
        copy_key(key),
        PartitionPosition {
            offset_epoch: epoch,
            leader_id: had.leader_id,
            leader_epoch: had.leader_epoch,
            awaiting_validation: had.awaiting_validation,
        },
    );
}

} // verus!
