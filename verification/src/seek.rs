//! Seeks: the application sets the fetch position of an owned partition.
//!
//! The position changes at once, and the next `poll` fetches from it. Records
//! that were fetched from the earlier position stay in the fetch buffer, but
//! `poll` drops them because their position is not the current one.
use vstd::prelude::*;

use crate::consumer::Consumer;
use crate::error::ConsumerError;
use crate::partition_state::{no_current_assignment, not_assigned, valid_position_of};
use crate::position::{position_of, position_or_default, PartitionPosition};
use crate::wire::{copy_key, LeaderEpoch, PartitionKey, TopicPartition};

verus! {

/// A sought position: it waits for validation when both its own epoch and the
/// epoch of the leader are known.
pub open spec fn sought(position: PartitionPosition, leader_epoch: Option<i32>) -> PartitionPosition {
    let epoch: i32 = match leader_epoch {
        Some(epoch) => epoch,
        None => -1i32,
    };
    PartitionPosition {
        offset_epoch: LeaderEpoch(epoch),
        awaiting_validation: epoch >= 0 && position.leader_epoch.0 >= 0,
        ..position
    }
}

/// Set the leader epoch state of a sought position.
pub fn seek_position(position: &mut PartitionPosition, leader_epoch: Option<i32>)
    ensures
        *final(position) == sought(*old(position), leader_epoch),
{
    let epoch: i32 = match leader_epoch {
        Some(epoch) => epoch,
        None => -1,
    };
    position.offset_epoch = LeaderEpoch(epoch);
    position.awaiting_validation = position.offset_epoch.is_known()
        && position.leader_epoch.is_known();
}

impl Consumer {
    /// What a seek gives and does: an error for a negative offset, then one
    /// for a partition that the consumer does not own, else the new position.
    pub open spec fn seek_done(
        self,
        key: PartitionKey,
        offset: i64,
        leader_epoch: Option<i32>,
        result: Result<(), ConsumerError>,
        after: Consumer,
    ) -> bool {
        if offset < 0 {
            result == Err::<(), ConsumerError>(ConsumerError::InvalidOffset(offset)) && after
                == self
        } else if !self.assigned@.contains(key) {
            result is Err && not_assigned(result->Err_0, key) && after == self
        } else {
            &&& result is Ok
            &&& after.next_offsets@ == self.next_offsets@.insert(key, offset)
            &&& after.positions@ == self.positions@.insert(
                key,
                sought(position_of(self.positions@, key), leader_epoch),
            )
            &&& after == (Consumer {
                next_offsets: after.next_offsets,
                positions: after.positions,
                ..self
            })
        }
    }

    /// Set the next offset that `poll` fetches for a partition.
    ///
    /// `offset` is the next offset to read, that is the last consumed offset
    /// plus 1, the same value as a committed group offset. The position is not
    /// validated.
    pub fn seek(&mut self, topic: &str, partition: i32, offset: i64) -> (r: Result<
        (),
        ConsumerError,
    >)
        ensures
            old(self).seek_done((topic@, partition), offset, None, r, *final(self)),
    {
        self.seek_to_position(topic, partition, offset, None)
    }

    /// Set the next offset that `poll` fetches for a partition, with the leader
    /// epoch of the record before it.
    ///
    /// When the consumer knows the current leader epoch of the partition, it
    /// validates the position before the next fetch.
    pub fn seek_with_leader_epoch(
        &mut self,
        topic: &str,
        partition: i32,
        offset: i64,
        leader_epoch: i32,
    ) -> (r: Result<(), ConsumerError>)
        ensures
            old(self).seek_done((topic@, partition), offset, Some(leader_epoch), r, *final(self)),
    {
        self.seek_to_position(topic, partition, offset, Some(leader_epoch))
    }

    fn seek_to_position(
        &mut self,
        topic: &str,
        partition: i32,
        offset: i64,
        leader_epoch: Option<i32>,
    ) -> (r: Result<(), ConsumerError>)
        ensures
            old(self).seek_done((topic@, partition), offset, leader_epoch, r, *final(self)),
    {
        if offset < 0 {
            return Err(ConsumerError::InvalidOffset(offset));
        }
        let key: TopicPartition = (topic.to_owned(), partition);
        assert(key@ == (topic@, partition));
        if !self.assigned.contains(&key) {
            return Err(no_current_assignment(&key));
        }
        let mut position = position_or_default(&self.positions, &key);
        seek_position(&mut position, leader_epoch);
        self.next_offsets.insert(copy_key(&key), offset);
        self.positions.insert(key, position);
        Ok(())
    }
}

/// A position read after a seek without an epoch is the sought offset, unless
/// the offset is one that stands for a reset.
pub proof fn law_seek_sets_the_position(
    before: Consumer,
    after: Consumer,
    key: PartitionKey,
    offset: i64,
    result: Result<(), ConsumerError>,
)
    requires
        before.seek_done(key, offset, None, result, after),
        result is Ok,
        !crate::list_offsets::reset_sentinel(offset),
    ensures
        valid_position_of(after.next_offsets@, after.positions@, key) == Some(offset),
{
}

} // verus!
