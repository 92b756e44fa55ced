//! The settings of a consumer.
use vstd::prelude::*;

verus! {

/// Which records of transactions a consumer reads.
#[derive(Clone, Copy, Debug, PartialEq, Eq, Structural)]
pub enum IsolationLevel {
    /// Every record.
    ReadUncommitted,
    /// No record of an open or aborted transaction.
    ReadCommitted,
}

impl IsolationLevel {
    /// The value of the level in a request.
    pub open spec fn code(self) -> i8 {
        match self {
            IsolationLevel::ReadUncommitted => 0,
            IsolationLevel::ReadCommitted => 1,
        }
    }

    /// The value of the level in a request.
    pub fn wire(self) -> (r: i8)
        ensures
            r == self.code(),
    {
        match self {
            IsolationLevel::ReadUncommitted => 0,
            IsolationLevel::ReadCommitted => 1,
        }
    }
}

/// Whether a consumer leaves out the records of aborted transactions.
pub fn is_read_committed(isolation_level: IsolationLevel) -> (r: bool)
    ensures
        r == (isolation_level == IsolationLevel::ReadCommitted),
{
    match isolation_level {
        IsolationLevel::ReadCommitted => true,
        IsolationLevel::ReadUncommitted => false,
    }
}

/// Where a partition without a valid position starts.
#[derive(Clone, Copy, Debug, PartialEq, Eq, Structural)]
pub enum AutoOffsetReset {
    /// At the start of the log.
    Earliest,
    /// At the end of the log.
    Latest,
    /// Nowhere: the consumer reports an error.
    NoReset,
    /// At the first record that is no older than this many milliseconds.
    ByDuration(u128),
}

/// How a rebalance treats the partitions that a member owns.
#[derive(Clone, Copy, Debug, PartialEq, Eq, Structural)]
pub enum RebalanceProtocol {
    /// The member gives up every partition before it joins.
    Eager,
    /// The member keeps its partitions while it joins.
    Cooperative,
}

/// The protocol between a member and its group coordinator.
#[derive(Clone, Copy, Debug, PartialEq, Eq, Structural)]
pub enum GroupProtocol {
    /// The members of the group compute the assignment.
    Classic,
    /// The coordinator computes the assignment.
    Consumer,
}

} // verus!
