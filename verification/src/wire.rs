//! The plain values that requests and responses carry.
use vstd::prelude::*;

verus! {

/// A topic and the index of one of its partitions.
pub type TopicPartition = (String, i32);

/// The model of a [`TopicPartition`].
pub type PartitionKey = (Seq<char>, i32);

/// A 16-byte identifier, read as a big-endian number. Zero stands for no id.
#[derive(Clone, Copy, Debug, Default, PartialEq, Eq, PartialOrd, Ord, Hash, Structural)]
pub struct Uuid(pub u128);

impl Uuid {
    /// Whether this is the id of no topic.
    pub fn is_zero(self) -> (r: bool)
        ensures
            r == (self.0 == 0),
    {
        self.0 == 0
    }
}

/// The epoch of a partition leader. A negative epoch is not known.
#[derive(Clone, Copy, Debug, PartialEq, Eq, PartialOrd, Ord, Hash, Structural)]
pub struct LeaderEpoch(pub i32);

impl LeaderEpoch {
    /// The epoch of a leader that nobody reported.
    pub fn unknown() -> (r: Self)
        ensures
            r.0 == -1,
    {
        LeaderEpoch(-1)
    }

    /// The epoch number.
    pub fn get(self) -> (n: i32)
        ensures
            n == self.0,
    {
        self.0
    }

    /// Whether some leader reported this epoch.
    pub fn is_known(self) -> (r: bool)
        ensures
            r == (self.0 >= 0),
    {
        self.0 >= 0
    }
}

impl Default for LeaderEpoch {
    fn default() -> (r: Self)
        ensures
            r.0 == -1,
    {
        LeaderEpoch(-1)
    }
}

/// A second value equal to a partition key.
pub fn copy_key(key: &TopicPartition) -> (r: TopicPartition)
    ensures
        r@ == key@,
        r.0@ == key.0@,
        r.1 == key.1,
{
    (key.0.clone(), key.1)
}

} // verus!
