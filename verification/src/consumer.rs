//! The state of a consumer.
use vstd::prelude::*;

use crate::assignment::Assignment;
use crate::collections::{SortedMap, SortedSet};
use crate::config::{AutoOffsetReset, GroupProtocol, IsolationLevel, RebalanceProtocol};
use crate::error::{ClientError, ConsumerError};
use crate::fetch::FetchResponse;
use crate::fetch_buffer::{all_belong, FetchBuffer};
use crate::fetch_session::FetchSession;
use crate::position::PartitionPosition;
use crate::subscription::Subscription;
use crate::wire::{TopicPartition, Uuid};

verus! {

/// A time on the monotonic clock of the consumer, in nanoseconds.
pub type Nanos = u64;

/// What a consumer was built with.
pub struct ConsumerSettings {
    /// The group, or empty for a consumer without a group.
    pub group_id: String,
    /// The consumer joins its group; without it, it only commits to it.
    pub group_membership: bool,
    pub group_protocol: GroupProtocol,
    pub rebalance_protocol: RebalanceProtocol,
    pub auto_offset_reset: AutoOffsetReset,
    pub isolation_level: IsolationLevel,
    /// The most records that one `poll` returns.
    pub max_poll_records: usize,
    pub fetch_max_wait_ms: i32,
    /// The fewest and the most bytes of a fetch answer, and the most of one
    /// partition in it.
    pub fetch_min_bytes: i32,
    pub fetch_max_bytes: i32,
    pub fetch_partition_max_bytes: i32,
    pub client_rack: Option<String>,
    /// How long a preferred read replica stays preferred.
    pub metadata_max_age: Nanos,
    /// The wait before a request is tried again, at first and at most.
    pub initial_backoff: Nanos,
    pub max_backoff: Nanos,
    pub default_api_timeout: Nanos,
    /// A metadata request may create its topics.
    pub allow_auto_create_topics: bool,
}

/// A fetch that has no answer yet.
#[derive(Debug)]
pub struct InFlightFetch {
    /// The fetch offset of each partition that it asked for.
    pub requested: SortedMap<TopicPartition, i64>,
    /// The partitions that it asked from a preferred read replica.
    pub from_replica: SortedSet<TopicPartition>,
}

/// The answer of a broker to a fetch, an error of the connection, or `None`
/// when the fetch ended without either.
pub type FetchResult = Option<Result<FetchResponse, ClientError>>;

/// A fetch that ended.
#[derive(Debug)]
pub struct CompletedFetch {
    pub leader: i32,
    pub requested: SortedMap<TopicPartition, i64>,
    pub from_replica: SortedSet<TopicPartition>,
    pub result: FetchResult,
}

/// The fetches of a consumer: at most one in flight per broker, and the fetch
/// session of each broker. An answer that comes after `poll` returned waits
/// here for the next `poll`.
#[derive(Debug)]
pub struct Fetches {
    pub sessions: SortedMap<i32, FetchSession>,
    pub in_flight: SortedMap<i32, InFlightFetch>,
    /// The fetches that ended and were not processed yet.
    pub ready: Vec<CompletedFetch>,
    /// The replica that a broker named for a partition, with the time until
    /// which the consumer fetches from it.
    pub preferred_read_replicas: SortedMap<TopicPartition, (i32, Nanos)>,
}

impl Fetches {
    /// No fetches.
    pub fn new() -> (r: Self)
        ensures
            r.sessions@ == Map::<i32, FetchSession>::empty(),
            r.in_flight@ == Map::<i32, InFlightFetch>::empty(),
            r.ready@.len() == 0,
            r.preferred_read_replicas@ == Map::<(Seq<char>, i32), (i32, Nanos)>::empty(),
    {
        Fetches {
            sessions: SortedMap::new(),
            in_flight: SortedMap::new(),
            ready: Vec::new(),
            preferred_read_replicas: SortedMap::new(),
        }
    }
}

/// Who commits offsets: the member and its generation.
pub struct CommitIdentity {
    pub generation: i32,
    pub member_id: String,
    /// The member is out of its group until the next `poll` joins it again, so
    /// a commit fails.
    pub rejoin_on_poll: bool,
}

/// A consumer.
pub struct Consumer {
    pub settings: ConsumerSettings,
    pub subscription: Subscription,
    /// The topics that the metadata requests name.
    pub metadata_topics: Vec<String>,
    /// The brokers that the client can dial.
    pub known_brokers: SortedSet<i32>,
    /// The partitions that the consumer owns.
    pub assigned: Assignment,
    /// The ownership of each owned partition. It changes when the consumer
    /// loses a partition and gets it again.
    pub ownership_ids: SortedMap<TopicPartition, u64>,
    pub commit_identity: CommitIdentity,
    /// The paused partitions, with their ownership at the pause.
    pub paused_partitions: SortedMap<TopicPartition, u64>,
    /// The owned partitions whose assign callback did not run yet.
    pub assigned_callback_pending: SortedSet<TopicPartition>,
    /// The next offset of each partition, or a placeholder for a reset.
    pub next_offsets: SortedMap<TopicPartition, i64>,
    pub positions: SortedMap<TopicPartition, PartitionPosition>,
    /// The readable end of each partition, from its last fetch.
    pub end_offsets: SortedMap<TopicPartition, i64>,
    pub topic_ids: SortedMap<String, Uuid>,
    pub fetch_buffer: FetchBuffer,
    pub fetches: Fetches,
    /// An error that the group work left for the next `poll`.
    pub poll_error: Option<ConsumerError>,
    /// A wakeup that no call took yet.
    pub wakeup_pending: bool,
    /// A join of the group is under way or asked for.
    pub rebalance_pending: bool,
}

impl Consumer {
    /// Whether the offset after each buffered record fits its type, and each
    /// record is buffered under its partition.
    pub open spec fn wf(self) -> bool {
        self.fetch_buffer.in_range() && all_belong(self.fetch_buffer@)
    }

    /// A consumer that owns no partition.
    pub fn new(settings: ConsumerSettings, subscription: Subscription) -> (r: Self)
        ensures
            r.wf(),
            r.settings == settings,
            r.subscription == subscription,
            r.metadata_topics@.len() == 0,
            r.known_brokers@ == Set::<i32>::empty(),
            r.assigned.listed() == Seq::<(Seq<char>, i32)>::empty(),
            r.assigned@ == Set::<(Seq<char>, i32)>::empty(),
            r.ownership_ids@ == Map::<(Seq<char>, i32), u64>::empty(),
            r.commit_identity.generation == -1,
            r.commit_identity.member_id@.len() == 0,
            !r.commit_identity.rejoin_on_poll,
            r.paused_partitions@ == Map::<(Seq<char>, i32), u64>::empty(),
            r.assigned_callback_pending@ == Set::<(Seq<char>, i32)>::empty(),
            r.next_offsets@ == Map::<(Seq<char>, i32), i64>::empty(),
            r.positions@ == Map::<(Seq<char>, i32), PartitionPosition>::empty(),
            r.end_offsets@ == Map::<(Seq<char>, i32), i64>::empty(),
            r.topic_ids@ == Map::<Seq<char>, Uuid>::empty(),
            r.fetch_buffer@.len() == 0,
            r.fetches.sessions@ == Map::<i32, FetchSession>::empty(),
            r.fetches.in_flight@ == Map::<i32, InFlightFetch>::empty(),
            r.fetches.ready@.len() == 0,
            r.fetches.preferred_read_replicas@ == Map::<(Seq<char>, i32), (i32, Nanos)>::empty(),
            r.poll_error is None,
            !r.wakeup_pending,
            !r.rebalance_pending,
    {
        Consumer {
            settings,
            subscription,
            metadata_topics: Vec::new(),
            known_brokers: SortedSet::new(),
            assigned: Assignment::new(),
            ownership_ids: SortedMap::new(),
            commit_identity: CommitIdentity {
                generation: -1,
                member_id: String::new(),
                rejoin_on_poll: false,
            },
            paused_partitions: SortedMap::new(),
            assigned_callback_pending: SortedSet::new(),
            next_offsets: SortedMap::new(),
            positions: SortedMap::new(),
            end_offsets: SortedMap::new(),
            topic_ids: SortedMap::new(),
            fetch_buffer: FetchBuffer::new(),
            fetches: Fetches::new(),
            poll_error: None,
            wakeup_pending: false,
            rebalance_pending: false,
        }
    }
}

/// The message of a call that needs group membership.
pub const NO_GROUP_MEMBERSHIP: &'static str = "the consumer was built without a subscription, so it has no group membership; build it with subscribe or subscribe_pattern to join a group";

impl Consumer {
    /// Whether the consumer has a group.
    pub open spec fn has_group(self) -> bool {
        self.settings.group_id@.len() > 0
    }

    /// Whether the error is the one of a call that needs a group membership.
    pub open spec fn membership_error(self, e: ConsumerError) -> bool {
        if !self.has_group() {
            e is InvalidGroupId
        } else {
            e matches ConsumerError::IllegalState(m) && m@ == NO_GROUP_MEMBERSHIP@
        }
    }

    /// An error for a consumer without a group id.
    pub fn require_group_id(&self) -> (r: Result<(), ConsumerError>)
        ensures
            r is Ok <==> self.has_group(),
            r matches Err(e) ==> e is InvalidGroupId,
    {
        if self.settings.group_id.as_str().is_empty() {
            Err(ConsumerError::InvalidGroupId)
        } else {
            Ok(())
        }
    }

    /// An error for a consumer without a group id, and for one that is not a
    /// member of its group.
    pub fn require_group_membership(&self) -> (r: Result<(), ConsumerError>)
        ensures
            r is Ok <==> self.has_group() && self.settings.group_membership,
            r matches Err(e) ==> self.membership_error(e),
    {
        if self.settings.group_id.as_str().is_empty() {
            return Err(ConsumerError::InvalidGroupId);
        }
        if !self.settings.group_membership {
            return Err(ConsumerError::IllegalState(NO_GROUP_MEMBERSHIP.to_owned()));
        }
        Ok(())
    }
}

} // verus!
