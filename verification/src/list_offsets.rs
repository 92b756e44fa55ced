//! Offsets by timestamp: requests, answers and the resets that need them.
use vstd::prelude::*;

use crate::collections::{lemma_take_next, SortedMap, SortedSet};
use crate::config::{AutoOffsetReset, IsolationLevel};
use crate::error::{ClientError, ConsumerError};
use crate::grouping::{listed_for, no_empty_broker, push_for, ByBroker};
use crate::position::{position_of, position_or_default, PartitionPosition, PositionMap};
use crate::wire::{copy_key, LeaderEpoch, PartitionKey, TopicPartition};

verus! {

/// The broker id that means "leader unknown: use the bootstrap connection".
pub const BOOTSTRAP_LEADER: i32 = -1;

/// The fetch offset of a partition without a position.
pub const UNKNOWN_FETCH_OFFSET: i64 = -1;

/// The leader id of a partition without a known leader.
pub const UNKNOWN_LEADER_ID: i32 = -1;

/// The fetched offset is not in the log.
pub const OFFSET_OUT_OF_RANGE: i16 = 1;

/// The offset that stands for "the broker did not answer this".
pub const UNKNOWN_OFFSET: i64 = -1;

/// The timestamp that asks for the log end offset.
pub const LATEST_TIMESTAMP: i64 = -1;

/// The timestamp that asks for the log start offset.
pub const EARLIEST_TIMESTAMP: i64 = -2;

/// Placeholder for a reset by the reset policy: the log end, or the offset for
/// the timestamp of a duration.
pub const LATEST_SENTINEL: i64 = i64::MAX;

/// Placeholder for a reset to the log start.
pub const BEGINNING_SENTINEL: i64 = i64::MAX - 1;

/// Placeholder for a reset to the log end.
pub const END_SENTINEL: i64 = i64::MAX - 2;

/// Placeholder for the committed offset of a manually assigned partition, or a
/// reset when the group has none.
pub const COMMITTED_SENTINEL: i64 = i64::MAX - 3;

/// The first version of a list offsets request that carries the isolation
/// level.
pub const READ_COMMITTED_LIST_OFFSETS_MIN_VERSION: i16 = 2;

/// The first version of a list offsets request that carries a timestamp.
pub const TIMESTAMP_LIST_OFFSETS_MIN_VERSION: i16 = 1;

/// Whether an offset is a placeholder that no position update resolved yet.
pub open spec fn reset_sentinel(next_offset: i64) -> bool {
    next_offset >= COMMITTED_SENTINEL
}

/// Whether `next_offset` is a placeholder that a position update did not
/// resolve yet. Such a partition has no valid position, so the consumer does
/// not fetch or commit it.
pub fn is_reset_sentinel(next_offset: i64) -> (r: bool)
    ensures
        r == reset_sentinel(next_offset),
{
    next_offset >= COMMITTED_SENTINEL
}

/// The broker to ask for a partition: its leader when the client can dial it,
/// the bootstrap connection otherwise.
pub open spec fn leader_or_bootstrap(leader_id: i32, knows_leader: bool) -> i32 {
    if leader_id >= 0 && knows_leader {
        leader_id
    } else {
        BOOTSTRAP_LEADER
    }
}

/// The broker to ask for a partition.
pub fn fetch_leader_id(leader_id: i32, knows_leader: bool) -> (r: i32)
    ensures
        r == leader_or_bootstrap(leader_id, knows_leader),
{
    if leader_id >= 0 && knows_leader {
        leader_id
    } else {
        BOOTSTRAP_LEADER
    }
}

/// Whether a request goes to the bootstrap connection.
pub fn should_use_bootstrap_leader(leader: i32) -> (r: bool)
    ensures
        r == (leader == BOOTSTRAP_LEADER),
{
    leader == BOOTSTRAP_LEADER
}

/// The next offset of a partition, -1 where it has none.
pub open spec fn offset_or_unknown(offsets: Map<PartitionKey, i64>, key: PartitionKey) -> i64 {
    if offsets.contains_key(key) {
        offsets[key]
    } else {
        UNKNOWN_FETCH_OFFSET
    }
}

/// The next offset of a partition, -1 where it has none.
pub fn fetch_offset_or_unknown(
    offsets: &SortedMap<TopicPartition, i64>,
    key: &TopicPartition,
) -> (r: i64)
    ensures
        r == offset_or_unknown(offsets@, key@),
{
    match offsets.get(key) {
        Some(offset) => *offset,
        None => UNKNOWN_FETCH_OFFSET,
    }
}

/// Errors after which the connection is dropped and the request tried again.
pub open spec fn transient_transport_error(e: ClientError) -> bool {
    e is Connect || e is Tls || e is Sasl || e is Disconnected || e is Timeout || e is Io
}

/// Whether the connection is dropped and the request tried again.
pub fn is_transient_transport_error(e: &ClientError) -> (r: bool)
    ensures
        r == transient_transport_error(*e),
{
    matches!(
        e,
        ClientError::Connect(_)
            | ClientError::Tls(_)
            | ClientError::Sasl(_, _)
            | ClientError::Disconnected
            | ClientError::Timeout(_)
            | ClientError::Io(_)
    )
}

/// Whether a `poll` ends without an error and the next one tries again.
pub open spec fn transient_poll_error(e: ConsumerError) -> bool {
    match e {
        ConsumerError::Client(client) => transient_transport_error(client),
        _ => false,
    }
}

/// Whether a `poll` ends without an error and the next one tries again.
pub fn is_transient_poll_error(e: &ConsumerError) -> (r: bool)
    ensures
        r == transient_poll_error(*e),
{
    match e {
        ConsumerError::Client(client) => is_transient_transport_error(client),
        _ => false,
    }
}

/// The timestamp that resolves a reset by the reset policy at time `now_ms`:
/// the time that lies the duration back, at the earliest the first time there
/// is, or the log end.
pub open spec fn policy_timestamp(policy: AutoOffsetReset, now_ms: int) -> int {
    match policy {
        AutoOffsetReset::ByDuration(duration) => {
            let back = if duration > i64::MAX {
                i64::MAX as int
            } else {
                duration as int
            };
            if now_ms - back < i64::MIN {
                i64::MIN as int
            } else {
                now_ms - back
            }
        },
        _ => LATEST_TIMESTAMP as int,
    }
}

/// The timestamp that resolves a [`LATEST_SENTINEL`] for the reset policy at
/// `now_ms`.
pub fn reset_timestamp(policy: AutoOffsetReset, now_ms: i64) -> (r: i64)
    ensures
        r == policy_timestamp(policy, now_ms as int),
{
    match policy {
        AutoOffsetReset::ByDuration(duration) => {
            let back: i64 = if duration > i64::MAX as u128 {
                i64::MAX
            } else {
                duration as i64
            };
            let time: i128 = now_ms as i128 - back as i128;
            if time < i64::MIN as i128 {
                i64::MIN
            } else {
                time as i64
            }
        },
        AutoOffsetReset::Earliest | AutoOffsetReset::Latest | AutoOffsetReset::NoReset => {
            LATEST_TIMESTAMP
        },
    }
}

/// Milliseconds since the Unix epoch from the time since it, if the clock
/// stands after it.
pub fn unix_ms(since_epoch: Option<u128>) -> (r: i64)
    ensures
        r == match since_epoch {
            Some(ms) => if ms > i64::MAX {
                i64::MAX
            } else {
                ms as i64
            },
            None => 0,
        },
{
    match since_epoch {
        Some(ms) => if ms > i64::MAX as u128 {
            i64::MAX
        } else {
            ms as i64
        },
        None => 0,
    }
}

/// A partition of a list offsets request.
#[derive(Clone, Copy, Debug, PartialEq, Eq, Structural)]
pub struct ListOffsetsPartition {
    pub partition_index: i32,
    pub current_leader_epoch: i32,
    pub timestamp: i64,
}

/// A topic of a list offsets request.
#[derive(Debug, PartialEq, Eq)]
pub struct ListOffsetsTopic {
    pub name: String,
    pub partitions: Vec<ListOffsetsPartition>,
}

/// A request for offsets by timestamp.
#[derive(Debug, PartialEq, Eq)]
pub struct ListOffsetsRequest {
    pub replica_id: i32,
    pub isolation_level: i8,
    pub topics: Vec<ListOffsetsTopic>,
    pub timeout_ms: i32,
}

/// A list offsets request with the lowest version that carries its fields. The
/// send fails when the broker has only older ones.
#[derive(Debug, PartialEq, Eq)]
pub struct VersionedListOffsets {
    pub min_version: i16,
    pub request: ListOffsetsRequest,
}

/// The lowest version of a list offsets request: the one with the isolation
/// level for `read_committed`, the one with a timestamp for a search by time.
pub open spec fn list_offsets_min_version(
    isolation_level: IsolationLevel,
    require_timestamps: bool,
) -> i16 {
    if isolation_level == IsolationLevel::ReadCommitted {
        READ_COMMITTED_LIST_OFFSETS_MIN_VERSION
    } else if require_timestamps {
        TIMESTAMP_LIST_OFFSETS_MIN_VERSION
    } else {
        0
    }
}

/// Fixes the lowest version of a list offsets request.
pub fn with_min_version(
    request: ListOffsetsRequest,
    isolation_level: IsolationLevel,
    require_timestamps: bool,
) -> (r: VersionedListOffsets)
    ensures
        r.request == request,
        r.min_version == list_offsets_min_version(isolation_level, require_timestamps),
{
    let min_version: i16 = match isolation_level {
        IsolationLevel::ReadCommitted => READ_COMMITTED_LIST_OFFSETS_MIN_VERSION,
        IsolationLevel::ReadUncommitted => if require_timestamps {
            TIMESTAMP_LIST_OFFSETS_MIN_VERSION
        } else {
            0
        },
    };
    VersionedListOffsets { min_version, request }
}

/// A partition and its leader epoch.
pub type ListOffsetsSpec = (i32, LeaderEpoch);

/// The partitions of one broker, by topic.
pub type ListOffsetsSpecs = SortedMap<String, Vec<ListOffsetsSpec>>;

/// The request rows of partitions that share a timestamp.
pub open spec fn spec_rows(specs: Seq<ListOffsetsSpec>, timestamp: i64) -> Seq<ListOffsetsPartition> {
    Seq::new(
        specs.len(),
        |i: int|
            ListOffsetsPartition {
                partition_index: specs[i].0,
                current_leader_epoch: specs[i].1.0,
                timestamp,
            },
    )
}

/// Build the list offsets request for one broker.
///
/// It carries the isolation level of the consumer, so a `read_committed`
/// consumer that asks for the latest offset gets the last stable offset.
pub fn build_offsets_request(
    by_topic: &ListOffsetsSpecs,
    timestamp: i64,
    isolation_level: IsolationLevel,
) -> (r: ListOffsetsRequest)
    ensures
        r.replica_id == -1,
        r.isolation_level == isolation_level.code(),
        r.timeout_ms == 0,
        by_topic.keys_listed(),
        r.topics@.len() == by_topic.keys().len(),
        forall|i: int|
            0 <= i < r.topics@.len() ==> {
                &&& (#[trigger] r.topics@[i]).name@ == by_topic.keys()[i]
                &&& r.topics@[i].partitions@ == spec_rows(
                    by_topic@[by_topic.keys()[i]]@,
                    timestamp,
                )
            },
{
    let n = by_topic.len();
    let mut topics: Vec<ListOffsetsTopic> = Vec::new();
    let mut i: usize = 0;
    while i < n
        invariant
            n == by_topic.keys().len(),
            i <= n,
            topics.len() == i,
            forall|j: int|
                0 <= j < i ==> {
                    &&& (#[trigger] topics@[j]).name@ == by_topic.keys()[j]
                    &&& topics@[j].partitions@ == spec_rows(
                        by_topic@[by_topic.keys()[j]]@,
                        timestamp,
                    )
                },
        decreases n - i,
    {
        let specs = by_topic.value_at(i);
        let mut partitions: Vec<ListOffsetsPartition> = Vec::new();
        let mut j: usize = 0;
        while j < specs.len()
            invariant
                j <= specs.len(),
                partitions@ =~= spec_rows(specs@, timestamp).take(j as int),
            decreases specs.len() - j,
        {
            partitions.push(
                ListOffsetsPartition {
                    partition_index: specs[j].0,
                    current_leader_epoch: specs[j].1.get(),
                    timestamp,
                },
            );
            j = j + 1;
        }
        assert(partitions@ =~= spec_rows(specs@, timestamp));
        topics.push(ListOffsetsTopic { name: by_topic.key_at(i).clone(), partitions });
        i = i + 1;
    }
    ListOffsetsRequest {
        replica_id: -1,
        isolation_level: isolation_level.wire(),
        topics,
        timeout_ms: 0,
    }
}

/// The views of a list of partition keys.
pub open spec fn key_views(keys: Seq<TopicPartition>) -> Seq<PartitionKey> {
    Seq::new(keys.len(), |i: int| keys[i]@)
}

/// The broker that gets the requests for a partition.
pub open spec fn leader_of(
    positions: PositionMap,
    known: Set<i32>,
    key: PartitionKey,
) -> i32 {
    let leader = position_of(positions, key).leader_id;
    leader_or_bootstrap(leader, known.contains(leader))
}

/// The partitions of `keys` that a broker is asked for on a topic, in order.
pub open spec fn offsets_specs(
    keys: Seq<PartitionKey>,
    positions: PositionMap,
    known: Set<i32>,
    broker: i32,
    topic: Seq<char>,
) -> Seq<ListOffsetsSpec>
    decreases keys.len(),
{
    if keys.len() == 0 {
        seq![]
    } else {
        let before = offsets_specs(keys.drop_last(), positions, known, broker, topic);
        let key = keys.last();
        if leader_of(positions, known, key) == broker && key.0 == topic {
            before.push((key.1, position_of(positions, key).leader_epoch))
        } else {
            before
        }
    }
}

/// Group partitions by the broker that gets the list offsets request.
///
/// A partition goes to its leader when the leader is known and the client can
/// dial it, and to the bootstrap connection otherwise. Each partition carries
/// the leader epoch from its position.
pub fn group_list_offsets(
    keys: &Vec<TopicPartition>,
    positions: &SortedMap<TopicPartition, PartitionPosition>,
    known: &SortedSet<i32>,
) -> (r: ByBroker<ListOffsetsSpec>)
    ensures
        no_empty_broker(r@),
        forall|b: i32, t: Seq<char>| #[trigger]
            listed_for(r@, b, t) == offsets_specs(key_views(keys@), positions@, known@, b, t),
{
    let mut grouped: ByBroker<ListOffsetsSpec> = SortedMap::new();
    let ghost all = key_views(keys@);
    let mut i: usize = 0;
    while i < keys.len()
        invariant
            i <= keys.len(),
            all == key_views(keys@),
            no_empty_broker(grouped@),
            forall|b: i32, t: Seq<char>| #[trigger]
                listed_for(grouped@, b, t) == offsets_specs(
                    all.take(i as int),
                    positions@,
                    known@,
                    b,
                    t,
                ),
        decreases keys.len() - i,
    {
        let key = &keys[i];
        let position = position_or_default(positions, key);
        let leader = fetch_leader_id(position.leader_id, known.contains(&position.leader_id));
        let ghost before = grouped@;
        push_for(&mut grouped, leader, &key.0, (key.1, position.leader_epoch));
        proof {
            assert(all.take(i + 1).drop_last() =~= all.take(i as int));
            assert(all.take(i + 1).last() == key@);
            assert forall|b: i32, t: Seq<char>| #[trigger]
                listed_for(grouped@, b, t) == offsets_specs(
                    all.take(i + 1),
                    positions@,
                    known@,
                    b,
                    t,
                ) by {
                assert(listed_for(before, b, t) == offsets_specs(
                    all.take(i as int),
                    positions@,
                    known@,
                    b,
                    t,
                ));
            }
        }
        i = i + 1;
    }
    assert(all.take(i as int) =~= all);
    grouped
}

/// What the consumer does with one row of a list offsets answer.
#[derive(Clone, Copy, Debug, PartialEq, Eq, Structural)]
pub enum ListOffsetsRowAction {
    /// Set the position to the offset.
    Position(i64),
    /// Fail the poll.
    Unauthorized,
    /// Keep the position and try again after a metadata refresh.
    Retry,
}

/// The topic refused the principal.
pub const TOPIC_AUTHORIZATION_FAILED: i16 = 29;

/// The action for a row: a position only for a row without an error and with
/// an offset, a failure for an unauthorized topic, a retry for any other row.
pub open spec fn row_action(error_code: i16, offset: i64) -> ListOffsetsRowAction {
    if error_code == 0 && offset != UNKNOWN_OFFSET {
        ListOffsetsRowAction::Position(offset)
    } else if error_code == TOPIC_AUTHORIZATION_FAILED {
        ListOffsetsRowAction::Unauthorized
    } else {
        ListOffsetsRowAction::Retry
    }
}

/// Map a row of a list offsets answer to its action.
pub fn classify_list_offsets_row(error_code: i16, offset: i64) -> (r: ListOffsetsRowAction)
    ensures
        r == row_action(error_code, offset),
{
    if error_code == 0 && offset != UNKNOWN_OFFSET {
        ListOffsetsRowAction::Position(offset)
    } else if error_code == TOPIC_AUTHORIZATION_FAILED {
        ListOffsetsRowAction::Unauthorized
    } else {
        ListOffsetsRowAction::Retry
    }
}

/// A row of a list offsets answer.
#[derive(Clone, Copy, Debug, PartialEq, Eq, Structural)]
pub struct ListOffsetsPartitionResponse {
    pub partition_index: i32,
    pub error_code: i16,
    pub timestamp: i64,
    pub offset: i64,
    pub leader_epoch: i32,
}

/// A topic of a list offsets answer.
#[derive(Debug, PartialEq, Eq)]
pub struct ListOffsetsTopicResponse {
    pub name: String,
    pub partitions: Vec<ListOffsetsPartitionResponse>,
}

/// The answer to a list offsets request.
#[derive(Debug, PartialEq, Eq)]
pub struct ListOffsetsResponse {
    pub topics: Vec<ListOffsetsTopicResponse>,
}

/// A row with the name of its topic.
pub type ListOffsetsRow = (Seq<char>, ListOffsetsPartitionResponse);

/// A row with the name of its topic, as an executable value.
pub type OwnedListOffsetsRow = (String, ListOffsetsPartitionResponse);

/// The models of rows.
pub open spec fn offsets_row_views(rows: Seq<OwnedListOffsetsRow>) -> Seq<ListOffsetsRow> {
    Seq::new(rows.len(), |i: int| (rows[i].0@, rows[i].1))
}

/// The rows of a topic.
pub open spec fn offsets_topic_rows(topic: ListOffsetsTopicResponse) -> Seq<ListOffsetsRow> {
    Seq::new(topic.partitions@.len(), |i: int| (topic.name@, topic.partitions@[i]))
}

/// The rows of topics, in order.
pub open spec fn offsets_rows(topics: Seq<ListOffsetsTopicResponse>) -> Seq<ListOffsetsRow>
    decreases topics.len(),
{
    if topics.len() == 0 {
        seq![]
    } else {
        offsets_rows(topics.drop_last()) + offsets_topic_rows(topics.last())
    }
}

impl ListOffsetsResponse {
    /// The rows of the answer, in order.
    pub open spec fn row_models(self) -> Seq<ListOffsetsRow> {
        offsets_rows(self.topics@)
    }

    /// The rows of the answer, in order.
    pub fn rows(&self) -> (r: Vec<OwnedListOffsetsRow>)
        ensures
            offsets_row_views(r@) == self.row_models(),
    {
        let mut rows: Vec<OwnedListOffsetsRow> = Vec::new();
        let mut i: usize = 0;
        assert(offsets_row_views(rows@) =~= seq![]);
        while i < self.topics.len()
            invariant
                i <= self.topics.len(),
                offsets_row_views(rows@) == offsets_rows(self.topics@.take(i as int)),
            decreases self.topics.len() - i,
        {
            let topic = &self.topics[i];
            let ghost had = offsets_row_views(rows@);
            let ghost of_topic = offsets_topic_rows(*topic);
            let mut j: usize = 0;
            assert(had + of_topic.take(0) =~= had);
            while j < topic.partitions.len()
                invariant
                    j <= topic.partitions.len(),
                    of_topic == offsets_topic_rows(*topic),
                    offsets_row_views(rows@) == had + of_topic.take(j as int),
                decreases topic.partitions.len() - j,
            {
                let row = (topic.name.clone(), topic.partitions[j]);
                let ghost before = rows@;
                rows.push(row);
                proof {
                    assert(offsets_row_views(rows@) =~= offsets_row_views(before).push(
                        (row.0@, row.1),
                    ));
                    assert(of_topic.take(j + 1) =~= of_topic.take(j as int).push(
                        of_topic[j as int],
                    ));
                    assert(offsets_row_views(rows@) =~= had + of_topic.take(j + 1));
                }
                j = j + 1;
            }
            proof {
                assert(of_topic.take(j as int) =~= of_topic);
                assert(self.topics@.take(i + 1).drop_last() =~= self.topics@.take(i as int));
            }
            i = i + 1;
        }
        assert(self.topics@.take(i as int) =~= self.topics@);
        rows
    }
}

/// The key of a row.
pub open spec fn row_key(row: ListOffsetsRow) -> PartitionKey {
    (row.0, row.1.partition_index)
}

/// The positions that rows give; a later row replaces an earlier one.
pub open spec fn rows_offsets(rows: Seq<ListOffsetsRow>) -> Map<PartitionKey, i64>
    decreases rows.len(),
{
    if rows.len() == 0 {
        Map::empty()
    } else {
        let before = rows_offsets(rows.drop_last());
        match row_action(rows.last().1.error_code, rows.last().1.offset) {
            ListOffsetsRowAction::Position(offset) => before.insert(row_key(rows.last()), offset),
            _ => before,
        }
    }
}

/// The topics of the unauthorized rows.
pub open spec fn rows_unauthorized(rows: Seq<ListOffsetsRow>) -> Set<Seq<char>>
    decreases rows.len(),
{
    if rows.len() == 0 {
        Set::empty()
    } else {
        let before = rows_unauthorized(rows.drop_last());
        match row_action(rows.last().1.error_code, rows.last().1.offset) {
            ListOffsetsRowAction::Unauthorized => before.insert(rows.last().0),
            _ => before,
        }
    }
}

/// The positions that answers give: those of each answer without an
/// unauthorized row, where a later answer replaces an earlier one.
pub open spec fn answers_offsets(answers: Seq<ListOffsetsResponse>) -> Map<PartitionKey, i64>
    decreases answers.len(),
{
    if answers.len() == 0 {
        Map::empty()
    } else {
        let before = answers_offsets(answers.drop_last());
        let rows = answers.last().row_models();
        if rows_unauthorized(rows) == Set::<Seq<char>>::empty() {
            before.union_prefer_right(rows_offsets(rows))
        } else {
            before
        }
    }
}

/// The unauthorized topics of answers.
pub open spec fn answers_unauthorized(answers: Seq<ListOffsetsResponse>) -> Set<Seq<char>>
    decreases answers.len(),
{
    if answers.len() == 0 {
        Set::empty()
    } else {
        answers_unauthorized(answers.drop_last()).union(
            rows_unauthorized(answers.last().row_models()),
        )
    }
}

/// What the consumer takes from the answers for a set of partitions.
#[derive(Debug, PartialEq, Eq)]
pub struct ListOffsetsResult {
    /// The offset for each requested partition that got one.
    pub offsets: SortedMap<TopicPartition, i64>,
    /// A requested partition got no offset and must be tried again after a
    /// metadata refresh.
    pub retry: bool,
    /// The topics that refused the principal.
    pub unauthorized: SortedSet<String>,
}

/// Copies the entries of `from` over those of `into`.
fn extend_offsets(into: &mut SortedMap<TopicPartition, i64>, from: SortedMap<TopicPartition, i64>)
    ensures
        final(into)@ == old(into)@.union_prefer_right(from@),
{
    let ghost before = into@;
    let ghost keys = from.keys();
    let n = from.len();
    let mut i: usize = 0;
    while i < n
        invariant
            n == keys.len(),
            keys == from.keys(),
            from.keys_listed(),
            i <= n,
            forall|k: PartitionKey| #[trigger]
                into@.contains_key(k) <==> before.contains_key(k) || keys.take(i as int).contains(k),
            forall|k: PartitionKey| #[trigger]
                into@.contains_key(k) ==> into@[k] == if keys.take(i as int).contains(k) {
                    from@[k]
                } else {
                    before[k]
                },
        decreases n - i,
    {
        into.insert(copy_key(from.key_at(i)), *from.value_at(i));
        proof {
            lemma_take_next(keys, i as int);
        }
        i = i + 1;
    }
    proof {
        assert(keys.take(n as int) =~= keys);
        assert(into@ =~= before.union_prefer_right(from@));
    }
}

/// Adds the items of `from` to `into`.
pub(crate) fn extend_topics(into: &mut SortedSet<String>, from: &SortedSet<String>)
    ensures
        final(into)@ == old(into)@.union(from@),
{
    let ghost before = into@;
    let ghost items = from.items();
    let n = from.len();
    let mut i: usize = 0;
    while i < n
        invariant
            n == items.len(),
            items == from.items(),
            from.items_listed(),
            i <= n,
            forall|t: Seq<char>| #[trigger] into@.contains(t) ==> before.contains(t) || from@.contains(t),
            forall|t: Seq<char>| #[trigger] before.contains(t) ==> into@.contains(t),
            forall|j: int| 0 <= j < i ==> into@.contains(#[trigger] items[j]),
        decreases n - i,
    {
        into.insert(from.at(i).clone());
        i = i + 1;
    }
    proof {
        assert forall|t: Seq<char>| #[trigger] from@.contains(t) implies into@.contains(t) by {
            assert(items.contains(t));
            let j = choose|j: int| 0 <= j < items.len() && items[j] == t;
            assert(into@.contains(items[j]));
        }
        assert(into@ =~= before.union(from@));
    }
}

/// Whether a list of keys holds a key.
pub fn has_key(keys: &Vec<TopicPartition>, key: &TopicPartition) -> (r: bool)
    ensures
        r == key_views(keys@).contains(key@),
{
    let mut i: usize = 0;
    while i < keys.len()
        invariant
            i <= keys.len(),
            forall|j: int| 0 <= j < i ==> key_views(keys@)[j] != key@,
        decreases keys.len() - i,
    {
        if keys[i].0 == key.0 && keys[i].1 == key.1 {
            assert(key_views(keys@)[i as int] == key@);
            return true;
        }
        i = i + 1;
    }
    false
}

impl ListOffsetsResult {
    /// Whether a requested partition has no offset.
    pub open spec fn misses(self, requested: Seq<PartitionKey>) -> bool {
        exists|i: int|
            0 <= i < requested.len() && !self.offsets@.contains_key(#[trigger] requested[i])
    }

    /// Collect the answers for `requested`.
    ///
    /// A requested partition that no answer names is retried. An answer with
    /// an unauthorized row gives no offsets.
    pub fn collect(requested: &Vec<TopicPartition>, answers: &Vec<ListOffsetsResponse>) -> (r: Self)
        ensures
            r.offsets@ == answers_offsets(answers@).restrict(key_views(requested@).to_set()),
            r.unauthorized@ == answers_unauthorized(answers@),
            r.retry == r.misses(key_views(requested@)),
    {
        let mut offsets: SortedMap<TopicPartition, i64> = SortedMap::new();
        let mut unauthorized: SortedSet<String> = SortedSet::new();
        let mut i: usize = 0;
        while i < answers.len()
            invariant
                i <= answers.len(),
                offsets@ == answers_offsets(answers@.take(i as int)),
                unauthorized@ == answers_unauthorized(answers@.take(i as int)),
            decreases answers.len() - i,
        {
            let rows = answers[i].rows();
            let ghost models = answers@[i as int].row_models();
            let mut answer_offsets: SortedMap<TopicPartition, i64> = SortedMap::new();
            let mut refused: SortedSet<String> = SortedSet::new();
            let mut j: usize = 0;
            while j < rows.len()
                invariant
                    j <= rows.len(),
                    models == offsets_row_views(rows@),
                    answer_offsets@ == rows_offsets(models.take(j as int)),
                    refused@ == rows_unauthorized(models.take(j as int)),
                decreases rows.len() - j,
            {
                proof {
                    assert(models.take(j + 1).drop_last() =~= models.take(j as int));
                    assert(models.take(j + 1).last() == (rows@[j as int].0@, rows@[j as int].1));
                }
                let row = &rows[j];
                match classify_list_offsets_row(row.1.error_code, row.1.offset) {
                    ListOffsetsRowAction::Position(offset) => {
                        answer_offsets.insert((row.0.clone(), row.1.partition_index), offset);
                    },
                    ListOffsetsRowAction::Unauthorized => {
                        refused.insert(row.0.clone());
                    },
                    ListOffsetsRowAction::Retry => {},
                }
                j = j + 1;
            }
            proof {
                assert(models.take(j as int) =~= models);
                assert(answers@.take(i + 1).drop_last() =~= answers@.take(i as int));
            }
            let ghost had = unauthorized@;
            if refused.is_empty() {
                extend_offsets(&mut offsets, answer_offsets);
                assert(had.union(refused@) =~= had);
            } else {
                extend_topics(&mut unauthorized, &refused);
            }
            i = i + 1;
        }
        assert(answers@.take(i as int) =~= answers@);
        let ghost wanted = key_views(requested@);
        let is_requested = |k: &TopicPartition, v: &i64| -> (b: bool)
            ensures
                b == key_views(requested@).contains(k@),
            { has_key(requested, k) };
        offsets.retain(is_requested, Ghost(|k: PartitionKey, v: i64| wanted.contains(k)));
        assert(offsets@ =~= answers_offsets(answers@).restrict(wanted.to_set()));
        let mut retry = false;
        let mut k: usize = 0;
        while k < requested.len()
            invariant
                k <= requested.len(),
                wanted == key_views(requested@),
                retry == exists|j: int|
                    0 <= j < k && !offsets@.contains_key(#[trigger] wanted[j]),
            decreases requested.len() - k,
        {
            assert(wanted[k as int] == requested@[k as int]@);
            if !offsets.contains_key(&requested[k]) {
                retry = true;
            }
            k = k + 1;
        }
        ListOffsetsResult { offsets, retry, unauthorized }
    }

    /// An error when a topic refused the principal.
    pub fn authorization(&self) -> (r: Result<(), ConsumerError>)
        ensures
            r is Ok <==> self.unauthorized@ == Set::<Seq<char>>::empty(),
            r matches Err(e) ==> (e matches ConsumerError::TopicAuthorizationFailed(topics)
                && topics@ == self.unauthorized@ && topics.items() == self.unauthorized.items()),
    {
        if self.unauthorized.is_empty() {
            Ok(())
        } else {
            Err(ConsumerError::TopicAuthorizationFailed(self.unauthorized.clone()))
        }
    }
}

/// A partition with the offset that it was fetched from.
pub type FetchedFrom = (TopicPartition, i64);

/// The models of partitions with their offsets.
pub open spec fn fetched_views(list: Seq<FetchedFrom>) -> Seq<(PartitionKey, i64)> {
    Seq::new(list.len(), |i: int| (list[i].0@, list[i].1))
}

/// The partitions of `list` that have a log start, with it, in order.
pub open spec fn log_start_positions(
    list: Seq<(PartitionKey, i64)>,
    log_starts: Map<PartitionKey, i64>,
) -> Seq<(PartitionKey, i64)>
    decreases list.len(),
{
    if list.len() == 0 {
        seq![]
    } else {
        let before = log_start_positions(list.drop_last(), log_starts);
        let key = list.last().0;
        if log_starts.contains_key(key) {
            before.push((key, log_starts[key]))
        } else {
            before
        }
    }
}

/// The position to write for each out-of-range partition.
///
/// A partition that no answer names keeps the position it has: its next fetch
/// is out of range again, and that asks for its log start again.
pub fn out_of_range_positions(
    out_of_range: &Vec<FetchedFrom>,
    log_starts: &SortedMap<TopicPartition, i64>,
) -> (r: Vec<FetchedFrom>)
    ensures
        fetched_views(r@) == log_start_positions(fetched_views(out_of_range@), log_starts@),
{
    let mut r: Vec<FetchedFrom> = Vec::new();
    let ghost all = fetched_views(out_of_range@);
    let mut i: usize = 0;
    assert(fetched_views(r@) =~= seq![]);
    while i < out_of_range.len()
        invariant
            i <= out_of_range.len(),
            all == fetched_views(out_of_range@),
            fetched_views(r@) == log_start_positions(all.take(i as int), log_starts@),
        decreases out_of_range.len() - i,
    {
        proof {
            assert(all.take(i + 1).drop_last() =~= all.take(i as int));
            assert(all.take(i + 1).last() == all[i as int]);
        }
        let key = &out_of_range[i].0;
        if let Some(start) = log_starts.get(key) {
            let ghost had = r@;
            let entry = (copy_key(key), *start);
            r.push(entry);
            assert(fetched_views(r@) =~= fetched_views(had).push((entry.0@, entry.1)));
        }
        i = i + 1;
    }
    assert(all.take(i as int) =~= all);
    r
}

/// The truncation that a consumer without a reset policy reports: the first
/// out-of-range partition, the offset it was fetched from, and its log start,
/// or -1 when the broker gave none.
pub fn out_of_range_truncation(
    out_of_range: &Vec<FetchedFrom>,
    log_starts: &SortedMap<TopicPartition, i64>,
) -> (r: Option<ConsumerError>)
    ensures
        r is None <==> out_of_range@.len() == 0,
        r matches Some(e) ==> (e matches ConsumerError::LogTruncation {
            topic,
            partition,
            fetch_offset,
            safe_offset,
        } && {
            let first = out_of_range@[0];
            &&& topic@ == first.0.0@
            &&& partition == first.0.1
            &&& fetch_offset == first.1
            &&& safe_offset == offset_or_unknown(log_starts@, first.0@)
        }),
{
    if out_of_range.len() == 0 {
        return None;
    }
    let first = &out_of_range[0];
    Some(
        ConsumerError::LogTruncation {
            topic: first.0.0.clone(),
            partition: first.0.1,
            fetch_offset: first.1,
            safe_offset: fetch_offset_or_unknown(log_starts, &first.0),
        },
    )
}

/// The keys of `keys` with a value in `offsets`, in order.
pub open spec fn keys_with(
    keys: Seq<PartitionKey>,
    offsets: Map<PartitionKey, i64>,
    value: i64,
) -> Seq<PartitionKey>
    decreases keys.len(),
{
    if keys.len() == 0 {
        seq![]
    } else {
        let before = keys_with(keys.drop_last(), offsets, value);
        if offsets[keys.last()] == value {
            before.push(keys.last())
        } else {
            before
        }
    }
}

pub proof fn lemma_keys_with(keys: Seq<PartitionKey>, offsets: Map<PartitionKey, i64>, value: i64)
    requires
        keys.no_duplicates(),
    ensures
        forall|k: PartitionKey| #[trigger]
            keys_with(keys, offsets, value).contains(k) <==> keys.contains(k) && offsets[k]
                == value,
        keys_with(keys, offsets, value).no_duplicates(),
    decreases keys.len(),
{
    let all = keys_with(keys, offsets, value);
    if keys.len() > 0 {
        let front = keys.drop_last();
        let before = keys_with(front, offsets, value);
        lemma_keys_with(front, offsets, value);
        assert forall|k: PartitionKey| #[trigger] all.contains(k) <==> keys.contains(k)
            && offsets[k] == value by {
            if keys.contains(k) && offsets[k] == value {
                let j = choose|j: int| 0 <= j < keys.len() && keys[j] == k;
                if j < front.len() {
                    assert(front[j] == k);
                    assert(before.contains(k));
                    let i = choose|i: int| 0 <= i < before.len() && before[i] == k;
                    assert(all[i] == k);
                } else {
                    assert(all[all.len() - 1] == k);
                }
            }
            if all.contains(k) {
                let i = choose|i: int| 0 <= i < all.len() && all[i] == k;
                if i < before.len() {
                    assert(before[i] == k);
                    assert(before.contains(k));
                    let j = choose|j: int| 0 <= j < front.len() && front[j] == k;
                    assert(keys[j] == k);
                } else {
                    assert(keys[keys.len() - 1] == k);
                }
            }
        }
        assert(!front.contains(keys.last())) by {
            if front.contains(keys.last()) {
                let j = choose|j: int| 0 <= j < front.len() && front[j] == keys.last();
                assert(keys[j] == keys[keys.len() - 1]);
            }
        }
        assert(!before.contains(keys.last()));
    }
}

/// The partitions whose next offset is exactly `sentinel`, each once.
pub fn keys_at(offsets: &SortedMap<TopicPartition, i64>, sentinel: i64) -> (r: Vec<TopicPartition>)
    ensures
        key_views(r@) == keys_with(offsets.keys(), offsets@, sentinel),
        forall|k: PartitionKey| #[trigger]
            key_views(r@).contains(k) <==> offsets@.contains_key(k) && offsets@[k] == sentinel,
        key_views(r@).no_duplicates(),
{
    let mut r: Vec<TopicPartition> = Vec::new();
    let ghost keys = offsets.keys();
    let n = offsets.len();
    let mut i: usize = 0;
    assert(key_views(r@) =~= seq![]);
    while i < n
        invariant
            n == keys.len(),
            keys == offsets.keys(),
            offsets.keys_listed(),
            i <= n,
            key_views(r@) == keys_with(keys.take(i as int), offsets@, sentinel),
        decreases n - i,
    {
        proof {
            assert(keys.take(i + 1).drop_last() =~= keys.take(i as int));
        }
        if *offsets.value_at(i) == sentinel {
            let ghost had = r@;
            let key = copy_key(offsets.key_at(i));
            r.push(key);
            assert(key_views(r@) =~= key_views(had).push(key@));
        }
        i = i + 1;
    }
    proof {
        assert(keys.take(i as int) =~= keys);
        lemma_keys_with(keys, offsets@, sentinel);
        assert forall|k: PartitionKey| #[trigger] key_views(r@).contains(k) <==> offsets@
            .contains_key(k) && offsets@[k] == sentinel by {
            assert(keys.contains(k) <==> offsets@.contains_key(k));
        }
    }
    r
}

} // verus!
