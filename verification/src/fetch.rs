//! Fetch requests and fetch answers.
use vstd::prelude::*;

use crate::collections::{ascending, MapKey, SortedMap};
use crate::config::IsolationLevel;
use crate::fetch_session::{Forgotten, SessionPartition, SessionRequest};
use crate::records::{AbortedTransaction, RecordsPayload};
use crate::text::{lemma_text_before_transitive, text_before};
use crate::wire::{LeaderEpoch, PartitionKey, TopicPartition, Uuid};

verus! {

/// What `poll` does with one partition row of a fetch answer.
#[derive(Clone, Copy, Debug, PartialEq, Eq, Structural)]
pub enum FetchPartitionAction {
    /// Decode the records.
    Records,
    /// Resolve a new position with the reset policy.
    ResetOffset,
    /// Adopt the leader hint, or refresh metadata.
    Reroute,
    /// Validate the position against fresher metadata.
    RevalidateEpoch,
    /// Skip the row and refresh metadata. The next poll fetches the partition
    /// again.
    RefreshMetadata,
    /// Fail the poll with the code.
    Fail(i16),
}

/// The action for the error code of a row.
pub open spec fn partition_action(error_code: i16) -> FetchPartitionAction {
    if error_code == 0 {
        FetchPartitionAction::Records
    } else if error_code == 1 {
        FetchPartitionAction::ResetOffset
    } else if error_code == 6 {
        FetchPartitionAction::Reroute
    } else if error_code == 74 || error_code == 75 {
        FetchPartitionAction::RevalidateEpoch
    } else if error_code == 3 || error_code == 9 || error_code == 56 || error_code == 78
        || error_code == 100 || error_code == 103 {
        FetchPartitionAction::RefreshMetadata
    } else {
        FetchPartitionAction::Fail(error_code)
    }
}

/// Map the error code of a fetch row to its action.
///
/// The codes of an unknown topic or topic id ask for a metadata update and
/// raise no error, and so do the errors of a follower that serves a fetch.
pub fn classify_fetch_partition_error(error_code: i16) -> (r: FetchPartitionAction)
    ensures
        r == partition_action(error_code),
{
    match error_code {
        0 => FetchPartitionAction::Records,
        // OFFSET_OUT_OF_RANGE
        1 => FetchPartitionAction::ResetOffset,
        // NOT_LEADER_OR_FOLLOWER
        6 => FetchPartitionAction::Reroute,
        // FENCED_LEADER_EPOCH, UNKNOWN_LEADER_EPOCH
        74 | 75 => FetchPartitionAction::RevalidateEpoch,
        // UNKNOWN_TOPIC_OR_PARTITION, REPLICA_NOT_AVAILABLE,
        // KAFKA_STORAGE_ERROR, OFFSET_NOT_AVAILABLE, UNKNOWN_TOPIC_ID,
        // INCONSISTENT_TOPIC_ID
        3 | 9 | 56 | 78 | 100 | 103 => FetchPartitionAction::RefreshMetadata,
        other => FetchPartitionAction::Fail(other),
    }
}

/// The end of a partition that a consumer can read: the last stable offset
/// under `read_committed`, the high watermark otherwise.
pub open spec fn readable_end(isolation: IsolationLevel, high_watermark: i64, last_stable: i64) -> i64 {
    if isolation == IsolationLevel::ReadCommitted {
        last_stable
    } else {
        high_watermark
    }
}

/// The end of a partition that a consumer can read.
pub fn readable_end_offset(
    isolation: IsolationLevel,
    high_watermark: i64,
    last_stable_offset: i64,
) -> (r: i64)
    ensures
        r == readable_end(isolation, high_watermark, last_stable_offset),
{
    match isolation {
        IsolationLevel::ReadCommitted => last_stable_offset,
        IsolationLevel::ReadUncommitted => high_watermark,
    }
}

/// Records the readable end of a partition.
pub fn record_readable_end(
    ends: &mut SortedMap<TopicPartition, i64>,
    key: TopicPartition,
    isolation: IsolationLevel,
    high_watermark: i64,
    last_stable_offset: i64,
)
    ensures
        final(ends)@ == old(ends)@.insert(
            key@,
            readable_end(isolation, high_watermark, last_stable_offset),
        ),
{
    ends.insert(key, readable_end_offset(isolation, high_watermark, last_stable_offset));
}

/// The request fields of one partition: partition, fetch offset, epoch of the
/// current leader, epoch of the last fetched record.
pub type FetchSpec = (i32, i64, LeaderEpoch, LeaderEpoch);

/// The session fields of a partition to fetch.
pub open spec fn session_fields(
    topic_id: Uuid,
    spec: FetchSpec,
    partition_max: i32,
) -> SessionPartition {
    SessionPartition {
        topic_id,
        fetch_offset: spec.1,
        current_leader_epoch: spec.2.0,
        last_fetched_epoch: spec.3.0,
        partition_max_bytes: partition_max,
    }
}

/// The session fields of a partition to fetch.
pub fn session_partition(topic_id: Uuid, spec: FetchSpec, partition_max: i32) -> (r:
    SessionPartition)
    ensures
        r == session_fields(topic_id, spec, partition_max),
{
    SessionPartition {
        topic_id,
        fetch_offset: spec.1,
        current_leader_epoch: spec.2.get(),
        last_fetched_epoch: spec.3.get(),
        partition_max_bytes: partition_max,
    }
}

/// A partition of a fetch request.
#[derive(Clone, Copy, Debug, PartialEq, Eq, Structural)]
pub struct FetchPartition {
    pub partition: i32,
    pub current_leader_epoch: i32,
    pub fetch_offset: i64,
    pub last_fetched_epoch: i32,
    /// -1: only a follower reports its log start.
    pub log_start_offset: i64,
    pub partition_max_bytes: i32,
    /// Zero: only a follower has a directory.
    pub replica_directory_id: Uuid,
    /// The largest offset: only a follower reports its high watermark.
    pub high_watermark: i64,
}

/// The state of a follower that fetches; -1 for a consumer.
#[derive(Clone, Copy, Debug, PartialEq, Eq, Structural)]
pub struct ReplicaState {
    pub replica_id: i32,
    pub replica_epoch: i64,
}

/// A topic of a fetch request.
#[derive(Debug, PartialEq, Eq)]
pub struct FetchTopic {
    pub topic: String,
    pub topic_id: Uuid,
    pub partitions: Vec<FetchPartition>,
}

/// The partitions of a topic that a session forgets.
#[derive(Debug, PartialEq, Eq)]
pub struct ForgottenTopic {
    pub topic: String,
    pub topic_id: Uuid,
    pub partitions: Vec<i32>,
}

/// A fetch request.
#[derive(Debug, PartialEq, Eq)]
pub struct FetchRequest {
    /// -1: the request of a consumer.
    pub replica_id: i32,
    pub max_wait_ms: i32,
    pub min_bytes: i32,
    pub max_bytes: i32,
    pub isolation_level: i8,
    pub session_id: i32,
    pub session_epoch: i32,
    pub topics: Vec<FetchTopic>,
    pub forgotten_topics_data: Vec<ForgottenTopic>,
    pub rack_id: String,
    /// Only a follower names its cluster.
    pub cluster_id: Option<String>,
    pub replica_state: ReplicaState,
}

/// A partition of a request with its fields.
pub type FetchRow = (PartitionKey, FetchPartition);

/// The request fields of a partition of a session.
pub open spec fn fetch_fields(partition: i32, data: SessionPartition) -> FetchPartition {
    FetchPartition {
        partition,
        current_leader_epoch: data.current_leader_epoch,
        fetch_offset: data.fetch_offset,
        last_fetched_epoch: data.last_fetched_epoch,
        log_start_offset: -1i64,
        partition_max_bytes: data.partition_max_bytes,
        replica_directory_id: Uuid(0),
        high_watermark: i64::MAX,
    }
}

/// The rows of a session's partitions.
pub open spec fn session_rows(entries: Seq<(PartitionKey, SessionPartition)>) -> Seq<FetchRow> {
    Seq::new(entries.len(), |i: int| (entries[i].0, fetch_fields(entries[i].0.1, entries[i].1)))
}

/// The rows of a topic.
pub open spec fn fetch_topic_rows(topic: FetchTopic) -> Seq<FetchRow> {
    Seq::new(
        topic.partitions@.len(),
        |i: int| ((topic.topic@, topic.partitions@[i].partition), topic.partitions@[i]),
    )
}

/// The rows of topics, in order.
pub open spec fn fetch_rows(topics: Seq<FetchTopic>) -> Seq<FetchRow>
    decreases topics.len(),
{
    if topics.len() == 0 {
        seq![]
    } else {
        fetch_rows(topics.drop_last()) + fetch_topic_rows(topics.last())
    }
}

/// The names of topics, in order.
pub open spec fn fetch_names(topics: Seq<FetchTopic>) -> Seq<Seq<char>> {
    Seq::new(topics.len(), |i: int| topics[i].topic@)
}

/// The partitions that a topic forgets.
pub open spec fn forgotten_topic_rows(topic: ForgottenTopic) -> Seq<PartitionKey> {
    Seq::new(topic.partitions@.len(), |i: int| (topic.topic@, topic.partitions@[i]))
}

/// The partitions that topics forget, in order.
pub open spec fn forgotten_rows(topics: Seq<ForgottenTopic>) -> Seq<PartitionKey>
    decreases topics.len(),
{
    if topics.len() == 0 {
        seq![]
    } else {
        forgotten_rows(topics.drop_last()) + forgotten_topic_rows(topics.last())
    }
}

/// The number of rows in the topics before topic `i`.
pub open spec fn rows_before(topics: Seq<FetchTopic>, i: int) -> int {
    fetch_rows(topics.take(i)).len() as int
}

/// Whether the topics hold the rows of `entries` in order, a topic once with
/// the id of its first partition.
pub open spec fn topics_hold(
    topics: Seq<FetchTopic>,
    entries: Seq<(PartitionKey, SessionPartition)>,
) -> bool {
    &&& fetch_rows(topics) == session_rows(entries)
    &&& ascending::<String>(fetch_names(topics))
    &&& forall|i: int|
        0 <= i < topics.len() ==> {
            &&& (#[trigger] topics[i]).partitions@.len() > 0
            &&& topics[i].topic_id == entries[rows_before(topics, i)].1.topic_id
        }
}

/// Whether a fetch request asks for the records of a partition.
pub open spec fn asks_for(request: FetchRequest, key: PartitionKey) -> bool {
    exists|t: int, p: int|
        0 <= t < request.topics@.len() && 0 <= p < request.topics@[t].partitions@.len()
            && request.topics@[t].topic@ == key.0 && (
        #[trigger] request.topics@[t].partitions@[p]).partition == key.1
}

/// A partition of a topic has a row.
pub proof fn lemma_fetch_row(topics: Seq<FetchTopic>, t: int, p: int)
    requires
        0 <= t < topics.len(),
        0 <= p < topics[t].partitions@.len(),
    ensures
        exists|i: int|
            0 <= i < fetch_rows(topics).len() && (#[trigger] fetch_rows(topics)[i]).0 == (
                topics[t].topic@,
                topics[t].partitions@[p].partition,
            ),
    decreases topics.len(),
{
    let front = topics.drop_last();
    let rows = fetch_rows(topics);
    let before = fetch_rows(front);
    if t == topics.len() - 1 {
        let own = fetch_topic_rows(topics.last());
        assert(rows[before.len() + p] == own[p]);
    } else {
        assert(front[t] == topics[t]);
        lemma_fetch_row(front, t, p);
        let i = choose|i: int|
            0 <= i < before.len() && (#[trigger] before[i]).0 == (
                front[t].topic@,
                front[t].partitions@[p].partition,
            );
        assert(rows[i] == before[i]);
    }
}

fn fetch_topics(partitions: &SortedMap<TopicPartition, SessionPartition>) -> (r: Vec<FetchTopic>)
    ensures
        partitions.keys_listed(),
        topics_hold(r@, partitions.entries()),
{
    let n = partitions.len();
    let mut topics: Vec<FetchTopic> = Vec::new();
    let ghost keys = partitions.keys();
    let ghost entries = partitions.entries();
    let ghost rows = session_rows(entries);
    let mut i: usize = 0;
    assert(rows.take(0) =~= seq![]);
    while i < n
        invariant
            n == keys.len(),
            keys == partitions.keys(),
            entries == partitions.entries(),
            rows == session_rows(entries),
            partitions.keys_listed(),
            i <= n,
            fetch_rows(topics@) == rows.take(i as int),
            ascending::<String>(fetch_names(topics@)),
            i == 0 <==> topics@.len() == 0,
            i > 0 ==> topics@.last().topic@ == keys[i - 1].0,
            forall|a: int|
                0 <= a < topics@.len() ==> {
                    &&& (#[trigger] topics@[a]).partitions@.len() > 0
                    &&& topics@[a].topic_id == entries[rows_before(topics@, a)].1.topic_id
                },
        decreases n - i,
    {
        let key = partitions.key_at(i);
        let data = *partitions.value_at(i);
        let row = FetchPartition {
            partition: key.1,
            current_leader_epoch: data.current_leader_epoch,
            fetch_offset: data.fetch_offset,
            last_fetched_epoch: data.last_fetched_epoch,
            log_start_offset: -1,
            partition_max_bytes: data.partition_max_bytes,
            replica_directory_id: Uuid(0),
            high_watermark: i64::MAX,
        };
        let ghost had = topics@;
        let ghost next = rows.take(i + 1);
        assert(next =~= rows.take(i as int).push(rows[i as int]));
        if let Some(mut last) = topics.pop() {
            if last.topic == key.0 {
                let ghost last_had = last;
                last.partitions.push(row);
                topics.push(last);
                proof {
                    assert(topics@.drop_last() =~= had.drop_last());
                    assert(fetch_topic_rows(topics@.last()) =~= fetch_topic_rows(last_had).push(
                        rows[i as int],
                    ));
                    assert(fetch_rows(topics@) =~= next);
                    assert(fetch_names(topics@) =~= fetch_names(had));
                    assert forall|a: int| 0 <= a < topics@.len() implies {
                        &&& (#[trigger] topics@[a]).partitions@.len() > 0
                        &&& topics@[a].topic_id == entries[rows_before(topics@, a)].1.topic_id
                    } by {
                        assert(topics@.take(a) =~= had.take(a));
                        assert(had[a].topic_id == topics@[a].topic_id);
                    }
                }
                i = i + 1;
                continue ;
            }
            topics.push(last);
            assert(topics@ =~= had);
        }
        let mut list: Vec<FetchPartition> = Vec::new();
        list.push(row);
        topics.push(
            FetchTopic { topic: key.0.clone(), topic_id: data.topic_id, partitions: list },
        );
        proof {
            assert(topics@.drop_last() =~= had);
            assert(fetch_topic_rows(topics@.last()) =~= seq![rows[i as int]]);
            assert(fetch_rows(topics@) =~= next);
            let names = fetch_names(topics@);
            assert(names =~= fetch_names(had).push(keys[i as int].0));
            if i > 0 {
                assert(<TopicPartition as MapKey>::before(keys[i - 1], keys[i as int]));
                assert forall|a: int| 0 <= a < had.len() implies text_before(
                    #[trigger] names[a],
                    keys[i as int].0,
                ) by {
                    if a < had.len() - 1 {
                        assert(fetch_names(had)[a] == names[a]);
                        assert(<String as MapKey>::before(
                            fetch_names(had)[a],
                            fetch_names(had)[had.len() - 1],
                        ));
                        lemma_text_before_transitive(names[a], keys[i - 1].0, keys[i as int].0);
                    }
                }
            }
            assert forall|a: int, b: int| 0 <= a < b < names.len() implies <String as MapKey>::before(
                #[trigger] names[a],
                #[trigger] names[b],
            ) by {
                if b < had.len() {
                    assert(fetch_names(had)[a] == names[a]);
                    assert(fetch_names(had)[b] == names[b]);
                }
            }
            assert forall|a: int| 0 <= a < topics@.len() implies {
                &&& (#[trigger] topics@[a]).partitions@.len() > 0
                &&& topics@[a].topic_id == entries[rows_before(topics@, a)].1.topic_id
            } by {
                assert(topics@.take(a) =~= had.take(a));
                if a < had.len() {
                    assert(had[a].topic_id == topics@[a].topic_id);
                } else {
                    assert(had.take(a) =~= had);
                    assert(rows_before(topics@, a) == i);
                }
            }
        }
        i = i + 1;
    }
    assert(rows.take(n as int) =~= rows);
    topics
}

/// The keys of forgotten partitions.
pub open spec fn forgotten_keys(forgotten: Seq<Forgotten>) -> Seq<PartitionKey> {
    Seq::new(forgotten.len(), |i: int| forgotten[i].0)
}

/// Whether the topics forget the partitions of `forgotten` in order, with
/// neighbours of one topic in one entry that has the id of its first one.
pub open spec fn topics_forget(topics: Seq<ForgottenTopic>, forgotten: Seq<Forgotten>) -> bool {
    &&& forgotten_rows(topics) == forgotten_keys(forgotten)
    &&& forall|i: int|
        0 <= i < topics.len() ==> {
            &&& (#[trigger] topics[i]).partitions@.len() > 0
            &&& topics[i].topic_id == forgotten[forgotten_rows(topics.take(i)).len() as int].1
        }
    &&& forall|i: int|
        0 < i < topics.len() ==> (#[trigger] topics[i]).topic@ != topics[i - 1].topic@
}

fn forgotten_topics(session: &SessionRequest) -> (r: Vec<ForgottenTopic>)
    ensures
        topics_forget(r@, session.forgets()),
{
    let mut topics: Vec<ForgottenTopic> = Vec::new();
    let ghost forgotten = session.forgets();
    let ghost rows = forgotten_keys(forgotten);
    let mut i: usize = 0;
    assert(rows.take(0) =~= seq![]);
    while i < session.forgotten.len()
        invariant
            forgotten == session.forgets(),
            rows == forgotten_keys(forgotten),
            i <= session.forgotten@.len(),
            forgotten_rows(topics@) == rows.take(i as int),
            forall|a: int|
                0 <= a < topics@.len() ==> {
                    &&& (#[trigger] topics@[a]).partitions@.len() > 0
                    &&& topics@[a].topic_id == forgotten[forgotten_rows(
                        topics@.take(a),
                    ).len() as int].1
                },
            forall|a: int|
                0 < a < topics@.len() ==> (#[trigger] topics@[a]).topic@ != topics@[a - 1].topic@,
        decreases session.forgotten.len() - i,
    {
        let entry = &session.forgotten[i];
        let ghost had = topics@;
        let ghost next = rows.take(i + 1);
        proof {
            assert(rows[i as int] == forgotten[i as int].0);
            assert(forgotten[i as int] == (entry.0@, entry.1));
            assert(next =~= rows.take(i as int).push(rows[i as int]));
        }
        if let Some(mut last) = topics.pop() {
            if last.topic == entry.0.0 {
                let ghost last_had = last;
                last.partitions.push(entry.0.1);
                topics.push(last);
                proof {
                    assert(topics@.drop_last() =~= had.drop_last());
                    assert(forgotten_topic_rows(topics@.last()) =~= forgotten_topic_rows(
                        last_had,
                    ).push(rows[i as int]));
                    assert(forgotten_rows(topics@) =~= next);
                    assert forall|a: int| 0 <= a < topics@.len() implies {
                        &&& (#[trigger] topics@[a]).partitions@.len() > 0
                        &&& topics@[a].topic_id == forgotten[forgotten_rows(
                            topics@.take(a),
                        ).len() as int].1
                    } by {
                        assert(topics@.take(a) =~= had.take(a));
                        assert(had[a].topic_id == topics@[a].topic_id);
                    }
                    assert forall|a: int| 0 < a < topics@.len() implies (
                    #[trigger] topics@[a]).topic@ != topics@[a - 1].topic@ by {
                        assert(had[a].topic@ != had[a - 1].topic@);
                    }
                }
                i = i + 1;
                continue ;
            }
            topics.push(last);
            assert(topics@ =~= had);
        }
        let mut list: Vec<i32> = Vec::new();
        list.push(entry.0.1);
        topics.push(
            ForgottenTopic { topic: entry.0.0.clone(), topic_id: entry.1, partitions: list },
        );
        proof {
            assert(topics@.drop_last() =~= had);
            assert(forgotten_topic_rows(topics@.last()) =~= seq![rows[i as int]]);
            assert(forgotten_rows(topics@) =~= next);
            assert forall|a: int| 0 <= a < topics@.len() implies {
                &&& (#[trigger] topics@[a]).partitions@.len() > 0
                &&& topics@[a].topic_id == forgotten[forgotten_rows(topics@.take(a)).len() as int].1
            } by {
                assert(topics@.take(a) =~= had.take(a));
                if a < had.len() {
                    assert(had[a].topic_id == topics@[a].topic_id);
                } else {
                    assert(had.take(a) =~= had);
                }
            }
        }
        i = i + 1;
    }
    assert(rows.take(i as int) =~= rows);
    topics
}

/// Build the fetch request of one broker from its session request.
pub fn build_fetch_request(
    max_wait_ms: i32,
    isolation_level: IsolationLevel,
    min_bytes: i32,
    max_bytes: i32,
    rack_id: &str,
    session: SessionRequest,
) -> (r: FetchRequest)
    ensures
        r.replica_id == -1,
        r.max_wait_ms == max_wait_ms,
        r.min_bytes == min_bytes,
        r.max_bytes == max_bytes,
        r.isolation_level == isolation_level.code(),
        r.session_id == session.session_id,
        r.session_epoch == session.session_epoch,
        r.rack_id@ == rack_id@,
        r.cluster_id is None,
        r.replica_state.replica_id == -1,
        r.replica_state.replica_epoch == -1,
        session.partitions.keys_listed(),
        topics_hold(r.topics@, session.partitions.entries()),
        topics_forget(r.forgotten_topics_data@, session.forgets()),
{
    let topics = fetch_topics(&session.partitions);
    let forgotten_topics_data = forgotten_topics(&session);
    FetchRequest {
        replica_id: -1,
        max_wait_ms,
        min_bytes,
        max_bytes,
        isolation_level: isolation_level.wire(),
        session_id: session.session_id,
        session_epoch: session.session_epoch,
        topics,
        forgotten_topics_data,
        rack_id: rack_id.to_owned(),
        cluster_id: None,
        replica_state: ReplicaState { replica_id: -1, replica_epoch: -1 },
    }
}

/// Where a leader epoch ends in the leader's log. A negative end says that the
/// logs do not diverge.
#[derive(Clone, Copy, Debug, PartialEq, Eq, Structural)]
pub struct EpochEndOffset {
    pub epoch: i32,
    pub end_offset: i64,
}

/// The leader of a partition and its epoch. A negative leader says that the
/// broker gives no hint.
#[derive(Clone, Copy, Debug, PartialEq, Eq, Structural)]
pub struct LeaderIdAndEpoch {
    pub leader_id: i32,
    pub leader_epoch: i32,
}

/// The row of one partition in a fetch answer.
#[derive(Debug, PartialEq, Eq)]
pub struct PartitionData {
    pub partition_index: i32,
    pub error_code: i16,
    pub high_watermark: i64,
    pub last_stable_offset: i64,
    pub diverging_epoch: EpochEndOffset,
    pub current_leader: LeaderIdAndEpoch,
    pub aborted_transactions: Option<Vec<AbortedTransaction>>,
    pub preferred_read_replica: i32,
    pub records: Option<RecordsPayload>,
}

/// A topic of a fetch answer. From version 13 the name is empty, and the id
/// names the topic.
#[derive(Debug, PartialEq, Eq)]
pub struct FetchableTopicResponse {
    pub topic: String,
    pub topic_id: Uuid,
    pub partitions: Vec<PartitionData>,
}

/// The answer to a fetch request.
#[derive(Debug, PartialEq, Eq)]
pub struct FetchResponse {
    pub throttle_time_ms: i32,
    pub error_code: i16,
    pub session_id: i32,
    pub responses: Vec<FetchableTopicResponse>,
}

/// The name of a topic of an answer: its own name, or the name of its id.
pub open spec fn resolved_name(
    topic: FetchableTopicResponse,
    names: Map<u128, String>,
) -> Seq<char> {
    if topic.topic@.len() > 0 {
        topic.topic@
    } else if names.contains_key(topic.topic_id@) {
        names[topic.topic_id@]@
    } else {
        seq![]
    }
}

/// The name of a topic of an answer.
pub fn resolve_name(topic: &FetchableTopicResponse, names: &SortedMap<Uuid, String>) -> (r: String)
    ensures
        r@ == resolved_name(*topic, names@),
{
    if topic.topic.as_str().is_empty() {
        match names.get(&topic.topic_id) {
            Some(name) => name.clone(),
            None => String::new(),
        }
    } else {
        topic.topic.clone()
    }
}

/// A partition row with its key.
pub type PartitionRow = (PartitionKey, PartitionData);

/// The rows of a topic.
pub open spec fn answer_topic_rows(
    topic: FetchableTopicResponse,
    names: Map<u128, String>,
) -> Seq<PartitionRow> {
    Seq::new(
        topic.partitions@.len(),
        |i: int|
            (
                (resolved_name(topic, names), topic.partitions@[i].partition_index),
                topic.partitions@[i],
            ),
    )
}

/// The rows of topics, in order.
pub open spec fn answer_topics_rows(
    topics: Seq<FetchableTopicResponse>,
    names: Map<u128, String>,
) -> Seq<PartitionRow>
    decreases topics.len(),
{
    if topics.len() == 0 {
        seq![]
    } else {
        answer_topics_rows(topics.drop_last(), names) + answer_topic_rows(topics.last(), names)
    }
}

/// The rows of answers, in order.
pub open spec fn answer_rows(
    responses: Seq<FetchResponse>,
    names: Map<u128, String>,
) -> Seq<PartitionRow>
    decreases responses.len(),
{
    if responses.len() == 0 {
        seq![]
    } else {
        answer_rows(responses.drop_last(), names) + answer_topics_rows(
            responses.last().responses@,
            names,
        )
    }
}

} // verus!
