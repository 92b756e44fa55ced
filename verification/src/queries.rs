//! Queries of offsets and of topic metadata. The partitions of a query need not
//! be assigned to the consumer.
use vstd::prelude::*;

use crate::collections::{ascending, lemma_take_next, SortedMap, SortedSet};
use crate::config::IsolationLevel;
use crate::consumer::{Consumer, Nanos};
use crate::error::{partition_name, partition_text, ClientError, ConsumerError};
use crate::grouping::{listed, no_empty_list, push_at};
use crate::list_offsets::{
    is_transient_transport_error, key_views, list_offsets_min_version, offsets_row_views,
    transient_transport_error, with_min_version, ListOffsetsPartition, ListOffsetsRequest,
    ListOffsetsResponse, ListOffsetsRow, ListOffsetsTopic, VersionedListOffsets,
    EARLIEST_TIMESTAMP, LATEST_TIMESTAMP,
};
use crate::metadata::{
    topic_name, MetadataBroker, MetadataPartition, MetadataResponse, MetadataTopic,
};
use crate::offset_wire::{
    is_retriable_error, retriable_code, TOPIC_AUTHORIZATION_FAILED, UNKNOWN_TOPIC_OR_PARTITION,
};
use crate::partition_state::{no_current_assignment, not_assigned, valid_position_of};
use crate::poll_answers::unauthorized_error;
use crate::position_update::request_names;
use crate::query_laws::{
    ends_search, found_as_row, law_a_search_finds_the_offset_of_its_row,
    law_topic_infos_are_those_of_the_metadata, reports_topics,
};
use crate::retry::{backoff_after, next_backoff};
use crate::text::{concat3, decimal, decimal_text, digits, digits_text};
use crate::wire::{copy_key, PartitionKey, TopicPartition};

verus! {

/// The topic name is not valid.
pub const INVALID_TOPIC_EXCEPTION: i16 = 17;

/// The message format has no timestamps.
pub const UNSUPPORTED_FOR_MESSAGE_FORMAT: i16 = 43;

/// The offset of a timestamp search.
#[derive(Clone, Copy, Debug, PartialEq, Eq, Structural)]
pub struct OffsetAndTimestamp {
    /// The first offset whose timestamp is at or after the searched timestamp.
    pub offset: i64,
    /// The timestamp of the record at `offset`.
    pub timestamp: i64,
    /// The leader epoch of the record at `offset`, if the broker knows it.
    pub leader_epoch: Option<i32>,
}

/// A broker of the cluster.
#[derive(Debug, PartialEq, Eq)]
pub struct Node {
    pub id: i32,
    /// The host, or empty when the metadata names no broker with this id.
    pub host: String,
    /// The port, or -1 when the metadata names no broker with this id.
    pub port: i32,
    pub rack: Option<String>,
}

/// The metadata of one partition.
#[derive(Debug, PartialEq, Eq)]
pub struct PartitionInfo {
    pub topic: String,
    pub partition: i32,
    /// The leader, or `None` when the partition has no leader.
    pub leader: Option<Node>,
    pub replicas: Vec<Node>,
    pub in_sync_replicas: Vec<Node>,
    pub offline_replicas: Vec<Node>,
}

/// What a query takes from one row of a list offsets answer.
#[derive(Clone, Copy, Debug, PartialEq, Eq, Structural)]
pub enum QueryRow {
    Found(OffsetAndTimestamp),
    /// No offset, and no retry.
    NotFound,
    Unauthorized,
    Retry,
}

/// What a query takes from a row.
pub open spec fn query_row(
    error_code: i16,
    offset: i64,
    timestamp: i64,
    leader_epoch: i32,
) -> QueryRow {
    if error_code == 0 && offset != -1 {
        QueryRow::Found(
            OffsetAndTimestamp {
                offset,
                timestamp,
                leader_epoch: if leader_epoch >= 0 {
                    Some(leader_epoch)
                } else {
                    None
                },
            },
        )
    } else if error_code == 0 || error_code == UNSUPPORTED_FOR_MESSAGE_FORMAT {
        QueryRow::NotFound
    } else if error_code == TOPIC_AUTHORIZATION_FAILED {
        QueryRow::Unauthorized
    } else {
        QueryRow::Retry
    }
}

/// What a query takes from a row of a list offsets answer.
pub fn classify_query_row(error_code: i16, offset: i64, timestamp: i64, leader_epoch: i32) -> (r:
    QueryRow)
    ensures
        r == query_row(error_code, offset, timestamp, leader_epoch),
{
    if error_code == 0 && offset != -1 {
        QueryRow::Found(
            OffsetAndTimestamp {
                offset,
                timestamp,
                leader_epoch: if leader_epoch >= 0 {
                    Some(leader_epoch)
                } else {
                    None
                },
            },
        )
    } else if error_code == 0 || error_code == UNSUPPORTED_FOR_MESSAGE_FORMAT {
        QueryRow::NotFound
    } else if error_code == TOPIC_AUTHORIZATION_FAILED {
        QueryRow::Unauthorized
    } else {
        QueryRow::Retry
    }
}

/// The names of the topics of metadata with an error code, where they are in
/// `wanted` or `wanted` is `None`.
pub open spec fn named_with_code(
    topics: Seq<MetadataTopic>,
    code: i16,
    wanted: Option<Set<Seq<char>>>,
) -> Set<Seq<char>> {
    Set::new(
        |t: Seq<char>|
            exists|i: int|
                0 <= i < topics.len() && topic_name(#[trigger] topics[i]) == Some(t)
                    && topics[i].error_code == code && (wanted matches Some(w) ==> w.contains(t)),
    )
}

fn names_with_code(
    metadata: &MetadataResponse,
    code: i16,
    wanted: Option<&SortedSet<String>>,
) -> (r: SortedSet<String>)
    ensures
        r@ == named_with_code(
            metadata.topics@,
            code,
            match wanted {
                Some(w) => Some(w@),
                None => None,
            },
        ),
{
    let ghost filter = match wanted {
        Some(w) => Some(w@),
        None => None,
    };
    let mut r: SortedSet<String> = SortedSet::new();
    let mut i: usize = 0;
    while i < metadata.topics.len()
        invariant
            i <= metadata.topics@.len(),
            filter == (match wanted {
                Some(w) => Some(w@),
                None => None,
            }),
            forall|t: Seq<char>| #[trigger]
                r@.contains(t) <==> exists|j: int|
                    0 <= j < i && topic_name(#[trigger] metadata.topics@[j]) == Some(t)
                        && metadata.topics@[j].error_code == code && (filter matches Some(w)
                        ==> w.contains(t)),
        decreases metadata.topics.len() - i,
    {
        let topic = &metadata.topics[i];
        let ghost had = r@;
        if topic.error_code == code {
            if let Some(name) = &topic.name {
                let asked = match wanted {
                    Some(w) => w.contains(name),
                    None => true,
                };
                if asked {
                    r.insert(name.clone());
                }
            }
        }
        proof {
            assert forall|t: Seq<char>| #[trigger] r@.contains(t) <==> exists|j: int|
                0 <= j < i + 1 && topic_name(#[trigger] metadata.topics@[j]) == Some(t)
                    && metadata.topics@[j].error_code == code && (filter matches Some(w)
                    ==> w.contains(t)) by {
                if had.contains(t) {
                    let j = choose|j: int|
                        0 <= j < i && topic_name(#[trigger] metadata.topics@[j]) == Some(t)
                            && metadata.topics@[j].error_code == code && (filter matches Some(w)
                            ==> w.contains(t));
                    assert(topic_name(metadata.topics@[j]) == Some(t));
                } else if r@.contains(t) {
                    assert(topic_name(metadata.topics@[i as int]) == Some(t));
                }
            }
        }
        i = i + 1;
    }
    assert(r@ =~= named_with_code(metadata.topics@, code, filter));
    r
}

/// The first wanted topic with an invalid name.
pub open spec fn first_invalid(topics: Seq<MetadataTopic>, wanted: Set<Seq<char>>) -> Option<
    Seq<char>,
>
    decreases topics.len(),
{
    if topics.len() == 0 {
        None
    } else if first_invalid(topics.drop_last(), wanted) is Some {
        first_invalid(topics.drop_last(), wanted)
    } else {
        match topic_name(topics.last()) {
            Some(name) => if wanted.contains(name) && topics.last().error_code
                == INVALID_TOPIC_EXCEPTION {
                Some(name)
            } else {
                None
            },
            None => None,
        }
    }
}

proof fn lemma_first_invalid_stays(topics: Seq<MetadataTopic>, wanted: Set<Seq<char>>, n: int)
    requires
        0 <= n <= topics.len(),
        first_invalid(topics.take(n), wanted) is Some,
    ensures
        first_invalid(topics, wanted) == first_invalid(topics.take(n), wanted),
    decreases topics.len() - n,
{
    if n < topics.len() {
        assert(topics.take(n + 1).drop_last() =~= topics.take(n));
        lemma_first_invalid_stays(topics, wanted, n + 1);
    } else {
        assert(topics.take(n) =~= topics);
    }
}

/// Fail for a requested topic that the metadata does not authorize or names as
/// invalid. Other topic errors wait for the next round.
pub fn requested_topic_errors(metadata: &MetadataResponse, topics: &SortedSet<String>) -> (r: Result<
    (),
    ConsumerError,
>)
    ensures
        ({
            let refused = named_with_code(
                metadata.topics@,
                TOPIC_AUTHORIZATION_FAILED,
                Some(topics@),
            );
            if refused != Set::<Seq<char>>::empty() {
                r is Err && unauthorized_error(r->Err_0, refused)
            } else {
                match first_invalid(metadata.topics@, topics@) {
                    Some(name) => r matches Err(ConsumerError::InvalidTopic(t)) && t@ == name,
                    None => r is Ok,
                }
            }
        }),
{
    let refused = names_with_code(metadata, TOPIC_AUTHORIZATION_FAILED, Some(topics));
    if !refused.is_empty() {
        return Err(ConsumerError::TopicAuthorizationFailed(refused));
    }
    let mut i: usize = 0;
    while i < metadata.topics.len()
        invariant
            i <= metadata.topics@.len(),
            first_invalid(metadata.topics@.take(i as int), topics@) is None,
            named_with_code(
                metadata.topics@,
                TOPIC_AUTHORIZATION_FAILED,
                Some(topics@),
            ) == Set::<Seq<char>>::empty(),
        decreases metadata.topics.len() - i,
    {
        assert(metadata.topics@.take(i + 1).drop_last() =~= metadata.topics@.take(i as int));
        let topic = &metadata.topics[i];
        if topic.error_code == INVALID_TOPIC_EXCEPTION {
            if let Some(name) = &topic.name {
                if topics.contains(name) {
                    proof {
                        lemma_first_invalid_stays(metadata.topics@, topics@, i + 1);
                    }
                    return Err(ConsumerError::InvalidTopic(name.clone()));
                }
            }
        }
        i = i + 1;
    }
    assert(metadata.topics@.take(i as int) =~= metadata.topics@);
    Ok(())
}

/// A leader and its epoch.
pub type LeaderAndEpoch = (i32, i32);

/// The leaders of the partitions of a topic, written over `leaders`.
pub open spec fn topic_leaders(
    leaders: Map<PartitionKey, LeaderAndEpoch>,
    name: Seq<char>,
    partitions: Seq<MetadataPartition>,
) -> Map<PartitionKey, LeaderAndEpoch>
    decreases partitions.len(),
{
    if partitions.len() == 0 {
        leaders
    } else {
        let before = topic_leaders(leaders, name, partitions.drop_last());
        let p = partitions.last();
        if p.leader_id >= 0 {
            before.insert((name, p.partition_index), (p.leader_id, p.leader_epoch))
        } else {
            before
        }
    }
}

/// The leaders of the partitions of the topics without an error.
pub open spec fn leaders_of(topics: Seq<MetadataTopic>) -> Map<PartitionKey, LeaderAndEpoch>
    decreases topics.len(),
{
    if topics.len() == 0 {
        Map::empty()
    } else {
        let before = leaders_of(topics.drop_last());
        match topic_name(topics.last()) {
            Some(name) => if topics.last().error_code == 0 {
                topic_leaders(before, name, topics.last().partitions@)
            } else {
                before
            },
            None => before,
        }
    }
}

/// The leader id and epoch of each partition in the metadata that has a leader.
pub fn partition_leaders(metadata: &MetadataResponse) -> (r: SortedMap<TopicPartition, LeaderAndEpoch>)
    ensures
        r@ == leaders_of(metadata.topics@),
{
    let mut leaders: SortedMap<TopicPartition, LeaderAndEpoch> = SortedMap::new();
    let mut i: usize = 0;
    while i < metadata.topics.len()
        invariant
            i <= metadata.topics@.len(),
            leaders@ == leaders_of(metadata.topics@.take(i as int)),
        decreases metadata.topics.len() - i,
    {
        assert(metadata.topics@.take(i + 1).drop_last() =~= metadata.topics@.take(i as int));
        let topic = &metadata.topics[i];
        if topic.error_code == 0 {
            if let Some(name) = &topic.name {
                let ghost before = leaders@;
                let mut j: usize = 0;
                while j < topic.partitions.len()
                    invariant
                        j <= topic.partitions@.len(),
                        leaders@ == topic_leaders(
                            before,
                            name@,
                            topic.partitions@.take(j as int),
                        ),
                    decreases topic.partitions.len() - j,
                {
                    assert(topic.partitions@.take(j + 1).drop_last() =~= topic.partitions@.take(
                        j as int,
                    ));
                    let p = &topic.partitions[j];
                    if p.leader_id >= 0 {
                        leaders.insert(
                            (name.clone(), p.partition_index),
                            (p.leader_id, p.leader_epoch),
                        );
                    }
                    j = j + 1;
                }
                assert(topic.partitions@.take(j as int) =~= topic.partitions@);
            }
        }
        i = i + 1;
    }
    assert(metadata.topics@.take(i as int) =~= metadata.topics@);
    leaders
}

/// One partition of a query: its key, the epoch of its leader and the searched
/// timestamp.
pub type QueryPartition = (TopicPartition, i32, i64);

/// The model of a query partition.
pub type QueryKey = (PartitionKey, i32, i64);

/// The models of query partitions.
pub open spec fn query_views(list: Seq<QueryPartition>) -> Seq<QueryKey> {
    Seq::new(list.len(), |i: int| (list[i].0@, list[i].1, list[i].2))
}

/// The request rows of a topic in a query, in order.
pub open spec fn query_rows(list: Seq<QueryKey>, topic: Seq<char>) -> Seq<ListOffsetsPartition>
    decreases list.len(),
{
    if list.len() == 0 {
        seq![]
    } else {
        let before = query_rows(list.drop_last(), topic);
        if list.last().0.0 == topic {
            before.push(
                ListOffsetsPartition {
                    partition_index: list.last().0.1,
                    current_leader_epoch: list.last().1,
                    timestamp: list.last().2,
                },
            )
        } else {
            before
        }
    }
}

/// Whether a list offsets request carries a query.
pub open spec fn carries_query(
    request: ListOffsetsRequest,
    isolation: IsolationLevel,
    list: Seq<QueryKey>,
) -> bool {
    &&& request.replica_id == -1
    &&& request.isolation_level == isolation.code()
    &&& request.timeout_ms == 0
    &&& ascending::<String>(request_names(request.topics@))
    &&& forall|i: int|
        0 <= i < request.topics@.len() ==> {
            &&& (#[trigger] request.topics@[i]).partitions@.len() > 0
            &&& request.topics@[i].partitions@ == query_rows(list, request.topics@[i].name@)
        }
    &&& forall|t: Seq<char>| #[trigger]
        query_rows(list, t).len() > 0 ==> request_names(request.topics@).contains(t)
}

/// The list offsets request of a query.
pub fn query_request(partitions: &Vec<QueryPartition>, isolation_level: IsolationLevel) -> (r:
    ListOffsetsRequest)
    ensures
        carries_query(r, isolation_level, query_views(partitions@)),
{
    let mut by_topic: SortedMap<String, Vec<ListOffsetsPartition>> = SortedMap::new();
    let ghost all = query_views(partitions@);
    let mut i: usize = 0;
    while i < partitions.len()
        invariant
            i <= partitions@.len(),
            all == query_views(partitions@),
            no_empty_list(by_topic@),
            forall|t: Seq<char>| #[trigger]
                listed(by_topic@, t) == query_rows(all.take(i as int), t),
        decreases partitions.len() - i,
    {
        let entry = &partitions[i];
        let ghost before = by_topic@;
        push_at(
            &mut by_topic,
            entry.0.0.clone(),
            ListOffsetsPartition {
                partition_index: entry.0.1,
                current_leader_epoch: entry.1,
                timestamp: entry.2,
            },
        );
        proof {
            assert(all.take(i + 1).drop_last() =~= all.take(i as int));
            assert(all.take(i + 1).last() == all[i as int]);
            assert forall|t: Seq<char>| #[trigger] listed(by_topic@, t) == query_rows(
                all.take(i + 1),
                t,
            ) by {
                assert(listed(before, t) == query_rows(all.take(i as int), t));
            }
        }
        i = i + 1;
    }
    assert(all.take(i as int) =~= all);
    let ghost keys = by_topic.keys();
    let ghost map = by_topic@;
    let entries = by_topic.into_entries();
    let ghost listed_entries = entries@;
    let mut topics: Vec<ListOffsetsTopic> = Vec::new();
    for entry in iter: entries
        invariant
            iter.seq() == listed_entries,
            listed_entries.len() == keys.len(),
            forall|j: int|
                0 <= j < listed_entries.len() ==> {
                    &&& (#[trigger] listed_entries[j]).0@ == keys[j]
                    &&& listed_entries[j].1 == map[listed_entries[j].0@]
                },
            topics@.len() == iter.index(),
            forall|j: int|
                0 <= j < topics@.len() ==> {
                    &&& (#[trigger] topics@[j]).name@ == keys[j]
                    &&& topics@[j].partitions == map[keys[j]]
                },
    {
        assert(entry == listed_entries[iter.index() as int]);
        topics.push(ListOffsetsTopic { name: entry.0, partitions: entry.1 });
    }
    proof {
        assert(request_names(topics@) =~= keys);
        assert forall|j: int| 0 <= j < topics@.len() implies {
            &&& (#[trigger] topics@[j]).partitions@.len() > 0
            &&& topics@[j].partitions@ == query_rows(all, topics@[j].name@)
        } by {
            assert(keys.contains(keys[j]));
            assert(map.contains_key(keys[j]));
            assert(listed(map, keys[j]) == query_rows(all, keys[j]));
        }
        assert forall|t: Seq<char>| #[trigger] query_rows(all, t).len() > 0 implies request_names(
            topics@,
        ).contains(t) by {
            assert(listed(map, t) == query_rows(all, t));
            assert(map.contains_key(t));
            assert(keys.contains(t));
        }
    }
    ListOffsetsRequest {
        replica_id: -1,
        isolation_level: isolation_level.wire(),
        topics,
        timeout_ms: 0,
    }
}

/// The model of a [`Node`].
pub struct NodeModel {
    pub id: i32,
    pub host: Seq<char>,
    pub port: i32,
    pub rack: Option<Seq<char>>,
}

impl View for Node {
    type V = NodeModel;

    open spec fn view(&self) -> NodeModel {
        NodeModel {
            id: self.id,
            host: self.host@,
            port: self.port,
            rack: crate::group_wire::optional_text(self.rack),
        }
    }
}

/// The first broker with an id.
pub open spec fn broker_with(brokers: Seq<MetadataBroker>, id: i32) -> Option<MetadataBroker>
    decreases brokers.len(),
{
    if brokers.len() == 0 {
        None
    } else if broker_with(brokers.drop_last(), id) is Some {
        broker_with(brokers.drop_last(), id)
    } else if brokers.last().node_id == id {
        Some(brokers.last())
    } else {
        None
    }
}

/// The node with an id: a broker of the metadata, or one without an address.
pub open spec fn node_of(brokers: Seq<MetadataBroker>, id: i32) -> NodeModel {
    match broker_with(brokers, id) {
        Some(broker) => NodeModel {
            id,
            host: broker.host@,
            port: broker.port,
            rack: crate::group_wire::optional_text(broker.rack),
        },
        None => NodeModel { id, host: seq![], port: -1i32, rack: None },
    }
}

/// The nodes with ids.
pub open spec fn nodes_of(brokers: Seq<MetadataBroker>, ids: Seq<i32>) -> Seq<NodeModel> {
    Seq::new(ids.len(), |i: int| node_of(brokers, ids[i]))
}

/// The models of nodes.
pub open spec fn node_views(nodes: Seq<Node>) -> Seq<NodeModel> {
    Seq::new(nodes.len(), |i: int| nodes[i]@)
}

/// The model of a [`PartitionInfo`].
pub struct InfoModel {
    pub topic: Seq<char>,
    pub partition: i32,
    pub leader: Option<NodeModel>,
    pub replicas: Seq<NodeModel>,
    pub in_sync_replicas: Seq<NodeModel>,
    pub offline_replicas: Seq<NodeModel>,
}

impl View for PartitionInfo {
    type V = InfoModel;

    open spec fn view(&self) -> InfoModel {
        InfoModel {
            topic: self.topic@,
            partition: self.partition,
            leader: match self.leader {
                Some(node) => Some(node@),
                None => None,
            },
            replicas: node_views(self.replicas@),
            in_sync_replicas: node_views(self.in_sync_replicas@),
            offline_replicas: node_views(self.offline_replicas@),
        }
    }
}

/// The information on a partition of the metadata. It has a leader only when
/// the leader is a broker of the metadata.
pub open spec fn info_of(
    brokers: Seq<MetadataBroker>,
    name: Seq<char>,
    p: MetadataPartition,
) -> InfoModel {
    InfoModel {
        topic: name,
        partition: p.partition_index,
        leader: if broker_with(brokers, p.leader_id) is Some {
            Some(node_of(brokers, p.leader_id))
        } else {
            None
        },
        replicas: nodes_of(brokers, p.replica_nodes@),
        in_sync_replicas: nodes_of(brokers, p.isr_nodes@),
        offline_replicas: nodes_of(brokers, p.offline_replicas@),
    }
}

/// The information on the partitions of a topic.
pub open spec fn infos_of(
    brokers: Seq<MetadataBroker>,
    name: Seq<char>,
    partitions: Seq<MetadataPartition>,
) -> Seq<InfoModel> {
    Seq::new(partitions.len(), |i: int| info_of(brokers, name, partitions[i]))
}

/// The models of partition information.
pub open spec fn info_views(infos: Seq<PartitionInfo>) -> Seq<InfoModel> {
    Seq::new(infos.len(), |i: int| infos[i]@)
}

/// The partitions of the topics without an error.
pub open spec fn topic_infos(brokers: Seq<MetadataBroker>, topics: Seq<MetadataTopic>) -> Map<
    Seq<char>,
    Seq<InfoModel>,
>
    decreases topics.len(),
{
    if topics.len() == 0 {
        Map::empty()
    } else {
        let before = topic_infos(brokers, topics.drop_last());
        match topic_name(topics.last()) {
            Some(name) => if topics.last().error_code == 0 {
                before.insert(name, infos_of(brokers, name, topics.last().partitions@))
            } else {
                before
            },
            None => before,
        }
    }
}

/// Whether a map holds the partitions of topics.
pub open spec fn infos_as(
    map: Map<Seq<char>, Vec<PartitionInfo>>,
    m: Map<Seq<char>, Seq<InfoModel>>,
) -> bool {
    &&& map.dom() == m.dom()
    &&& forall|t: Seq<char>| #[trigger] m.contains_key(t) ==> info_views(map[t]@) == m[t]
}

/// The first topic error that is not retried: an invalid name, or another
/// code.
pub open spec fn first_topic_error(topics: Seq<MetadataTopic>) -> Option<(i16, Seq<char>)>
    decreases topics.len(),
{
    if topics.len() == 0 {
        None
    } else if first_topic_error(topics.drop_last()) is Some {
        first_topic_error(topics.drop_last())
    } else {
        let topic = topics.last();
        let code = topic.error_code;
        if code == 0 || code == UNKNOWN_TOPIC_OR_PARTITION || (code != INVALID_TOPIC_EXCEPTION
            && retriable_code(code)) {
            None
        } else {
            Some(
                (
                    code,
                    match topic_name(topic) {
                        Some(name) => name,
                        None => seq![],
                    },
                ),
            )
        }
    }
}

/// Whether a topic has an error that is retried.
pub open spec fn has_retriable_topic(topics: Seq<MetadataTopic>) -> bool {
    exists|i: int|
        0 <= i < topics.len() && (#[trigger] topics[i]).error_code != UNKNOWN_TOPIC_OR_PARTITION
            && retriable_code(topics[i].error_code)
}

fn find_node(metadata: &MetadataResponse, id: i32) -> (r: Option<usize>)
    ensures
        r is Some <==> broker_with(metadata.brokers@, id) is Some,
        r matches Some(i) ==> i < metadata.brokers@.len() && broker_with(metadata.brokers@, id)
            == Some(metadata.brokers@[i as int]),
{
    let ghost all = metadata.brokers@;
    let mut i: usize = 0;
    while i < metadata.brokers.len()
        invariant
            i <= all.len(),
            all == metadata.brokers@,
            broker_with(all.take(i as int), id) is None,
        decreases metadata.brokers.len() - i,
    {
        assert(all.take(i + 1).drop_last() =~= all.take(i as int));
        if metadata.brokers[i].node_id == id {
            proof {
                lemma_broker_with_stays(all, id, i + 1);
            }
            return Some(i);
        }
        i = i + 1;
    }
    assert(all.take(i as int) =~= all);
    None
}

proof fn lemma_broker_with_stays(brokers: Seq<MetadataBroker>, id: i32, n: int)
    requires
        0 <= n <= brokers.len(),
        broker_with(brokers.take(n), id) is Some,
    ensures
        broker_with(brokers, id) == broker_with(brokers.take(n), id),
    decreases brokers.len() - n,
{
    if n < brokers.len() {
        assert(brokers.take(n + 1).drop_last() =~= brokers.take(n));
        lemma_broker_with_stays(brokers, id, n + 1);
    } else {
        assert(brokers.take(n) =~= brokers);
    }
}

fn node(metadata: &MetadataResponse, id: i32) -> (r: Node)
    ensures
        r@ == node_of(metadata.brokers@, id),
{
    match find_node(metadata, id) {
        Some(i) => {
            let broker = &metadata.brokers[i];
            Node {
                id,
                host: broker.host.clone(),
                port: broker.port,
                rack: crate::group_wire::copy_optional_text(&broker.rack),
            }
        },
        None => {
            let r = Node { id, host: String::new(), port: -1, rack: None };
            assert(r.host@ =~= seq![]);
            r
        },
    }
}

fn nodes(metadata: &MetadataResponse, ids: &Vec<i32>) -> (r: Vec<Node>)
    ensures
        node_views(r@) == nodes_of(metadata.brokers@, ids@),
{
    let mut r: Vec<Node> = Vec::new();
    let mut i: usize = 0;
    while i < ids.len()
        invariant
            i <= ids@.len(),
            node_views(r@) =~= nodes_of(metadata.brokers@, ids@).take(i as int),
        decreases ids.len() - i,
    {
        let ghost had = r@;
        let next = node(metadata, ids[i]);
        r.push(next);
        assert(node_views(r@) =~= node_views(had).push(next@));
        i = i + 1;
    }
    assert(nodes_of(metadata.brokers@, ids@).take(i as int) =~= nodes_of(
        metadata.brokers@,
        ids@,
    ));
    r
}

fn partition_info(metadata: &MetadataResponse, name: &String, p: &MetadataPartition) -> (r:
    PartitionInfo)
    ensures
        r@ == info_of(metadata.brokers@, name@, *p),
{
    let leader = match find_node(metadata, p.leader_id) {
        Some(_) => Some(node(metadata, p.leader_id)),
        None => None,
    };
    PartitionInfo {
        topic: name.clone(),
        partition: p.partition_index,
        leader,
        replicas: nodes(metadata, &p.replica_nodes),
        in_sync_replicas: nodes(metadata, &p.isr_nodes),
        offline_replicas: nodes(metadata, &p.offline_replicas),
    }
}

fn partition_infos(
    metadata: &MetadataResponse,
    name: &String,
    partitions: &Vec<MetadataPartition>,
) -> (r: Vec<PartitionInfo>)
    ensures
        info_views(r@) == infos_of(metadata.brokers@, name@, partitions@),
{
    let ghost goal = infos_of(metadata.brokers@, name@, partitions@);
    let mut r: Vec<PartitionInfo> = Vec::new();
    let mut i: usize = 0;
    while i < partitions.len()
        invariant
            i <= partitions@.len(),
            goal == infos_of(metadata.brokers@, name@, partitions@),
            info_views(r@) =~= goal.take(i as int),
        decreases partitions.len() - i,
    {
        let ghost had = r@;
        let next = partition_info(metadata, name, &partitions[i]);
        r.push(next);
        assert(info_views(r@) =~= info_views(had).push(next@));
        i = i + 1;
    }
    assert(goal.take(i as int) =~= goal);
    r
}

proof fn lemma_first_topic_error_stays(topics: Seq<MetadataTopic>, n: int)
    requires
        0 <= n <= topics.len(),
        first_topic_error(topics.take(n)) is Some,
    ensures
        first_topic_error(topics) == first_topic_error(topics.take(n)),
    decreases topics.len() - n,
{
    if n < topics.len() {
        assert(topics.take(n + 1).drop_last() =~= topics.take(n));
        lemma_first_topic_error_stays(topics, n + 1);
    } else {
        assert(topics.take(n) =~= topics);
    }
}

/// Whether an error is the one of a topic.
pub open spec fn topic_error(e: ConsumerError, code: i16, name: Seq<char>) -> bool {
    if code == INVALID_TOPIC_EXCEPTION {
        e matches ConsumerError::InvalidTopic(t) && t@ == name
    } else {
        e == ConsumerError::Server(code)
    }
}

/// Check the topics of a metadata answer: the flag says that a topic has an
/// error that is retried.
fn check_topics(metadata: &MetadataResponse) -> (r: Result<bool, ConsumerError>)
    ensures
        match first_topic_error(metadata.topics@) {
            Some(error) => r is Err && topic_error(r->Err_0, error.0, error.1),
            None => r == Ok::<bool, ConsumerError>(has_retriable_topic(metadata.topics@)),
        },
{
    let ghost all = metadata.topics@;
    let mut retry = false;
    let mut i: usize = 0;
    while i < metadata.topics.len()
        invariant
            i <= all.len(),
            all == metadata.topics@,
            first_topic_error(all.take(i as int)) is None,
            retry == exists|j: int|
                0 <= j < i && (#[trigger] all[j]).error_code != UNKNOWN_TOPIC_OR_PARTITION
                    && retriable_code(all[j].error_code),
        decreases metadata.topics.len() - i,
    {
        assert(all.take(i + 1).drop_last() =~= all.take(i as int));
        let topic = &metadata.topics[i];
        let code = topic.error_code;
        if code != 0 && code != UNKNOWN_TOPIC_OR_PARTITION {
            if code != INVALID_TOPIC_EXCEPTION && is_retriable_error(code) {
                retry = true;
            } else {
                proof {
                    lemma_first_topic_error_stays(all, i + 1);
                }
                if code == INVALID_TOPIC_EXCEPTION {
                    let name = match &topic.name {
                        Some(name) => name.clone(),
                        None => String::new(),
                    };
                    assert(name@ =~= (match topic_name(*topic) {
                        Some(name) => name,
                        None => seq![],
                    }));
                    return Err(ConsumerError::InvalidTopic(name));
                }
                return Err(ConsumerError::Server(code));
            }
        }
        i = i + 1;
    }
    assert(all.take(i as int) =~= all);
    Ok(retry)
}

/// Whether a result is what a metadata answer gives: unauthorized topics first,
/// then the first topic error that is not retried, then `None` for one that is,
/// else the partitions of each topic.
pub open spec fn infos_result(
    metadata: MetadataResponse,
    result: Result<Option<SortedMap<String, Vec<PartitionInfo>>>, ConsumerError>,
) -> bool {
    let refused = named_with_code(metadata.topics@, TOPIC_AUTHORIZATION_FAILED, None);
    if refused != Set::<Seq<char>>::empty() {
        result is Err && unauthorized_error(result->Err_0, refused)
    } else {
        match first_topic_error(metadata.topics@) {
            Some(error) => result is Err && topic_error(result->Err_0, error.0, error.1),
            None => if has_retriable_topic(metadata.topics@) {
                result matches Ok(None)
            } else {
                result matches Ok(Some(map)) && infos_as(
                    map@,
                    topic_infos(metadata.brokers@, metadata.topics@),
                )
            },
        }
    }
}

/// The partitions of each topic of a metadata answer. `None` means that a topic
/// has a retriable error and the request must be sent again. An unknown topic
/// is left out.
pub fn topic_partition_infos(metadata: &MetadataResponse) -> (r: Result<
    Option<SortedMap<String, Vec<PartitionInfo>>>,
    ConsumerError,
>)
    ensures
        infos_result(*metadata, r),
        r matches Ok(Some(infos)) ==> reports_topics(infos@, *metadata),
{
    let refused = names_with_code(metadata, TOPIC_AUTHORIZATION_FAILED, None);
    if !refused.is_empty() {
        return Err(ConsumerError::TopicAuthorizationFailed(refused));
    }
    match check_topics(metadata) {
        Err(e) => {
            return Err(e);
        },
        Ok(true) => {
            return Ok(None);
        },
        Ok(false) => {},
    }
    let ghost all = metadata.topics@;
    let ghost brokers = metadata.brokers@;
    let mut map: SortedMap<String, Vec<PartitionInfo>> = SortedMap::new();
    let mut i: usize = 0;
    assert(map@.dom() =~= topic_infos(brokers, all.take(0)).dom());
    while i < metadata.topics.len()
        invariant
            i <= all.len(),
            all == metadata.topics@,
            brokers == metadata.brokers@,
            infos_as(map@, topic_infos(brokers, all.take(i as int))),
        decreases metadata.topics.len() - i,
    {
        assert(all.take(i + 1).drop_last() =~= all.take(i as int));
        let topic = &metadata.topics[i];
        if topic.error_code == 0 {
            if let Some(name) = &topic.name {
                let ghost had = topic_infos(brokers, all.take(i as int));
                let infos = partition_infos(metadata, name, &topic.partitions);
                map.insert(name.clone(), infos);
                proof {
                    let now = topic_infos(brokers, all.take(i + 1));
                    assert(map@.dom() =~= now.dom());
                    assert forall|t: Seq<char>| #[trigger] now.contains_key(t) implies info_views(
                        map@[t]@,
                    ) == now[t] by {
                        if t != name@ {
                            assert(had.contains_key(t));
                        }
                    }
                }
            }
        }
        i = i + 1;
    }
    assert(all.take(i as int) =~= all);
    proof {
        law_topic_infos_are_those_of_the_metadata(map@, *metadata);
    }
    Ok(Some(map))
}

/// What a query still searches, what it found, and the topics that refused it.
pub struct QueryModel {
    pub search: Map<PartitionKey, i64>,
    pub found: Map<PartitionKey, OffsetAndTimestamp>,
    pub unauthorized: Set<Seq<char>>,
}

/// The state of a query after a row. A row for a partition that is not searched
/// changes nothing.
pub open spec fn after_query_row(m: QueryModel, row: ListOffsetsRow) -> QueryModel {
    let key = (row.0, row.1.partition_index);
    if !m.search.contains_key(key) {
        m
    } else {
        match query_row(row.1.error_code, row.1.offset, row.1.timestamp, row.1.leader_epoch) {
            QueryRow::Found(offset) => QueryModel {
                search: m.search.remove(key),
                found: m.found.insert(key, offset),
                ..m
            },
            QueryRow::NotFound => QueryModel { search: m.search.remove(key), ..m },
            QueryRow::Unauthorized => QueryModel { unauthorized: m.unauthorized.insert(row.0), ..m },
            QueryRow::Retry => m,
        }
    }
}

/// The state of a query after rows, in order.
pub open spec fn after_query_rows(m: QueryModel, rows: Seq<ListOffsetsRow>) -> QueryModel
    decreases rows.len(),
{
    if rows.len() == 0 {
        m
    } else {
        after_query_row(after_query_rows(m, rows.drop_last()), rows.last())
    }
}

/// Answers resolve only partitions that are searched, and each once: what was
/// found before stays as it is, a partition that gets an answer is no longer
/// searched, and nothing else is found.
pub proof fn law_answers_resolve_each_searched_partition_once(
    m: QueryModel,
    rows: Seq<ListOffsetsRow>,
)
    requires
        m.search.dom().disjoint(m.found.dom()),
    ensures
        ({
            let after = after_query_rows(m, rows);
            &&& after.search.dom().disjoint(after.found.dom())
            &&& after.search.submap_of(m.search)
            &&& m.found.submap_of(after.found)
            &&& after.found.dom().subset_of(m.found.dom().union(m.search.dom()))
        }),
    decreases rows.len(),
{
    if rows.len() > 0 {
        law_answers_resolve_each_searched_partition_once(m, rows.drop_last());
        let before = after_query_rows(m, rows.drop_last());
        let after = after_query_rows(m, rows);
        let key = (rows.last().0, rows.last().1.partition_index);
        assert forall|k: PartitionKey| #[trigger]
            after.search.contains_key(k) implies m.search.contains_key(k) && after.search[k]
            == m.search[k] && !after.found.contains_key(k) by {
            assert(before.search.dom().contains(k));
            assert(!before.found.dom().contains(k));
        }
        assert forall|k: PartitionKey| #[trigger]
            m.found.contains_key(k) implies after.found.contains_key(k) && after.found[k]
            == m.found[k] by {
            assert(before.found.dom().contains(k));
            assert(m.found.dom().contains(k));
            if k == key {
                assert(!before.search.dom().contains(k));
            }
        }
        assert forall|k: PartitionKey| #[trigger]
            after.found.dom().contains(k) implies m.found.dom().union(m.search.dom()).contains(
            k,
        ) by {
            if before.search.contains_key(k) {
                assert(m.search.dom().contains(k));
            }
        }
        assert(after.search.dom().disjoint(after.found.dom()));
    }
}

/// Take the rows of `answer` for the partitions that `search` still has.
pub fn apply_query_answer(
    answer: &ListOffsetsResponse,
    search: &mut SortedMap<TopicPartition, i64>,
    found: &mut SortedMap<TopicPartition, OffsetAndTimestamp>,
    unauthorized: &mut SortedSet<String>,
)
    ensures
        after_query_rows(
            QueryModel {
                search: old(search)@,
                found: old(found)@,
                unauthorized: old(unauthorized)@,
            },
            answer.row_models(),
        ) == (QueryModel {
            search: final(search)@,
            found: final(found)@,
            unauthorized: final(unauthorized)@,
        }),
        forall|i: int, k: PartitionKey|
            #[trigger] ends_search(answer.row_models(), i, k) && old(search)@.contains_key(k)
                ==> found_as_row(answer.row_models()[i], k, final(found)@, old(found)@),
{
    let rows = answer.rows();
    let ghost all = answer.row_models();
    let ghost start = QueryModel { search: search@, found: found@, unauthorized: unauthorized@ };
    let mut i: usize = 0;
    while i < rows.len()
        invariant
            i <= rows@.len(),
            all == offsets_row_views(rows@),
            after_query_rows(start, all.take(i as int)) == (QueryModel {
                search: search@,
                found: found@,
                unauthorized: unauthorized@,
            }),
        decreases rows.len() - i,
    {
        let row = &rows[i];
        let key: TopicPartition = (row.0.clone(), row.1.partition_index);
        proof {
            assert(all.take(i + 1).drop_last() =~= all.take(i as int));
            assert(all.take(i + 1).last() == (row.0@, row.1));
            assert(key@ == (row.0@, row.1.partition_index));
        }
        if search.contains_key(&key) {
            match classify_query_row(
                row.1.error_code,
                row.1.offset,
                row.1.timestamp,
                row.1.leader_epoch,
            ) {
                QueryRow::Found(offset) => {
                    search.remove(&key);
                    found.insert(key, offset);
                },
                QueryRow::NotFound => {
                    search.remove(&key);
                },
                QueryRow::Unauthorized => {
                    unauthorized.insert(row.0.clone());
                },
                QueryRow::Retry => {},
            }
        }
        i = i + 1;
    }
    assert(all.take(i as int) =~= all);
    proof {
        assert forall|i: int, k: PartitionKey|
            #[trigger] ends_search(all, i, k) && start.search.contains_key(k) implies found_as_row(
            all[i],
            k,
            found@,
            start.found,
        ) by {
            law_a_search_finds_the_offset_of_its_row(start, all, i, k);
        }
    }
}

/// A search of offsets by timestamp, which goes round by round: the metadata of
/// the topics, then one request to each leader.
pub struct OffsetSearch {
    /// The partitions without an answer, with the searched timestamps.
    pub search: SortedMap<TopicPartition, i64>,
    pub found: SortedMap<TopicPartition, OffsetAndTimestamp>,
    pub unauthorized: SortedSet<String>,
    pub require_timestamps: bool,
    pub started: Nanos,
    pub deadline: Nanos,
    /// The wait before the next round.
    pub backoff: Nanos,
}

impl OffsetSearch {
    /// What the search still searches, found, and was refused.
    pub open spec fn model(self) -> QueryModel {
        QueryModel {
            search: self.search@,
            found: self.found@,
            unauthorized: self.unauthorized@,
        }
    }

    /// Whether the search has only its answers changed.
    pub open spec fn answers_changed(self, before: OffsetSearch) -> bool {
        self == (OffsetSearch {
            search: self.search,
            found: self.found,
            unauthorized: self.unauthorized,
            ..before
        })
    }
}

/// The partitions of `keys` that a broker leads, with what is searched.
pub open spec fn queries_for(
    keys: Seq<PartitionKey>,
    search: Map<PartitionKey, i64>,
    leaders: Map<PartitionKey, LeaderAndEpoch>,
    known: Set<i32>,
    broker: i32,
) -> Seq<QueryKey>
    decreases keys.len(),
{
    if keys.len() == 0 {
        seq![]
    } else {
        let before = queries_for(keys.drop_last(), search, leaders, known, broker);
        let key = keys.last();
        if leaders.contains_key(key) && leaders[key].0 == broker && known.contains(broker) {
            before.push((key, leaders[key].1, search[key]))
        } else {
            before
        }
    }
}

/// The message of a search that ran out of time after `ms` milliseconds.
pub open spec fn search_timeout_text(ms: nat) -> Seq<char> {
    "Failed to get offsets by times in "@ + digits(ms) + "ms"@
}

/// The milliseconds from `started` to `now`.
pub open spec fn millis_between(started: Nanos, now: Nanos) -> nat {
    if now >= started {
        ((now - started) / 1_000_000) as nat
    } else {
        0
    }
}

/// Whether an error is the one of a search that ran out of time.
pub open spec fn search_timed_out(e: ConsumerError, started: Nanos, now: Nanos) -> bool {
    e matches ConsumerError::Timeout { message, cause } && cause is None && message@
        == search_timeout_text(millis_between(started, now))
}

/// The end of a round of a search.
pub enum SearchEnd {
    /// Every partition has its answer.
    Done(SortedMap<TopicPartition, OffsetAndTimestamp>),
    /// The search fails.
    Fail(ConsumerError),
    /// Wait until then, and start the next round.
    Wait(OffsetSearch, Nanos),
}

/// The topics of partitions.
pub open spec fn key_topics(keys: Set<PartitionKey>) -> Set<Seq<char>> {
    Set::new(|t: Seq<char>| exists|k: PartitionKey| #[trigger] keys.contains(k) && k.0 == t)
}

/// The message of a negative timestamp.
pub open spec fn negative_time_text(key: PartitionKey, timestamp: int) -> Seq<char> {
    "The target time for partition "@ + partition_name(key.0, key.1 as int) + (" is "@ + decimal(
        timestamp,
    ) + ". The target time cannot be negative."@)
}

/// The first key of `keys` with a negative timestamp.
pub open spec fn first_negative(
    keys: Seq<PartitionKey>,
    timestamps: Map<PartitionKey, i64>,
) -> Option<PartitionKey>
    decreases keys.len(),
{
    if keys.len() == 0 {
        None
    } else if first_negative(keys.drop_last(), timestamps) is Some {
        first_negative(keys.drop_last(), timestamps)
    } else if timestamps[keys.last()] < 0 {
        Some(keys.last())
    } else {
        None
    }
}

proof fn lemma_first_negative_stays(
    keys: Seq<PartitionKey>,
    timestamps: Map<PartitionKey, i64>,
    n: int,
)
    requires
        0 <= n <= keys.len(),
        first_negative(keys.take(n), timestamps) is Some,
    ensures
        first_negative(keys, timestamps) == first_negative(keys.take(n), timestamps),
    decreases keys.len() - n,
{
    if n < keys.len() {
        assert(keys.take(n + 1).drop_last() =~= keys.take(n));
        lemma_first_negative_stays(keys, timestamps, n + 1);
    } else {
        assert(keys.take(n) =~= keys);
    }
}

impl Consumer {
    /// Start a search of offsets by timestamp at time `now`.
    pub fn search_offsets(
        &self,
        search: SortedMap<TopicPartition, i64>,
        require_timestamps: bool,
        now: Nanos,
    ) -> (r: OffsetSearch)
        requires
            now + self.settings.default_api_timeout <= u64::MAX,
        ensures
            r.search == search,
            r.found@ == Map::<PartitionKey, OffsetAndTimestamp>::empty(),
            r.unauthorized@ == Set::<Seq<char>>::empty(),
            r.require_timestamps == require_timestamps,
            r.started == now,
            r.deadline == now + self.settings.default_api_timeout,
            r.backoff == self.settings.initial_backoff,
    {
        OffsetSearch {
            search,
            found: SortedMap::new(),
            unauthorized: SortedSet::new(),
            require_timestamps,
            started: now,
            deadline: now + self.settings.default_api_timeout,
            backoff: self.settings.initial_backoff,
        }
    }

    fn boundary_search(&self, partitions: &Vec<TopicPartition>, timestamp: i64, now: Nanos) -> (r:
        OffsetSearch)
        requires
            now + self.settings.default_api_timeout <= u64::MAX,
        ensures
            r.search@ == Map::new(
                |k: PartitionKey| key_views(partitions@).contains(k),
                |k: PartitionKey| timestamp,
            ),
            r.found@ == Map::<PartitionKey, OffsetAndTimestamp>::empty(),
            r.unauthorized@ == Set::<Seq<char>>::empty(),
            !r.require_timestamps,
            r.started == now,
            r.deadline == now + self.settings.default_api_timeout,
            r.backoff == self.settings.initial_backoff,
    {
        let mut search: SortedMap<TopicPartition, i64> = SortedMap::new();
        let ghost all = key_views(partitions@);
        let mut i: usize = 0;
        while i < partitions.len()
            invariant
                i <= partitions@.len(),
                all == key_views(partitions@),
                forall|k: PartitionKey| #[trigger]
                    search@.contains_key(k) <==> all.take(i as int).contains(k),
                forall|k: PartitionKey| #[trigger]
                    search@.contains_key(k) ==> search@[k] == timestamp,
            decreases partitions.len() - i,
        {
            proof {
                lemma_take_next(all, i as int);
                assert(all[i as int] == partitions@[i as int]@);
            }
            search.insert(copy_key(&partitions[i]), timestamp);
            i = i + 1;
        }
        proof {
            assert(all.take(i as int) =~= all);
            assert(search@ =~= Map::new(
                |k: PartitionKey| all.contains(k),
                |k: PartitionKey| timestamp,
            ));
        }
        self.search_offsets(search, false, now)
    }

    /// Start a search of the first offset of each partition.
    pub fn beginning_offsets(&self, partitions: &Vec<TopicPartition>, now: Nanos) -> (r:
        OffsetSearch)
        requires
            now + self.settings.default_api_timeout <= u64::MAX,
        ensures
            r.search@ == Map::new(
                |k: PartitionKey| key_views(partitions@).contains(k),
                |k: PartitionKey| EARLIEST_TIMESTAMP,
            ),
            r.found@ == Map::<PartitionKey, OffsetAndTimestamp>::empty(),
            r.unauthorized@ == Set::<Seq<char>>::empty(),
            !r.require_timestamps,
            r.started == now,
            r.deadline == now + self.settings.default_api_timeout,
            r.backoff == self.settings.initial_backoff,
    {
        self.boundary_search(partitions, EARLIEST_TIMESTAMP, now)
    }

    /// Start a search of the end offset of each partition: the high watermark,
    /// or the last stable offset with `read_committed`.
    pub fn end_offsets(&self, partitions: &Vec<TopicPartition>, now: Nanos) -> (r: OffsetSearch)
        requires
            now + self.settings.default_api_timeout <= u64::MAX,
        ensures
            r.search@ == Map::new(
                |k: PartitionKey| key_views(partitions@).contains(k),
                |k: PartitionKey| LATEST_TIMESTAMP,
            ),
            r.found@ == Map::<PartitionKey, OffsetAndTimestamp>::empty(),
            r.unauthorized@ == Set::<Seq<char>>::empty(),
            !r.require_timestamps,
            r.started == now,
            r.deadline == now + self.settings.default_api_timeout,
            r.backoff == self.settings.initial_backoff,
    {
        self.boundary_search(partitions, LATEST_TIMESTAMP, now)
    }

    /// Start a search of the first offset of each partition whose timestamp is
    /// at or after the given timestamp. A negative timestamp is an error.
    pub fn offsets_for_times(&self, timestamps: &SortedMap<TopicPartition, i64>, now: Nanos) -> (r:
        Result<OffsetSearch, ConsumerError>)
        requires
            now + self.settings.default_api_timeout <= u64::MAX,
        ensures
            match first_negative(timestamps.keys(), timestamps@) {
                Some(key) => r is Err && (r->Err_0 matches ConsumerError::InvalidArgument(m) && m@
                    == negative_time_text(key, timestamps@[key] as int)),
                None => r is Ok && {
                    let s = r->Ok_0;
                    &&& s.search@ == timestamps@
                    &&& s.found@ == Map::<PartitionKey, OffsetAndTimestamp>::empty()
                    &&& s.unauthorized@ == Set::<Seq<char>>::empty()
                    &&& s.require_timestamps
                    &&& s.started == now
                    &&& s.deadline == now + self.settings.default_api_timeout
                    &&& s.backoff == self.settings.initial_backoff
                },
            },
    {
        let n = timestamps.len();
        let ghost keys = timestamps.keys();
        let mut i: usize = 0;
        while i < n
            invariant
                n == keys.len(),
                keys == timestamps.keys(),
                i <= n,
                first_negative(keys.take(i as int), timestamps@) is None,
            decreases n - i,
        {
            assert(keys.take(i + 1).drop_last() =~= keys.take(i as int));
            let timestamp = *timestamps.value_at(i);
            if timestamp < 0 {
                let key = timestamps.key_at(i);
                proof {
                    lemma_first_negative_stays(keys, timestamps@, i + 1);
                }
                let rest = concat3(
                    " is ",
                    decimal_text(timestamp).as_str(),
                    ". The target time cannot be negative.",
                );
                return Err(
                    ConsumerError::InvalidArgument(
                        concat3(
                            "The target time for partition ",
                            partition_text(key.0.as_str(), key.1).as_str(),
                            rest.as_str(),
                        ),
                    ),
                );
            }
            i = i + 1;
        }
        assert(keys.take(i as int) =~= keys);
        let search = timestamps.clone();
        assert(search@ =~= timestamps@);
        Ok(self.search_offsets(search, true, now))
    }

    /// The number of records between the position of an assigned partition and
    /// its end offset from the last fetch, or `None` when the position or the
    /// end offset is not known.
    pub fn current_lag(&self, topic: &str, partition: i32) -> (r: Result<
        Option<i64>,
        ConsumerError,
    >)
        requires
            self.lag_in_range((topic@, partition)),
        ensures
            r is Err <==> !self.assigned@.contains((topic@, partition)),
            r matches Err(e) ==> not_assigned(e, (topic@, partition)),
            r matches Ok(lag) ==> {
                let key = (topic@, partition);
                let position = valid_position_of(self.next_offsets@, self.positions@, key);
                lag == if position is Some && self.end_offsets@.contains_key(key) {
                    Some((self.end_offsets@[key] - position->Some_0) as i64)
                } else {
                    None::<i64>
                }
            },
    {
        let key: TopicPartition = (topic.to_owned(), partition);
        assert(key@ == (topic@, partition));
        if !self.assigned.contains(&key) {
            return Err(no_current_assignment(&key));
        }
        let position = match self.valid_position(&key) {
            Some(position) => position,
            None => {
                return Ok(None);
            },
        };
        match self.end_offsets.get(&key) {
            Some(end) => Ok(Some(*end - position)),
            None => Ok(None),
        }
    }

    /// Whether the lag of a partition fits its type, where there is one: for an
    /// assigned partition with a valid position and a known end offset.
    pub open spec fn lag_in_range(self, key: PartitionKey) -> bool {
        let position = valid_position_of(self.next_offsets@, self.positions@, key);
        self.assigned@.contains(key) && position is Some && self.end_offsets@.contains_key(key)
            ==> i64::MIN <= self.end_offsets@[key] - position->Some_0 <= i64::MAX
    }

    /// The topics whose metadata the next round of a search needs.
    pub fn search_topics(search: &OffsetSearch) -> (r: SortedSet<String>)
        ensures
            r@ == key_topics(search.search@.dom()),
    {
        let mut topics: SortedSet<String> = SortedSet::new();
        let n = search.search.len();
        let ghost keys = search.search.keys();
        let mut i: usize = 0;
        while i < n
            invariant
                n == keys.len(),
                keys == search.search.keys(),
                search.search.keys_listed(),
                i <= n,
                forall|t: Seq<char>| #[trigger]
                    topics@.contains(t) <==> exists|j: int|
                        0 <= j < i && (#[trigger] keys[j]).0 == t,
            decreases n - i,
        {
            let ghost had = topics@;
            topics.insert(search.search.key_at(i).0.clone());
            proof {
                assert forall|t: Seq<char>| #[trigger] topics@.contains(t) <==> exists|j: int|
                    0 <= j < i + 1 && (#[trigger] keys[j]).0 == t by {
                    if had.contains(t) {
                        let j = choose|j: int| 0 <= j < i && (#[trigger] keys[j]).0 == t;
                        assert(keys[j].0 == t);
                    }
                    assert(keys[i as int].0 == keys[i as int].0);
                }
            }
            i = i + 1;
        }
        proof {
            let dom = search.search@.dom();
            assert forall|t: Seq<char>| topics@.contains(t) <==> #[trigger] key_topics(
                dom,
            ).contains(t) by {
                if topics@.contains(t) {
                    let j = choose|j: int| 0 <= j < i && (#[trigger] keys[j]).0 == t;
                    assert(keys.contains(keys[j]));
                    assert(dom.contains(keys[j]));
                }
                if key_topics(dom).contains(t) {
                    let k = choose|k: PartitionKey| #[trigger] dom.contains(k) && k.0 == t;
                    assert(search.search@.contains_key(k));
                    assert(keys.contains(k));
                    let j = choose|j: int| 0 <= j < keys.len() && keys[j] == k;
                    assert(keys[j].0 == t);
                }
            }
            assert(topics@ =~= key_topics(dom));
        }
        topics
    }

    /// The partitions that a search still has and a known broker leads, by
    /// broker.
    fn group_queries(
        &self,
        search: &OffsetSearch,
        leaders: &SortedMap<TopicPartition, LeaderAndEpoch>,
    ) -> (r: SortedMap<i32, Vec<QueryPartition>>)
        ensures
            no_empty_list(r@),
            forall|b: i32| #[trigger]
                query_views(listed(r@, b)) == queries_for(
                    search.search.keys(),
                    search.search@,
                    leaders@,
                    self.known_brokers@,
                    b,
                ),
    {
        let mut by_leader: SortedMap<i32, Vec<QueryPartition>> = SortedMap::new();
        let n = search.search.len();
        let ghost keys = search.search.keys();
        let ghost known = self.known_brokers@;
        let mut i: usize = 0;
        assert forall|b: i32| #[trigger] query_views(listed(by_leader@, b)) == queries_for(
            keys.take(0),
            search.search@,
            leaders@,
            known,
            b,
        ) by {
            assert(query_views(listed(by_leader@, b)) =~= seq![]);
        }
        while i < n
            invariant
                n == keys.len(),
                keys == search.search.keys(),
                known == self.known_brokers@,
                i <= n,
                no_empty_list(by_leader@),
                forall|b: i32| #[trigger]
                    query_views(listed(by_leader@, b)) == queries_for(
                        keys.take(i as int),
                        search.search@,
                        leaders@,
                        known,
                        b,
                    ),
            decreases n - i,
        {
            let key = search.search.key_at(i);
            let timestamp = *search.search.value_at(i);
            let ghost before = by_leader@;
            proof {
                assert(keys.take(i + 1).drop_last() =~= keys.take(i as int));
                assert(keys.take(i + 1).last() == key@);
            }
            if let Some(leader) = leaders.get(key) {
                let leader: LeaderAndEpoch = *leader;
                if self.known_brokers.contains(&leader.0) {
                    let entry = (copy_key(key), leader.1, timestamp);
                    push_at(&mut by_leader, leader.0, entry);
                    proof {
                        assert forall|b: i32| #[trigger]
                            query_views(listed(by_leader@, b)) == queries_for(
                                keys.take(i + 1),
                                search.search@,
                                leaders@,
                                known,
                                b,
                            ) by {
                            assert(query_views(listed(before, b)) == queries_for(
                                keys.take(i as int),
                                search.search@,
                                leaders@,
                                known,
                                b,
                            ));
                            if b == leader.0 {
                                assert(listed(by_leader@, b) == listed(before, b).push(entry));
                                assert(query_views(listed(by_leader@, b)) =~= query_views(
                                    listed(before, b),
                                ).push((key@, leader.1, timestamp)));
                            } else {
                                assert(listed(by_leader@, b) == listed(before, b));
                            }
                        }
                    }
                }
            }
            i = i + 1;
        }
        assert(keys.take(i as int) =~= keys);
        by_leader
    }

    /// The requests of a round of a search, one to each leader in order, from
    /// the metadata of its topics. A transient error of the metadata request
    /// gives none, and the partitions wait for the next round.
    pub fn search_requests(
        &self,
        search: &OffsetSearch,
        metadata: Result<MetadataResponse, ClientError>,
    ) -> (r: Result<Vec<(i32, VersionedListOffsets)>, ConsumerError>)
        ensures
            match metadata {
                Err(e) => if transient_transport_error(e) {
                    r is Ok && r->Ok_0@.len() == 0
                } else {
                    r == Err::<Vec<(i32, VersionedListOffsets)>, ConsumerError>(
                        ConsumerError::Client(e),
                    )
                },
                Ok(metadata) => {
                    let topics = key_topics(search.search@.dom());
                    let refused = named_with_code(
                        metadata.topics@,
                        TOPIC_AUTHORIZATION_FAILED,
                        Some(topics),
                    );
                    if refused != Set::<Seq<char>>::empty() {
                        r is Err && unauthorized_error(r->Err_0, refused)
                    } else if first_invalid(metadata.topics@, topics) is Some {
                        r is Err && (r->Err_0 matches ConsumerError::InvalidTopic(t) && t@
                            == first_invalid(metadata.topics@, topics)->Some_0)
                    } else {
                        r is Ok && self.round_requests(
                            *search,
                            leaders_of(metadata.topics@),
                            r->Ok_0@,
                        )
                    }
                },
            },
    {
        let metadata = match metadata {
            Ok(metadata) => metadata,
            Err(e) => {
                if is_transient_transport_error(&e) {
                    return Ok(Vec::new());
                }
                return Err(ConsumerError::Client(e));
            },
        };
        let topics = Self::search_topics(search);
        match requested_topic_errors(&metadata, &topics) {
            Ok(_) => {},
            Err(e) => {
                return Err(e);
            },
        }
        let leaders = partition_leaders(&metadata);
        let by_leader = self.group_queries(search, &leaders);
        let n = by_leader.len();
        let ghost brokers = by_leader.keys();
        let mut out: Vec<(i32, VersionedListOffsets)> = Vec::new();
        let mut i: usize = 0;
        while i < n
            invariant
                n == brokers.len(),
                brokers == by_leader.keys(),
                by_leader.keys_listed(),
                no_empty_list(by_leader@),
                forall|b: i32| #[trigger]
                    query_views(listed(by_leader@, b)) == queries_for(
                        search.search.keys(),
                        search.search@,
                        leaders@,
                        self.known_brokers@,
                        b,
                    ),
                i <= n,
                out@.len() == i,
                forall|j: int| 0 <= j < i ==> (#[trigger] out@[j]).0 == brokers[j],
                forall|j: int|
                    0 <= j < i ==> self.round_request(
                        *search,
                        leaders@,
                        (#[trigger] out@[j]).0,
                        out@[j].1,
                    ),
            decreases n - i,
        {
            let broker = *by_leader.key_at(i);
            let list = by_leader.value_at(i);
            let request = query_request(list, self.settings.isolation_level);
            proof {
                assert(by_leader@.contains_key(broker));
                assert(listed(by_leader@, broker) == list@);
                assert(query_views(listed(by_leader@, broker)) == queries_for(
                    search.search.keys(),
                    search.search@,
                    leaders@,
                    self.known_brokers@,
                    broker,
                ));
                assert(list@.len() > 0);
                assert(query_views(list@).len() > 0);
            }
            out.push(
                (
                    broker,
                    with_min_version(
                        request,
                        self.settings.isolation_level,
                        search.require_timestamps,
                    ),
                ),
            );
            i = i + 1;
        }
        proof {
            assert forall|a: int, b: int| 0 <= a < b < out@.len() implies (#[trigger] out@[a]).0 < (
            #[trigger] out@[b]).0 by {
                assert(<i32 as crate::collections::MapKey>::before(brokers[a], brokers[b]));
            }
            assert forall|b: i32|
                (#[trigger] queries_for(
                    search.search.keys(),
                    search.search@,
                    leaders@,
                    self.known_brokers@,
                    b,
                )).len() > 0 implies exists|i: int| 0 <= i < out@.len() && (#[trigger] out@[i]).0
                == b by {
                assert(query_views(listed(by_leader@, b)).len() > 0);
                assert(by_leader@.contains_key(b));
                assert(brokers.contains(b));
                let j = choose|j: int| 0 <= j < brokers.len() && brokers[j] == b;
                assert(out@[j].0 == b);
            }
        }
        Ok(out)
    }

    /// Whether a request is the one to a broker in a round of a search.
    pub open spec fn round_request(
        self,
        search: OffsetSearch,
        leaders: Map<PartitionKey, LeaderAndEpoch>,
        broker: i32,
        request: VersionedListOffsets,
    ) -> bool {
        let list = queries_for(
            search.search.keys(),
            search.search@,
            leaders,
            self.known_brokers@,
            broker,
        );
        &&& list.len() > 0
        &&& request.min_version == list_offsets_min_version(
            self.settings.isolation_level,
            search.require_timestamps,
        )
        &&& carries_query(request.request, self.settings.isolation_level, list)
    }

    /// Whether the requests are those of a round of a search, one to each
    /// broker that leads a searched partition.
    pub open spec fn round_requests(
        self,
        search: OffsetSearch,
        leaders: Map<PartitionKey, LeaderAndEpoch>,
        requests: Seq<(i32, VersionedListOffsets)>,
    ) -> bool {
        &&& forall|i: int, j: int|
            0 <= i < j < requests.len() ==> (#[trigger] requests[i]).0 < (#[trigger] requests[j]).0
        &&& forall|i: int|
            0 <= i < requests.len() ==> self.round_request(
                search,
                leaders,
                (#[trigger] requests[i]).0,
                requests[i].1,
            )
        &&& forall|b: i32|
            (#[trigger] queries_for(
                search.search.keys(),
                search.search@,
                leaders,
                self.known_brokers@,
                b,
            )).len() > 0 ==> exists|i: int| 0 <= i < requests.len() && (#[trigger] requests[i]).0
                == b
    }

    /// Take the answer of a leader in a round of a search. `Ok(true)` asks to
    /// drop the connection to the broker; its partitions wait for the next
    /// round.
    pub fn search_answered(
        search: &mut OffsetSearch,
        answer: Result<ListOffsetsResponse, ClientError>,
    ) -> (r: Result<bool, ConsumerError>)
        ensures
            match answer {
                Ok(response) => r == Ok::<bool, ConsumerError>(false) && final(search).model()
                    == after_query_rows(old(search).model(), response.row_models())
                    && final(search).answers_changed(*old(search)),
                Err(e) => *final(search) == *old(search) && r == if transient_transport_error(e) {
                    Ok::<bool, ConsumerError>(true)
                } else {
                    Err(ConsumerError::Client(e))
                },
            },
    {
        match answer {
            Ok(response) => {
                apply_query_answer(
                    &response,
                    &mut search.search,
                    &mut search.found,
                    &mut search.unauthorized,
                );
                Ok(false)
            },
            Err(e) => {
                if is_transient_transport_error(&e) {
                    Ok(true)
                } else {
                    Err(ConsumerError::Client(e))
                }
            },
        }
    }

    /// End a round of a search: unauthorized topics fail it, a search without
    /// partitions is done, and the others go on until the deadline.
    pub fn search_offsets_until(&self, search: OffsetSearch, now: Nanos) -> (r: SearchEnd)
        ensures
            if search.unauthorized@ != Set::<Seq<char>>::empty() {
                r matches SearchEnd::Fail(e) && unauthorized_error(e, search.unauthorized@)
            } else if search.search@.len() == 0 {
                r == SearchEnd::Done(search.found)
            } else if now >= search.deadline {
                r matches SearchEnd::Fail(e) && search_timed_out(e, search.started, now)
            } else {
                r matches SearchEnd::Wait(next, until) && {
                    &&& next == (OffsetSearch {
                        backoff: backoff_after(
                            search.backoff as int,
                            self.settings.max_backoff as int,
                        ) as u64,
                        ..search
                    })
                    &&& until == if now + search.backoff < search.deadline {
                        now + search.backoff
                    } else {
                        search.deadline as int
                    }
                }
            },
    {
        if !search.unauthorized.is_empty() {
            return SearchEnd::Fail(
                ConsumerError::TopicAuthorizationFailed(search.unauthorized),
            );
        }
        if search.search.is_empty() {
            return SearchEnd::Done(search.found);
        }
        if now >= search.deadline {
            return SearchEnd::Fail(Self::search_timeout(search.started, now));
        }
        let left: Nanos = search.deadline - now;
        let until: Nanos = if search.backoff < left {
            now + search.backoff
        } else {
            search.deadline
        };
        let mut next = search;
        next.backoff = next_backoff(next.backoff, self.settings.max_backoff);
        SearchEnd::Wait(next, until)
    }

    /// The error of a search that ran out of time.
    pub fn search_timeout(started: Nanos, now: Nanos) -> (r: ConsumerError)
        ensures
            search_timed_out(r, started, now),
    {
        let ms: u64 = if now >= started {
            (now - started) / 1_000_000
        } else {
            0
        };
        ConsumerError::timeout(
            concat3("Failed to get offsets by times in ", digits_text(ms).as_str(), "ms"),
        )
    }
}

/// The offsets that a search of boundaries found.
pub fn boundary_offsets(found: &SortedMap<TopicPartition, OffsetAndTimestamp>) -> (r: SortedMap<
    TopicPartition,
    i64,
>)
    ensures
        r@ == found@.map_values(|o: OffsetAndTimestamp| o.offset),
{
    let mut r: SortedMap<TopicPartition, i64> = SortedMap::new();
    let n = found.len();
    let ghost keys = found.keys();
    let mut i: usize = 0;
    while i < n
        invariant
            n == keys.len(),
            keys == found.keys(),
            found.keys_listed(),
            i <= n,
            forall|k: PartitionKey| #[trigger]
                r@.contains_key(k) <==> keys.take(i as int).contains(k),
            forall|k: PartitionKey| #[trigger] r@.contains_key(k) ==> r@[k] == found@[k].offset,
        decreases n - i,
    {
        proof {
            lemma_take_next(keys, i as int);
        }
        r.insert(copy_key(found.key_at(i)), found.value_at(i).offset);
        i = i + 1;
    }
    proof {
        assert(keys.take(n as int) =~= keys);
        assert(r@ =~= found@.map_values(|o: OffsetAndTimestamp| o.offset));
    }
    r
}

/// The offsets that a search by timestamp found, `None` for a partition without
/// a record at or after its timestamp.
pub fn times_found(
    timestamps: &SortedMap<TopicPartition, i64>,
    found: &SortedMap<TopicPartition, OffsetAndTimestamp>,
) -> (r: SortedMap<TopicPartition, Option<OffsetAndTimestamp>>)
    ensures
        r@ == Map::new(
            |k: PartitionKey| timestamps@.contains_key(k),
            |k: PartitionKey|
                if found@.contains_key(k) {
                    Some(found@[k])
                } else {
                    None
                },
        ),
{
    let mut r: SortedMap<TopicPartition, Option<OffsetAndTimestamp>> = SortedMap::new();
    let n = timestamps.len();
    let ghost keys = timestamps.keys();
    let mut i: usize = 0;
    while i < n
        invariant
            n == keys.len(),
            keys == timestamps.keys(),
            timestamps.keys_listed(),
            i <= n,
            forall|k: PartitionKey| #[trigger]
                r@.contains_key(k) <==> keys.take(i as int).contains(k),
            forall|k: PartitionKey| #[trigger]
                r@.contains_key(k) ==> r@[k] == if found@.contains_key(k) {
                    Some(found@[k])
                } else {
                    None
                },
        decreases n - i,
    {
        proof {
            lemma_take_next(keys, i as int);
        }
        let key = timestamps.key_at(i);
        let offset = match found.get(key) {
            Some(offset) => Some(*offset),
            None => None,
        };
        r.insert(copy_key(key), offset);
        i = i + 1;
    }
    proof {
        assert(keys.take(n as int) =~= keys);
        assert(r@ =~= Map::new(
            |k: PartitionKey| timestamps@.contains_key(k),
            |k: PartitionKey|
                if found@.contains_key(k) {
                    Some(found@[k])
                } else {
                    None
                },
        ));
    }
    r
}

/// A metadata request.
#[derive(Debug, PartialEq, Eq)]
pub struct MetadataRequest {
    /// The topics to ask for, or `None` for all of them.
    pub topics: Option<Vec<String>>,
    /// The broker may create the topics.
    pub allow_auto_topic_creation: bool,
}

/// What follows a metadata answer.
pub enum MetadataStep {
    /// The partitions of the topics.
    Done(SortedMap<String, Vec<PartitionInfo>>),
    /// The call fails.
    Fail(ConsumerError),
    /// Wait until then, and send the request again.
    Wait(Nanos),
}

/// The message of a metadata query that ran out of time.
pub const METADATA_TIMEOUT: &'static str = "Timeout expired while fetching topic metadata";

/// Whether an error is the one of a metadata query that ran out of time.
pub open spec fn metadata_timed_out(e: ConsumerError) -> bool {
    e matches ConsumerError::Timeout { message, cause } && cause is None && message@
        == METADATA_TIMEOUT@
}

/// Whether a step is the one after a retriable end of a metadata request.
pub open spec fn metadata_retry(
    step: MetadataStep,
    backoff: Nanos,
    now: Nanos,
    deadline: Nanos,
) -> bool {
    if now >= deadline {
        step matches MetadataStep::Fail(e) && metadata_timed_out(e)
    } else {
        step matches MetadataStep::Wait(until) && until == if now + backoff < deadline {
            now + backoff
        } else {
            deadline as int
        }
    }
}

impl Consumer {
    /// Whether the metadata requests of the consumer may create topics.
    pub fn allows_auto_topic_creation(&self) -> (r: bool)
        ensures
            r == self.settings.allow_auto_create_topics,
    {
        self.settings.allow_auto_create_topics
    }

    /// The request for the partitions of `topic`.
    pub fn partitions_for_request(&self, topic: &str) -> (r: MetadataRequest)
        ensures
            r.topics matches Some(list) && list@.len() == 1 && list@[0]@ == topic@,
            r.allow_auto_topic_creation == self.settings.allow_auto_create_topics,
    {
        let mut topics: Vec<String> = Vec::new();
        topics.push(topic.to_owned());
        MetadataRequest {
            topics: Some(topics),
            allow_auto_topic_creation: self.allows_auto_topic_creation(),
        }
    }

    /// The partitions of `topic` in the topics that were asked for, none for an
    /// unknown topic.
    pub fn partitions_for(
        topics: SortedMap<String, Vec<PartitionInfo>>,
        topic: &str,
    ) -> (r: Vec<PartitionInfo>)
        ensures
            topics@.contains_key(topic@) ==> r == topics@[topic@],
            !topics@.contains_key(topic@) ==> r@.len() == 0,
    {
        let mut topics = topics;
        match topics.remove(&topic.to_owned()) {
            Some(infos) => infos,
            None => Vec::new(),
        }
    }

    /// The request for the partitions of every topic of the cluster.
    pub fn list_topics(&self) -> (r: MetadataRequest)
        ensures
            r.topics is None,
            r.allow_auto_topic_creation,
    {
        MetadataRequest { topics: None, allow_auto_topic_creation: true }
    }

    /// What follows the answer to a metadata query: its topics, its error, or
    /// another request until the deadline. The wait doubles.
    pub fn topic_metadata_until(
        &self,
        answer: Result<MetadataResponse, ClientError>,
        backoff: &mut Nanos,
        now: Nanos,
        deadline: Nanos,
    ) -> (r: MetadataStep)
        ensures
            match answer {
                Err(e) => if transient_transport_error(e) {
                    metadata_retry(r, *old(backoff), now, deadline)
                } else {
                    r == MetadataStep::Fail(ConsumerError::Client(e))
                },
                Ok(metadata) => exists|result: Result<
                    Option<SortedMap<String, Vec<PartitionInfo>>>,
                    ConsumerError,
                >| #[trigger]
                    infos_result(metadata, result) && match result {
                        Ok(Some(topics)) => r == MetadataStep::Done(topics),
                        Ok(None) => metadata_retry(r, *old(backoff), now, deadline),
                        Err(e) => r == MetadataStep::Fail(e),
                    },
            },
            *final(backoff) == if r is Wait {
                backoff_after(*old(backoff) as int, self.settings.max_backoff as int) as u64
            } else {
                *old(backoff)
            },
    {
        match answer {
            Ok(metadata) => {
                let result = topic_partition_infos(&metadata);
                assert(infos_result(metadata, result));
                match result {
                    Ok(Some(topics)) => {
                        return MetadataStep::Done(topics);
                    },
                    Ok(None) => {},
                    Err(e) => {
                        return MetadataStep::Fail(e);
                    },
                }
            },
            Err(e) => {
                if !is_transient_transport_error(&e) {
                    return MetadataStep::Fail(ConsumerError::Client(e));
                }
            },
        }
        if now >= deadline {
            return MetadataStep::Fail(ConsumerError::timeout(METADATA_TIMEOUT.to_owned()));
        }
        let left: Nanos = deadline - now;
        let until: Nanos = if *backoff < left {
            now + *backoff
        } else {
            deadline
        };
        *backoff = next_backoff(*backoff, self.settings.max_backoff);
        MetadataStep::Wait(until)
    }
}

} // verus!
