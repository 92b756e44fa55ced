//! What queries answer, stated over the fields of the answers of the brokers.
use vstd::prelude::*;

use crate::collections::{lemma_pushed, SortedMap};
use crate::config::IsolationLevel;
use crate::consumer::{Consumer, Nanos};
use crate::error::ConsumerError;
use crate::group_wire::optional_text;
use crate::list_offsets::{
    offsets_rows, ListOffsetsPartition, ListOffsetsRequest, ListOffsetsRow,
    ListOffsetsTopicResponse, VersionedListOffsets,
};
use crate::metadata::{
    topic_name, MetadataBroker, MetadataPartition, MetadataResponse, MetadataTopic,
};
use crate::offset_wire::retriable_code;
use crate::position_update::request_names;
use crate::queries::{
    after_query_rows, broker_with, first_invalid, first_negative, first_topic_error,
    has_retriable_topic, info_of, info_views, infos_as, infos_of, infos_result, leaders_of,
    metadata_retry, millis_between, named_with_code, node_of, node_views, nodes_of, queries_for,
    query_row, query_rows, search_timed_out, search_timeout_text, topic_infos, topic_leaders,
    LeaderAndEpoch, MetadataStep, Node, OffsetAndTimestamp, OffsetSearch, PartitionInfo, QueryKey,
    QueryModel, QueryRow,
};
use crate::wire::PartitionKey;

verus! {

/// The sum of the first `n` lengths of a list.
pub open spec fn sum_before(lens: Seq<nat>, n: int) -> nat
    decreases n,
{
    if n <= 0 {
        0
    } else {
        sum_before(lens, n - 1) + lens[n - 1]
    }
}

pub proof fn lemma_sum_of_front(lens: Seq<nat>, n: int)
    requires
        0 <= n < lens.len(),
    ensures
        sum_before(lens.drop_last(), n) == sum_before(lens, n),
    decreases n,
{
    if n > 0 {
        lemma_sum_of_front(lens, n - 1);
    }
}

/// The number of partitions of each topic of an answer.
pub open spec fn partition_counts(topics: Seq<ListOffsetsTopicResponse>) -> Seq<nat> {
    Seq::new(topics.len(), |t: int| topics[t].partitions@.len())
}

/// There are as many rows as partitions in an answer.
pub proof fn law_number_of_rows_of_an_offsets_answer(topics: Seq<ListOffsetsTopicResponse>)
    ensures
        offsets_rows(topics).len() == sum_before(partition_counts(topics), topics.len() as int),
    decreases topics.len(),
{
    if topics.len() > 0 {
        let lens = partition_counts(topics);
        law_number_of_rows_of_an_offsets_answer(topics.drop_last());
        assert(partition_counts(topics.drop_last()) =~= lens.drop_last());
        lemma_sum_of_front(lens, topics.len() - 1);
    }
}

/// The rows of an answer are the partitions of its first topic, then those of
/// its second, and so on, each with the name of its topic and none left out.
pub proof fn law_rows_of_an_offsets_answer(
    topics: Seq<ListOffsetsTopicResponse>,
    t: int,
    p: int,
)
    requires
        0 <= t < topics.len(),
        0 <= p < topics[t].partitions@.len(),
    ensures
        ({
            let rows = offsets_rows(topics);
            let place = sum_before(partition_counts(topics), t) + p;
            &&& place < rows.len()
            &&& rows[place].0 == topics[t].name@
            &&& rows[place].1 == topics[t].partitions@[p]
        }),
    decreases topics.len(),
{
    let front = topics.drop_last();
    let lens = partition_counts(topics);
    assert(partition_counts(front) =~= lens.drop_last());
    law_number_of_rows_of_an_offsets_answer(front);
    lemma_sum_of_front(lens, t);
    if t < front.len() {
        assert(front[t] == topics[t]);
        law_rows_of_an_offsets_answer(front, t, p);
    }
}

/// Whether a row is of a partition.
pub open spec fn row_of(row: ListOffsetsRow, key: PartitionKey) -> bool {
    row.0 == key.0 && row.1.partition_index == key.1
}

/// Whether row `i` ends the search of its partition: the first of its rows
/// without an error, or with the error of a message format without timestamps.
pub open spec fn ends_search(rows: Seq<ListOffsetsRow>, i: int, key: PartitionKey) -> bool {
    &&& 0 <= i < rows.len()
    &&& row_of(rows[i], key)
    &&& rows[i].1.error_code == 0 || rows[i].1.error_code == 43
    &&& forall|j: int|
        0 <= j < i && row_of(#[trigger] rows[j], key) ==> rows[j].1.error_code != 0
            && rows[j].1.error_code != 43
}

/// Whether some row before `n` ends the search of a partition.
pub open spec fn search_ended(rows: Seq<ListOffsetsRow>, n: int, key: PartitionKey) -> bool {
    exists|j: int|
        0 <= j < n && row_of(#[trigger] rows[j], key) && (rows[j].1.error_code == 0
            || rows[j].1.error_code == 43)
}

proof fn lemma_front_ended(rows: Seq<ListOffsetsRow>, n: int, key: PartitionKey)
    requires
        0 <= n < rows.len(),
    ensures
        search_ended(rows.drop_last(), n, key) == search_ended(rows, n, key),
        search_ended(rows, n + 1, key) == (search_ended(rows, n, key) || (row_of(rows[n], key) && (
        rows[n].1.error_code == 0 || rows[n].1.error_code == 43))),
{
    let front = rows.drop_last();
    if search_ended(front, n, key) {
        let j = choose|j: int|
            0 <= j < n && row_of(#[trigger] front[j], key) && (front[j].1.error_code == 0
                || front[j].1.error_code == 43);
        assert(row_of(rows[j], key));
    }
    if search_ended(rows, n, key) {
        let j = choose|j: int|
            0 <= j < n && row_of(#[trigger] rows[j], key) && (rows[j].1.error_code == 0
                || rows[j].1.error_code == 43);
        assert(row_of(front[j], key));
        assert(row_of(rows[j], key));
    }
    if search_ended(rows, n + 1, key) {
        let j = choose|j: int|
            0 <= j < n + 1 && row_of(#[trigger] rows[j], key) && (rows[j].1.error_code == 0
                || rows[j].1.error_code == 43);
        assert(row_of(rows[j], key));
    }
}

/// A partition stays searched until a row without an error, or with the error of
/// a message format without timestamps, and no row touches a partition that is
/// not searched.
pub proof fn law_searches_go_on_until_an_answer(
    m: QueryModel,
    rows: Seq<ListOffsetsRow>,
    key: PartitionKey,
)
    ensures
        ({
            let after = after_query_rows(m, rows);
            &&& after.search.contains_key(key) <==> m.search.contains_key(key) && !search_ended(
                rows,
                rows.len() as int,
                key,
            )
            &&& after.search.contains_key(key) ==> after.search[key] == m.search[key]
                && after.found.contains_key(key) == m.found.contains_key(key) && after.found[key]
                == m.found[key]
            &&& !m.search.contains_key(key) ==> after.found.contains_key(key)
                == m.found.contains_key(key) && after.found[key] == m.found[key]
        }),
    decreases rows.len(),
{
    if rows.len() > 0 {
        let n = rows.len() - 1;
        law_searches_go_on_until_an_answer(m, rows.drop_last(), key);
        lemma_front_ended(rows, n, key);
    }
}

/// Whether the result of a partition is that of a row: where the row has no error
/// and an offset other than -1 its offset, its timestamp and its epoch, unless
/// that is negative, else what it was before.
pub open spec fn found_as_row(
    row: ListOffsetsRow,
    key: PartitionKey,
    found: Map<PartitionKey, OffsetAndTimestamp>,
    before: Map<PartitionKey, OffsetAndTimestamp>,
) -> bool {
    &&& row.1.error_code == 0 && row.1.offset != -1 ==> {
        &&& found.contains_key(key)
        &&& found[key].offset == row.1.offset
        &&& found[key].timestamp == row.1.timestamp
        &&& row.1.leader_epoch >= 0 ==> found[key].leader_epoch == Some(row.1.leader_epoch)
        &&& row.1.leader_epoch < 0 ==> found[key].leader_epoch is None
    }
    &&& row.1.error_code != 0 || row.1.offset == -1 ==> found.contains_key(key)
        == before.contains_key(key) && found[key] == before[key]
}

/// The row that ends the search of a partition gives its result: its offset,
/// whatever that is but -1, with its timestamp and its epoch unless that is
/// negative. The offset -1, and the error of a message format without
/// timestamps, give none.
pub proof fn law_a_search_finds_the_offset_of_its_row(
    m: QueryModel,
    rows: Seq<ListOffsetsRow>,
    i: int,
    key: PartitionKey,
)
    requires
        m.search.contains_key(key),
        ends_search(rows, i, key),
    ensures
        ({
            let after = after_query_rows(m, rows);
            &&& !after.search.contains_key(key)
            &&& found_as_row(rows[i], key, after.found, m.found)
        }),
    decreases rows.len(),
{
    let front = rows.drop_last();
    let n = rows.len() - 1;
    law_searches_go_on_until_an_answer(m, front, key);
    lemma_front_ended(rows, n, key);
    if i < n {
        assert(front[i] == rows[i]);
        assert forall|j: int| 0 <= j < i && row_of(#[trigger] front[j], key) implies
            front[j].1.error_code != 0 && front[j].1.error_code != 43 by {
            assert(row_of(rows[j], key));
        }
        law_a_search_finds_the_offset_of_its_row(m, front, i, key);
    } else {
        assert(!search_ended(front, n, key)) by {
            if search_ended(front, n, key) {
                let j = choose|j: int|
                    0 <= j < n && row_of(#[trigger] front[j], key) && (front[j].1.error_code == 0
                        || front[j].1.error_code == 43);
                assert(row_of(rows[j], key));
            }
        }
    }
}

/// Whether row `i` refuses the topic: an authorization error for a partition
/// that is searched when the row comes.
pub open spec fn refuses(m: QueryModel, rows: Seq<ListOffsetsRow>, i: int) -> bool {
    let key = (rows[i].0, rows[i].1.partition_index);
    rows[i].1.error_code == 29 && m.search.contains_key(key) && !search_ended(rows, i, key)
}

proof fn lemma_front_ended_at(rows: Seq<ListOffsetsRow>, i: int, key: PartitionKey)
    requires
        0 <= i < rows.len(),
    ensures
        search_ended(rows.drop_last(), i, key) == search_ended(rows, i, key),
{
    let front = rows.drop_last();
    if search_ended(front, i, key) {
        let j = choose|j: int|
            0 <= j < i && row_of(#[trigger] front[j], key) && (front[j].1.error_code == 0
                || front[j].1.error_code == 43);
        assert(row_of(rows[j], key));
    }
    if search_ended(rows, i, key) {
        let j = choose|j: int|
            0 <= j < i && row_of(#[trigger] rows[j], key) && (rows[j].1.error_code == 0
                || rows[j].1.error_code == 43);
        assert(row_of(front[j], key));
    }
}

/// The topics that refuse a search are those with an authorization error in a
/// row of a searched partition.
pub proof fn law_unauthorized_topics_of_a_search(
    m: QueryModel,
    rows: Seq<ListOffsetsRow>,
    topic: Seq<char>,
)
    ensures
        after_query_rows(m, rows).unauthorized.contains(topic) <==> m.unauthorized.contains(topic)
            || exists|i: int|
            0 <= i < rows.len() && (#[trigger] rows[i]).0 == topic && refuses(m, rows, i),
    decreases rows.len(),
{
    if rows.len() > 0 {
        let front = rows.drop_last();
        let n = rows.len() - 1;
        let last_key = (rows[n].0, rows[n].1.partition_index);
        law_unauthorized_topics_of_a_search(m, front, topic);
        law_searches_go_on_until_an_answer(m, front, last_key);
        lemma_front_ended_at(rows, n, last_key);
        assert forall|i: int| 0 <= i < front.len() implies refuses(m, front, i) == #[trigger]
        refuses(m, rows, i) by {
            lemma_front_ended_at(rows, i, (rows[i].0, rows[i].1.partition_index));
        }
        if exists|i: int|
            0 <= i < front.len() && (#[trigger] front[i]).0 == topic && refuses(m, front, i) {
            let i = choose|i: int|
                0 <= i < front.len() && (#[trigger] front[i]).0 == topic && refuses(m, front, i);
            assert(rows[i].0 == topic && refuses(m, rows, i));
        }
        if exists|i: int|
            0 <= i < rows.len() && (#[trigger] rows[i]).0 == topic && refuses(m, rows, i) {
            let i = choose|i: int|
                0 <= i < rows.len() && (#[trigger] rows[i]).0 == topic && refuses(m, rows, i);
            if i < n {
                assert(front[i].0 == topic && refuses(m, front, i));
            } else {
                assert(refuses(m, rows, n));
            }
        }
        assert(rows[n].0 == rows.last().0);
    }
}

/// The result of one row, by its error code and offset alone.
pub proof fn law_a_query_row(error_code: i16, offset: i64, timestamp: i64, leader_epoch: i32)
    ensures
        ({
            let r = query_row(error_code, offset, timestamp, leader_epoch);
            &&& r is Found <==> error_code == 0 && offset != -1
            &&& r is NotFound <==> error_code == 0 && offset == -1 || error_code == 43
            &&& r is Unauthorized <==> error_code == 29
            &&& r matches QueryRow::Found(found) ==> found.offset == offset && found.timestamp
                == timestamp && (found.leader_epoch is Some <==> leader_epoch >= 0) && (
            found.leader_epoch is Some ==> found.leader_epoch->Some_0 == leader_epoch)
        }),
{
}

/// Whether the metadata names a broker with an id.
pub open spec fn has_broker(brokers: Seq<MetadataBroker>, id: i32) -> bool {
    exists|b: int| 0 <= b < brokers.len() && (#[trigger] brokers[b]).node_id == id
}

/// Whether broker `b` is the first of the metadata with an id.
pub open spec fn first_broker(brokers: Seq<MetadataBroker>, b: int, id: i32) -> bool {
    &&& 0 <= b < brokers.len()
    &&& brokers[b].node_id == id
    &&& forall|c: int| 0 <= c < b ==> (#[trigger] brokers[c]).node_id != id
}

/// Whether a node is the broker of the metadata with an id: the first one, where
/// several have it. Where none has it the node has no address.
pub open spec fn is_node(node: Node, id: i32, brokers: Seq<MetadataBroker>) -> bool {
    &&& node.id == id
    &&& forall|b: int| #[trigger]
        first_broker(brokers, b, id) ==> {
            &&& node.host@ == brokers[b].host@
            &&& node.port == brokers[b].port
            &&& node.rack is Some <==> brokers[b].rack is Some
            &&& node.rack is Some ==> node.rack->Some_0@ == brokers[b].rack->Some_0@
        }
    &&& !has_broker(brokers, id) ==> node.host@.len() == 0 && node.port == -1 && node.rack is None
}

/// Whether nodes are those of ids, one for one in their order.
pub open spec fn are_nodes(nodes: Seq<Node>, ids: Seq<i32>, brokers: Seq<MetadataBroker>) -> bool {
    &&& nodes.len() == ids.len()
    &&& forall|i: int| 0 <= i < ids.len() ==> is_node(#[trigger] nodes[i], ids[i], brokers)
}

/// Whether the metadata of a partition is reported: the leader is the broker
/// with the leader id, and none where the metadata has no such broker; the
/// replicas are those of the three lists.
pub open spec fn reports_partition(
    info: PartitionInfo,
    name: Seq<char>,
    p: MetadataPartition,
    brokers: Seq<MetadataBroker>,
) -> bool {
    &&& info.topic@ == name
    &&& info.partition == p.partition_index
    &&& info.leader is Some <==> has_broker(brokers, p.leader_id)
    &&& info.leader is Some ==> is_node(info.leader->Some_0, p.leader_id, brokers)
    &&& are_nodes(info.replicas@, p.replica_nodes@, brokers)
    &&& are_nodes(info.in_sync_replicas@, p.isr_nodes@, brokers)
    &&& are_nodes(info.offline_replicas@, p.offline_replicas@, brokers)
}

/// Whether topic `t` is reported under its name: it has no error, and no later
/// topic without an error has the same name.
pub open spec fn last_of_its_name(topics: Seq<MetadataTopic>, t: int) -> bool {
    &&& 0 <= t < topics.len()
    &&& topics[t].error_code == 0
    &&& topics[t].name is Some
    &&& forall|u: int|
        t < u < topics.len() && (#[trigger] topics[u]).error_code == 0 && topics[u].name is Some
            ==> topics[u].name->Some_0@ != topics[t].name->Some_0@
}

proof fn lemma_broker_with(brokers: Seq<MetadataBroker>, id: i32)
    ensures
        broker_with(brokers, id) is Some <==> has_broker(brokers, id),
        forall|b: int| #[trigger]
            first_broker(brokers, b, id) ==> broker_with(brokers, id) == Some(brokers[b]),
    decreases brokers.len(),
{
    if brokers.len() > 0 {
        let front = brokers.drop_last();
        let n = brokers.len() - 1;
        lemma_broker_with(front, id);
        if has_broker(front, id) {
            let b = choose|b: int| 0 <= b < front.len() && (#[trigger] front[b]).node_id == id;
            assert(brokers[b].node_id == id);
        }
        if has_broker(brokers, id) {
            let b = choose|b: int| 0 <= b < brokers.len() && (#[trigger] brokers[b]).node_id == id;
            if b < n {
                assert(front[b].node_id == id);
            }
        }
        if brokers[n].node_id == id {
            assert(has_broker(brokers, id));
        }
        assert forall|b: int| #[trigger] first_broker(brokers, b, id) implies broker_with(
            brokers,
            id,
        ) == Some(brokers[b]) by {
            if b < n {
                assert(first_broker(front, b, id)) by {
                    assert(front[b].node_id == id);
                    assert forall|c: int| 0 <= c < b implies (#[trigger] front[c]).node_id
                        != id by {
                        assert(brokers[c].node_id != id);
                    }
                }
            } else {
                if has_broker(front, id) {
                    let c = choose|c: int|
                        0 <= c < front.len() && (#[trigger] front[c]).node_id == id;
                    assert(brokers[c].node_id != id);
                }
            }
        }
    }
}

proof fn lemma_is_node(node: Node, id: i32, brokers: Seq<MetadataBroker>)
    requires
        node@ == node_of(brokers, id),
    ensures
        is_node(node, id, brokers),
{
    lemma_broker_with(brokers, id);
    assert(node@.id == id);
    assert forall|b: int| #[trigger] first_broker(brokers, b, id) implies {
        &&& node.host@ == brokers[b].host@
        &&& node.port == brokers[b].port
        &&& node.rack is Some <==> brokers[b].rack is Some
        &&& node.rack is Some ==> node.rack->Some_0@ == brokers[b].rack->Some_0@
    } by {
        assert(node@.host == brokers[b].host@);
        assert(node@.rack == optional_text(brokers[b].rack));
    }
}

proof fn lemma_are_nodes(nodes: Seq<Node>, ids: Seq<i32>, brokers: Seq<MetadataBroker>)
    requires
        node_views(nodes) == nodes_of(brokers, ids),
    ensures
        are_nodes(nodes, ids, brokers),
{
    assert(node_views(nodes).len() == nodes.len());
    assert(nodes_of(brokers, ids).len() == ids.len());
    assert forall|i: int| 0 <= i < ids.len() implies is_node(
        #[trigger] nodes[i],
        ids[i],
        brokers,
    ) by {
        assert(node_views(nodes)[i] == nodes[i]@);
        assert(nodes_of(brokers, ids)[i] == node_of(brokers, ids[i]));
        lemma_is_node(nodes[i], ids[i], brokers);
    }
}

/// The metadata that is reported of a partition is that of its own leader id and
/// its own lists.
pub proof fn law_partition_info(
    info: PartitionInfo,
    name: Seq<char>,
    p: MetadataPartition,
    brokers: Seq<MetadataBroker>,
)
    requires
        info@ == info_of(brokers, name, p),
    ensures
        reports_partition(info, name, p, brokers),
{
    lemma_broker_with(brokers, p.leader_id);
    lemma_are_nodes(info.replicas@, p.replica_nodes@, brokers);
    lemma_are_nodes(info.in_sync_replicas@, p.isr_nodes@, brokers);
    lemma_are_nodes(info.offline_replicas@, p.offline_replicas@, brokers);
}

proof fn lemma_topic_infos(brokers: Seq<MetadataBroker>, topics: Seq<MetadataTopic>)
    ensures
        forall|t: int| #[trigger]
            last_of_its_name(topics, t) ==> {
                let name = topics[t].name->Some_0@;
                &&& topic_infos(brokers, topics).contains_key(name)
                &&& topic_infos(brokers, topics)[name] == infos_of(
                    brokers,
                    name,
                    topics[t].partitions@,
                )
            },
        forall|name: Seq<char>| #[trigger]
            topic_infos(brokers, topics).contains_key(name) ==> names_topic(topics, name),
    decreases topics.len(),
{
    if topics.len() > 0 {
        let front = topics.drop_last();
        let n = topics.len() - 1;
        lemma_topic_infos(brokers, front);
        assert forall|t: int| #[trigger] last_of_its_name(topics, t) implies {
            let name = topics[t].name->Some_0@;
            &&& topic_infos(brokers, topics).contains_key(name)
            &&& topic_infos(brokers, topics)[name] == infos_of(
                brokers,
                name,
                topics[t].partitions@,
            )
        } by {
            if t < n {
                assert(last_of_its_name(front, t)) by {
                    assert(front[t] == topics[t]);
                    assert forall|u: int|
                        t < u < front.len() && (#[trigger] front[u]).error_code == 0
                            && front[u].name is Some implies front[u].name->Some_0@
                        != front[t].name->Some_0@ by {
                        assert(topics[u] == front[u]);
                    }
                }
                assert(topics[n] == topics.last());
            }
        }
        assert forall|name: Seq<char>| #[trigger]
            topic_infos(brokers, topics).contains_key(name) implies names_topic(topics, name) by {
            if topic_infos(brokers, front).contains_key(name) {
                let t = choose|t: int|
                    0 <= t < front.len() && (#[trigger] front[t]).error_code == 0
                        && front[t].name is Some && front[t].name->Some_0@ == name;
                assert(topics[t] == front[t]);
            } else {
                assert(topics[n] == topics.last());
            }
        }
    }
}

/// Whether a topic without an error has a name.
pub open spec fn names_topic(topics: Seq<MetadataTopic>, name: Seq<char>) -> bool {
    exists|t: int|
        0 <= t < topics.len() && (#[trigger] topics[t]).error_code == 0 && topics[t].name is Some
            && topics[t].name->Some_0@ == name
}

/// Whether the partitions of topics are reported: of each topic without an
/// error, all partitions in their order, and nothing else.
pub open spec fn reports_topics(
    infos: Map<Seq<char>, Vec<PartitionInfo>>,
    metadata: MetadataResponse,
) -> bool {
    &&& forall|name: Seq<char>| #[trigger]
        infos.contains_key(name) ==> names_topic(metadata.topics@, name)
    &&& forall|t: int| #[trigger]
        last_of_its_name(metadata.topics@, t) ==> {
            let topic = metadata.topics@[t];
            let name = topic.name->Some_0@;
            &&& infos.contains_key(name)
            &&& infos[name]@.len() == topic.partitions@.len()
            &&& forall|p: int|
                0 <= p < topic.partitions@.len() ==> reports_partition(
                    #[trigger] infos[name]@[p],
                    name,
                    topic.partitions@[p],
                    metadata.brokers@,
                )
        }
}

/// The partitions that a metadata answer reports are those of its topics.
pub proof fn law_topic_infos_are_those_of_the_metadata(
    infos: Map<Seq<char>, Vec<PartitionInfo>>,
    metadata: MetadataResponse,
)
    requires
        infos_as(infos, topic_infos(metadata.brokers@, metadata.topics@)),
    ensures
        reports_topics(infos, metadata),
{
    let brokers = metadata.brokers@;
    let topics = metadata.topics@;
    let model = topic_infos(brokers, topics);
    lemma_topic_infos(brokers, topics);
    assert forall|name: Seq<char>| #[trigger] infos.contains_key(name) implies names_topic(
        topics,
        name,
    ) by {
        assert(infos.dom().contains(name));
        assert(model.contains_key(name));
    }
    assert forall|t: int| #[trigger] last_of_its_name(topics, t) implies {
        let topic = topics[t];
        let name = topic.name->Some_0@;
        &&& infos.contains_key(name)
        &&& infos[name]@.len() == topic.partitions@.len()
        &&& forall|p: int|
            0 <= p < topic.partitions@.len() ==> reports_partition(
                #[trigger] infos[name]@[p],
                name,
                topic.partitions@[p],
                brokers,
            )
    } by {
        let topic = topics[t];
        let name = topic.name->Some_0@;
        assert(model.contains_key(name));
        assert(infos.dom().contains(name));
        assert(info_views(infos[name]@) == infos_of(brokers, name, topic.partitions@));
        assert(info_views(infos[name]@).len() == topic.partitions@.len());
        assert forall|p: int| 0 <= p < topic.partitions@.len() implies reports_partition(
            #[trigger] infos[name]@[p],
            name,
            topic.partitions@[p],
            brokers,
        ) by {
            assert(info_views(infos[name]@)[p] == infos_of(brokers, name, topic.partitions@)[p]);
            law_partition_info(infos[name]@[p], name, topic.partitions@[p], brokers);
        }
    }
}

/// The codes of retriable errors.
pub proof fn law_retriable_codes(code: i16)
    ensures
        retriable_code(code) <==> seq![
            2i16,
            3,
            5,
            6,
            7,
            9,
            13,
            14,
            15,
            16,
            19,
            20,
            41,
            51,
            56,
            70,
            71,
            72,
            74,
            75,
            78,
            80,
            83,
            84,
            88,
            89,
            100,
            103,
            106,
            122,
            123,
            133,
        ].contains(code),
{
    let codes = seq![
        2i16,
        3,
        5,
        6,
        7,
        9,
        13,
        14,
        15,
        16,
        19,
        20,
        41,
        51,
        56,
        70,
        71,
        72,
        74,
        75,
        78,
        80,
        83,
        84,
        88,
        89,
        100,
        103,
        106,
        122,
        123,
        133,
    ];
    assert(codes.contains(code) <==> retriable_code(code)) by {
        assert(codes[0] == 2 && codes[1] == 3 && codes[2] == 5 && codes[3] == 6 && codes[4] == 7
            && codes[5] == 9 && codes[6] == 13 && codes[7] == 14 && codes[8] == 15 && codes[9] == 16
            && codes[10] == 19 && codes[11] == 20 && codes[12] == 41 && codes[13] == 51
            && codes[14] == 56 && codes[15] == 70 && codes[16] == 71 && codes[17] == 72
            && codes[18] == 74 && codes[19] == 75 && codes[20] == 78 && codes[21] == 80
            && codes[22] == 83 && codes[23] == 84 && codes[24] == 88 && codes[25] == 89
            && codes[26] == 100 && codes[27] == 103 && codes[28] == 106 && codes[29] == 122
            && codes[30] == 123 && codes[31] == 133);
        assert(codes.len() == 32);
    }
}

/// Whether a topic error ends a metadata call: any but that of an unknown topic,
/// which is left out, and the retriable ones. That of an invalid name always
/// does.
pub open spec fn ends_metadata_call(code: i16) -> bool {
    code != 0 && code != 3 && (code == 17 || !retriable_code(code))
}

proof fn lemma_no_topic_error(topics: Seq<MetadataTopic>)
    requires
        forall|i: int| 0 <= i < topics.len() ==> !ends_call(#[trigger] topics[i]),
    ensures
        first_topic_error(topics) is None,
    decreases topics.len(),
{
    if topics.len() > 0 {
        let front = topics.drop_last();
        assert forall|i: int| 0 <= i < front.len() implies !ends_call(#[trigger] front[i]) by {
            assert(topics[i] == front[i]);
        }
        lemma_no_topic_error(front);
        assert(topics[topics.len() - 1] == topics.last());
    }
}

proof fn lemma_first_topic_error(topics: Seq<MetadataTopic>, i: int)
    requires
        0 <= i < topics.len(),
        ends_call(topics[i]),
        forall|j: int| 0 <= j < i ==> !ends_call(#[trigger] topics[j]),
    ensures
        first_topic_error(topics) == Some((topics[i].error_code, name_or_empty(topics[i]))),
    decreases topics.len(),
{
    let front = topics.drop_last();
    assert forall|j: int| 0 <= j < i implies !ends_call(#[trigger] front[j]) by {
        assert(topics[j] == front[j]);
    }
    if i < topics.len() - 1 {
        assert(front[i] == topics[i]);
        lemma_first_topic_error(front, i);
    } else {
        lemma_no_topic_error(front);
    }
}

/// Whether the error of a topic ends a metadata call.
pub open spec fn ends_call(topic: MetadataTopic) -> bool {
    ends_metadata_call(topic.error_code)
}

/// The name of a topic, empty where it has none.
pub open spec fn name_or_empty(topic: MetadataTopic) -> Seq<char> {
    match topic.name {
        Some(name) => name@,
        None => Seq::empty(),
    }
}

/// Whether a named topic of the metadata is not authorized.
pub open spec fn topic_refused(topics: Seq<MetadataTopic>, name: Seq<char>) -> bool {
    exists|t: int|
        0 <= t < topics.len() && (#[trigger] topics[t]).error_code == 29 && topics[t].name is Some
            && topics[t].name->Some_0@ == name
}

/// A metadata call fails where a topic is not authorized, with all such topics;
/// else with the first topic error that ends it; else it is sent again where a
/// topic has another retriable error than that of an unknown topic.
pub proof fn law_topic_errors_of_a_metadata_call(
    metadata: MetadataResponse,
    result: Result<Option<SortedMap<String, Vec<PartitionInfo>>>, ConsumerError>,
)
    requires
        infos_result(metadata, result),
    ensures
        ({
            let topics = metadata.topics@;
            &&& (exists|name: Seq<char>| #[trigger] topic_refused(topics, name)) ==> {
                &&& result is Err
                &&& result->Err_0 is TopicAuthorizationFailed
                &&& forall|name: Seq<char>|
                    result->Err_0->TopicAuthorizationFailed_0@.contains(name) <==> #[trigger]
                    topic_refused(topics, name)
            }
            &&& (forall|name: Seq<char>| !#[trigger] topic_refused(topics, name)) ==> {
                &&& forall|t: int|
                    0 <= t < topics.len() && ends_metadata_call((#[trigger] topics[t]).error_code)
                        && (forall|u: int|
                        0 <= u < t ==> !ends_metadata_call((#[trigger] topics[u]).error_code)) ==> {
                        &&& result is Err
                        &&& topics[t].error_code != 17 ==> result->Err_0 == ConsumerError::Server(
                            topics[t].error_code,
                        )
                        &&& topics[t].error_code == 17 ==> result->Err_0 is InvalidTopic
                        &&& topics[t].error_code == 17 && topics[t].name is Some
                            ==> result->Err_0->InvalidTopic_0@ == topics[t].name->Some_0@
                    }
                &&& result is Ok <==> (forall|t: int|
                    0 <= t < topics.len() ==> !ends_metadata_call(
                        (#[trigger] topics[t]).error_code,
                    ))
                &&& (result matches Ok(Some(_))) <==> (forall|t: int|
                    0 <= t < topics.len() ==> (#[trigger] topics[t]).error_code == 0
                        || topics[t].error_code == 3)
            }
        }),
{
    let topics = metadata.topics@;
    let refused = named_with_code(topics, 29, None);
    assert forall|name: Seq<char>| refused.contains(name) <==> #[trigger] topic_refused(
        topics,
        name,
    ) by {
        if refused.contains(name) {
            let t = choose|t: int|
                0 <= t < topics.len() && topic_name(#[trigger] topics[t]) == Some(name)
                    && topics[t].error_code == 29;
            assert(topics[t].error_code == 29);
        }
        if topic_refused(topics, name) {
            let t = choose|t: int|
                0 <= t < topics.len() && (#[trigger] topics[t]).error_code == 29
                    && topics[t].name is Some && topics[t].name->Some_0@ == name;
            assert(topic_name(topics[t]) == Some(name));
        }
    }
    if exists|name: Seq<char>| #[trigger] topic_refused(topics, name) {
        let name = choose|name: Seq<char>| #[trigger] topic_refused(topics, name);
        assert(refused.contains(name));
    } else {
        assert forall|name: Seq<char>| !#[trigger] refused.contains(name) by {
            assert(!topic_refused(topics, name));
        }
        assert(refused =~= Set::empty());
        if forall|t: int| 0 <= t < topics.len() ==> !ends_call(#[trigger] topics[t]) {
            lemma_no_topic_error(topics);
            if has_retriable_topic(topics) {
                let t = choose|t: int|
                    0 <= t < topics.len() && (#[trigger] topics[t]).error_code != 3
                        && retriable_code(topics[t].error_code);
                assert(topics[t].error_code != 0);
            } else {
                assert forall|t: int| 0 <= t < topics.len() implies (
                #[trigger] topics[t]).error_code == 0 || topics[t].error_code == 3 by {
                    assert(!ends_call(topics[t]));
                }
            }
        } else {
            let t = choose|t: int| 0 <= t < topics.len() && ends_call(#[trigger] topics[t]);
            let first = lemma_first_ending(topics, t);
            lemma_first_topic_error(topics, first);
            assert(ends_metadata_call(topics[first].error_code));
            assert(topics[first].error_code != 0 && topics[first].error_code != 3);
        }
    }
}

/// Where a topic ends the call, one is the first that does.
proof fn lemma_first_ending(topics: Seq<MetadataTopic>, t: int) -> (first: int)
    requires
        0 <= t < topics.len(),
        ends_call(topics[t]),
    ensures
        0 <= first <= t,
        ends_call(topics[first]),
        forall|u: int| 0 <= u < first ==> !ends_call(#[trigger] topics[u]),
    decreases t,
{
    if exists|u: int| 0 <= u < t && ends_call(#[trigger] topics[u]) {
        let u = choose|u: int| 0 <= u < t && ends_call(#[trigger] topics[u]);
        lemma_first_ending(topics, u)
    } else {
        t
    }
}

/// Whether partition `p` of topic `t` names a leader of `key`.
pub open spec fn names_leader(
    topics: Seq<MetadataTopic>,
    t: int,
    p: int,
    key: PartitionKey,
) -> bool {
    &&& 0 <= t < topics.len()
    &&& 0 <= p < topics[t].partitions@.len()
    &&& topics[t].error_code == 0
    &&& topics[t].name is Some
    &&& topics[t].name->Some_0@ == key.0
    &&& topics[t].partitions@[p].partition_index == key.1
    &&& topics[t].partitions@[p].leader_id >= 0
}

/// Whether it is the last that does.
pub open spec fn last_leader(
    topics: Seq<MetadataTopic>,
    t: int,
    p: int,
    key: PartitionKey,
) -> bool {
    &&& names_leader(topics, t, p, key)
    &&& forall|u: int, q: int| #[trigger]
        names_leader(topics, u, q, key) ==> u < t || (u == t && q <= p)
}

proof fn lemma_topic_leaders(
    leaders: Map<PartitionKey, LeaderAndEpoch>,
    name: Seq<char>,
    partitions: Seq<MetadataPartition>,
    key: PartitionKey,
)
    ensures
        ({
            let after = topic_leaders(leaders, name, partitions);
            &&& forall|p: int|
                0 <= p < partitions.len() && (#[trigger] partitions[p]).partition_index == key.1
                    && partitions[p].leader_id >= 0 && name == key.0 && (forall|q: int|
                    p < q < partitions.len() && (#[trigger] partitions[q]).partition_index == key.1
                        ==> partitions[q].leader_id < 0) ==> after.contains_key(key) && after[key]
                    == (partitions[p].leader_id, partitions[p].leader_epoch)
            &&& (name != key.0 || forall|p: int|
                0 <= p < partitions.len() && (#[trigger] partitions[p]).partition_index == key.1
                    ==> partitions[p].leader_id < 0) ==> after.contains_key(key)
                == leaders.contains_key(key) && after[key] == leaders[key]
        }),
    decreases partitions.len(),
{
    if partitions.len() > 0 {
        let front = partitions.drop_last();
        let n = partitions.len() - 1;
        let after = topic_leaders(leaders, name, partitions);
        lemma_topic_leaders(leaders, name, front, key);
        assert(partitions[n] == partitions.last());
        assert forall|p: int|
            0 <= p < partitions.len() && (#[trigger] partitions[p]).partition_index == key.1
                && partitions[p].leader_id >= 0 && name == key.0 && (forall|q: int|
                p < q < partitions.len() && (#[trigger] partitions[q]).partition_index == key.1
                    ==> partitions[q].leader_id < 0) implies after.contains_key(key) && after[key]
            == (partitions[p].leader_id, partitions[p].leader_epoch) by {
            if p < n {
                assert(front[p] == partitions[p]);
                assert forall|q: int|
                    p < q < front.len() && (#[trigger] front[q]).partition_index
                        == key.1 implies front[q].leader_id < 0 by {
                    assert(partitions[q] == front[q]);
                }
            }
        }
        if forall|p: int|
            0 <= p < partitions.len() && (#[trigger] partitions[p]).partition_index == key.1
                ==> partitions[p].leader_id < 0 {
            assert forall|p: int|
                0 <= p < front.len() && (#[trigger] front[p]).partition_index
                    == key.1 implies front[p].leader_id < 0 by {
                assert(partitions[p] == front[p]);
            }
        }
    }
}

/// The leader of a partition is that of the last metadata row of the partition
/// with a leader, in a topic without an error, with the epoch of that row. A
/// partition without such a row has none.
pub proof fn law_leaders_are_those_of_the_metadata(topics: Seq<MetadataTopic>, key: PartitionKey)
    ensures
        leaders_of(topics).contains_key(key) ==> exists|t: int, p: int| #[trigger]
            names_leader(topics, t, p, key),
        forall|t: int, p: int| #[trigger]
            last_leader(topics, t, p, key) ==> {
                let row = topics[t].partitions@[p];
                &&& leaders_of(topics).contains_key(key)
                &&& leaders_of(topics)[key].0 == row.leader_id
                &&& leaders_of(topics)[key].1 == row.leader_epoch
            },
    decreases topics.len(),
{
    if topics.len() > 0 {
        let front = topics.drop_last();
        let n = topics.len() - 1;
        let topic = topics.last();
        let before = leaders_of(front);
        assert(topics[n] == topic);
        law_leaders_are_those_of_the_metadata(front, key);
        assert forall|t: int, p: int| #[trigger]
            names_leader(front, t, p, key) implies names_leader(topics, t, p, key) by {
            assert(front[t] == topics[t]);
        }
        if topic.name is Some {
            lemma_topic_leaders(before, topic.name->Some_0@, topic.partitions@, key);
        }
        if leaders_of(topics).contains_key(key) && !before.contains_key(key) {
            assert(topic.name is Some && topic.error_code == 0);
            let p = choose|p: int|
                0 <= p < topic.partitions@.len() && (
                #[trigger] topic.partitions@[p]).partition_index == key.1
                    && topic.partitions@[p].leader_id >= 0;
            assert(names_leader(topics, n, p, key));
        }
        if leaders_of(topics).contains_key(key) && before.contains_key(key) {
            let (t, p) = choose|t: int, p: int| #[trigger] names_leader(front, t, p, key);
            assert(names_leader(topics, t, p, key));
        }
        assert forall|t: int, p: int| #[trigger] last_leader(topics, t, p, key) implies {
            let row = topics[t].partitions@[p];
            &&& leaders_of(topics).contains_key(key)
            &&& leaders_of(topics)[key].0 == row.leader_id
            &&& leaders_of(topics)[key].1 == row.leader_epoch
        } by {
            if t < n {
                assert(front[t] == topics[t]);
                assert(names_leader(front, t, p, key));
                assert(last_leader(front, t, p, key));
                if topic.name is Some && topic.error_code == 0 && topic.name->Some_0@ == key.0 {
                    assert forall|q: int|
                        0 <= q < topic.partitions@.len() && (
                        #[trigger] topic.partitions@[q]).partition_index
                            == key.1 implies topic.partitions@[q].leader_id < 0 by {
                        if topic.partitions@[q].leader_id >= 0 {
                            assert(names_leader(topics, n, q, key));
                        }
                    }
                }
            } else {
                assert forall|q: int|
                    p < q < topic.partitions@.len() && (
                    #[trigger] topic.partitions@[q]).partition_index
                        == key.1 implies topic.partitions@[q].leader_id < 0 by {
                    if topic.partitions@[q].leader_id >= 0 {
                        assert(names_leader(topics, n, q, key));
                    }
                }
            }
        }
    }
}

/// No topic is invalid where none that the search asks for has the error of an
/// invalid name.
pub proof fn law_no_invalid_topic(topics: Seq<MetadataTopic>, wanted: Set<Seq<char>>)
    requires
        forall|i: int| 0 <= i < topics.len() ==> !invalid_topic(#[trigger] topics[i], wanted),
    ensures
        first_invalid(topics, wanted) is None,
    decreases topics.len(),
{
    if topics.len() > 0 {
        let front = topics.drop_last();
        assert forall|i: int| 0 <= i < front.len()
            implies !invalid_topic(#[trigger] front[i], wanted) by {
            assert(topics[i] == front[i]);
        }
        law_no_invalid_topic(front, wanted);
        assert(topics[topics.len() - 1] == topics.last());
    }
}

/// The invalid topic of a search is the first one.
pub proof fn law_first_invalid_topic(topics: Seq<MetadataTopic>, wanted: Set<Seq<char>>, i: int)
    requires
        0 <= i < topics.len(),
        invalid_topic(topics[i], wanted),
        forall|j: int| 0 <= j < i ==> !invalid_topic(#[trigger] topics[j], wanted),
    ensures
        first_invalid(topics, wanted) == Some(topics[i].name->Some_0@),
    decreases topics.len(),
{
    let front = topics.drop_last();
    assert forall|j: int| 0 <= j < i implies !invalid_topic(#[trigger] front[j], wanted) by {
        assert(topics[j] == front[j]);
    }
    if i < topics.len() - 1 {
        assert(front[i] == topics[i]);
        law_first_invalid_topic(front, wanted, i);
    } else {
        law_no_invalid_topic(front, wanted);
    }
}

/// Whether a topic that is asked for has an invalid name.
pub open spec fn invalid_topic(topic: MetadataTopic, wanted: Set<Seq<char>>) -> bool {
    topic.error_code == 17 && topic.name is Some && wanted.contains(topic.name->Some_0@)
}

/// A search by timestamp is accepted where no timestamp is negative.
pub proof fn law_no_negative_timestamp(keys: Seq<PartitionKey>, timestamps: Map<PartitionKey, i64>)
    requires
        forall|i: int| 0 <= i < keys.len() ==> !is_negative(#[trigger] keys[i], timestamps),
    ensures
        first_negative(keys, timestamps) is None,
    decreases keys.len(),
{
    if keys.len() > 0 {
        let front = keys.drop_last();
        assert forall|i: int| 0 <= i < front.len()
            implies !is_negative(#[trigger] front[i], timestamps) by {
            assert(keys[i] == front[i]);
        }
        law_no_negative_timestamp(front, timestamps);
        assert(keys[keys.len() - 1] == keys.last());
    }
}

/// A search by timestamp is refused for its first partition with a negative one.
pub proof fn law_first_negative_timestamp(
    keys: Seq<PartitionKey>,
    timestamps: Map<PartitionKey, i64>,
    i: int,
)
    requires
        0 <= i < keys.len(),
        is_negative(keys[i], timestamps),
        forall|j: int| 0 <= j < i ==> !is_negative(#[trigger] keys[j], timestamps),
    ensures
        first_negative(keys, timestamps) == Some(keys[i]),
    decreases keys.len(),
{
    let front = keys.drop_last();
    assert forall|j: int| 0 <= j < i implies !is_negative(#[trigger] front[j], timestamps) by {
        assert(keys[j] == front[j]);
    }
    if i < keys.len() - 1 {
        assert(front[i] == keys[i]);
        law_first_negative_timestamp(front, timestamps, i);
    } else {
        law_no_negative_timestamp(front, timestamps);
    }
}

/// Whether the timestamp of a partition is negative.
pub open spec fn is_negative(key: PartitionKey, timestamps: Map<PartitionKey, i64>) -> bool {
    timestamps[key] < 0
}

proof fn lemma_queries_for(
    keys: Seq<PartitionKey>,
    search: Map<PartitionKey, i64>,
    leaders: Map<PartitionKey, LeaderAndEpoch>,
    known: Set<i32>,
    broker: i32,
    query: QueryKey,
)
    ensures
        queries_for(keys, search, leaders, known, broker).contains(query) <==> {
            &&& keys.contains(query.0)
            &&& known.contains(broker)
            &&& leaders.contains_key(query.0)
            &&& leaders[query.0].0 == broker
            &&& query.1 == leaders[query.0].1
            &&& query.2 == search[query.0]
        },
    decreases keys.len(),
{
    if keys.len() > 0 {
        let front = keys.drop_last();
        let key = keys.last();
        let before = queries_for(front, search, leaders, known, broker);
        let own = (key, leaders[key].1, search[key]);
        lemma_queries_for(front, search, leaders, known, broker, query);
        lemma_pushed(front, key, query.0);
        assert(front.push(key) =~= keys);
        lemma_pushed(before, own, query);
    }
}

proof fn lemma_query_rows(list: Seq<QueryKey>, topic: Seq<char>, row: ListOffsetsPartition)
    ensures
        query_rows(list, topic).contains(row) <==> list.contains(
            (
                (topic, row.partition_index),
                row.current_leader_epoch,
                row.timestamp,
            ),
        ),
    decreases list.len(),
{
    if list.len() > 0 {
        let front = list.drop_last();
        let query = ((topic, row.partition_index), row.current_leader_epoch, row.timestamp);
        lemma_query_rows(front, topic, row);
        assert(front.push(list.last()) =~= list);
        lemma_pushed(front, list.last(), query);
        lemma_pushed(
            query_rows(front, topic),
            ListOffsetsPartition {
                partition_index: list.last().0.1,
                current_leader_epoch: list.last().1,
                timestamp: list.last().2,
            },
            row,
        );
    }
}

/// Whether a request asks for a partition with an epoch and a timestamp.
pub open spec fn asks_for(
    request: ListOffsetsRequest,
    key: PartitionKey,
    epoch: i32,
    timestamp: i64,
) -> bool {
    exists|t: int|
        0 <= t < request.topics@.len() && (#[trigger] request.topics@[t]).name@ == key.0
            && request.topics@[t].partitions@.contains(
            (ListOffsetsPartition {
                partition_index: key.1,
                current_leader_epoch: epoch,
                timestamp,
            }),
        )
}

/// A round of a search asks for a partition, of a broker, exactly where the
/// partition is searched and that broker leads it and is known; with the epoch
/// of the leader and the searched timestamp. The version of a request supports
/// its isolation level and timestamps.
pub proof fn law_a_round_asks_each_leader_for_its_partitions(
    consumer: Consumer,
    search: OffsetSearch,
    leaders: Map<PartitionKey, LeaderAndEpoch>,
    requests: Seq<(i32, VersionedListOffsets)>,
    key: PartitionKey,
    broker: i32,
    epoch: i32,
    timestamp: i64,
)
    requires
        consumer.round_requests(search, leaders, requests),
        search.search.keys_listed(),
    ensures
        (exists|i: int|
            0 <= i < requests.len() && (#[trigger] requests[i]).0 == broker && asks_for(
                requests[i].1.request,
                key,
                epoch,
                timestamp,
            )) <==> {
            &&& search.search@.contains_key(key)
            &&& search.search@[key] == timestamp
            &&& leaders.contains_key(key)
            &&& leaders[key].0 == broker
            &&& leaders[key].1 == epoch
            &&& consumer.known_brokers@.contains(broker)
        },
        forall|i: int|
            0 <= i < requests.len() ==> {
                let level = consumer.settings.isolation_level;
                &&& (#[trigger] requests[i]).1.request.isolation_level == if level
                    == IsolationLevel::ReadCommitted {
                    1i8
                } else {
                    0i8
                }
                &&& requests[i].1.min_version == if level == IsolationLevel::ReadCommitted {
                    2i16
                } else if search.require_timestamps {
                    1i16
                } else {
                    0i16
                }
                &&& requests[i].1.request.replica_id == -1
            },
{
    let keys = search.search.keys();
    let known = consumer.known_brokers@;
    let query = (key, epoch, timestamp);
    let list = queries_for(keys, search.search@, leaders, known, broker);
    let row = ListOffsetsPartition {
        partition_index: key.1,
        current_leader_epoch: epoch,
        timestamp,
    };
    lemma_queries_for(keys, search.search@, leaders, known, broker, query);
    lemma_query_rows(list, key.0, row);
    assert(keys.contains(key) <==> search.search@.contains_key(key));
    if list.contains(query) {
        assert(list.len() > 0);
        let i = choose|i: int| 0 <= i < requests.len() && (#[trigger] requests[i]).0 == broker;
        assert(consumer.round_request(search, leaders, requests[i].0, requests[i].1));
        let request = requests[i].1.request;
        assert(query_rows(list, key.0).len() > 0);
        assert(request_names(request.topics@).contains(key.0));
        let t = choose|t: int|
            0 <= t < request_names(request.topics@).len() && request_names(request.topics@)[t]
                == key.0;
        assert(request.topics@[t].name@ == key.0);
        assert(asks_for(request, key, epoch, timestamp));
        assert(requests[i].0 == broker);
    }
    if exists|i: int|
        0 <= i < requests.len() && (#[trigger] requests[i]).0 == broker && asks_for(
            requests[i].1.request,
            key,
            epoch,
            timestamp,
        ) {
        let i = choose|i: int|
            0 <= i < requests.len() && (#[trigger] requests[i]).0 == broker && asks_for(
                requests[i].1.request,
                key,
                epoch,
                timestamp,
            );
        assert(consumer.round_request(search, leaders, requests[i].0, requests[i].1));
        let request = requests[i].1.request;
        let t = choose|t: int|
            0 <= t < request.topics@.len() && (#[trigger] request.topics@[t]).name@ == key.0
                && request.topics@[t].partitions@.contains(row);
        assert(request.topics@[t].partitions@ == query_rows(list, key.0));
    }
    assert forall|i: int| 0 <= i < requests.len() implies {
        let level = consumer.settings.isolation_level;
        &&& (#[trigger] requests[i]).1.request.isolation_level == if level
            == IsolationLevel::ReadCommitted {
            1i8
        } else {
            0i8
        }
        &&& requests[i].1.min_version == if level == IsolationLevel::ReadCommitted {
            2i16
        } else if search.require_timestamps {
            1i16
        } else {
            0i16
        }
        &&& requests[i].1.request.replica_id == -1
    } by {
        assert(consumer.round_request(search, leaders, requests[i].0, requests[i].1));
    }
}

/// A metadata call that must be sent again waits for its backoff, and not past
/// the deadline, where it fails.
pub proof fn law_metadata_retries(
    step: MetadataStep,
    backoff: Nanos,
    now: Nanos,
    deadline: Nanos,
)
    requires
        metadata_retry(step, backoff, now, deadline),
    ensures
        step is Fail <==> deadline <= now,
        step is Fail ==> step->Fail_0 is Timeout,
        step is Wait <==> now < deadline,
        step is Wait ==> step->Wait_0 <= deadline && step->Wait_0 <= now + backoff && (
        step->Wait_0 == deadline || step->Wait_0 == now + backoff),
{
}

/// The error of a search that ran out of time names the whole milliseconds since
/// its start.
pub proof fn law_search_timeouts(error: ConsumerError, started: Nanos, now: Nanos)
    requires
        search_timed_out(error, started, now),
    ensures
        error is Timeout,
        exists|ms: nat| #[trigger]
            search_timeout_text(ms) == error->Timeout_message@ && (started <= now ==> ms * 1_000_000
                <= now - started < (ms + 1) * 1_000_000) && (now < started ==> ms == 0),
{
    let ms = millis_between(started, now);
    assert(search_timeout_text(ms) == error->Timeout_message@);
    if started <= now {
        let n = now - started;
        assert(n / 1_000_000 * 1_000_000 <= n < (n / 1_000_000 + 1) * 1_000_000)
            by (nonlinear_arith)
            requires
                n >= 0,
        ;
    }
}

} // verus!
