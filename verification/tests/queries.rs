//! Queries of offsets and of topic metadata.
use krabka_client_consumer::collections::{SortedMap, SortedSet};
use krabka_client_consumer::config::{
    AutoOffsetReset, GroupProtocol, IsolationLevel, RebalanceProtocol,
};
use krabka_client_consumer::consumer::{Consumer, ConsumerSettings};
use krabka_client_consumer::error::{ClientError, ConsumerError};
use krabka_client_consumer::list_offsets::{
    ListOffsetsPartition, ListOffsetsPartitionResponse, ListOffsetsRequest, ListOffsetsResponse,
    ListOffsetsTopic, ListOffsetsTopicResponse,
};
use krabka_client_consumer::metadata::{
    MetadataBroker, MetadataPartition, MetadataResponse, MetadataTopic,
};
use krabka_client_consumer::queries::{
    apply_query_answer, boundary_offsets, classify_query_row, times_found, topic_partition_infos,
    MetadataStep, Node, OffsetAndTimestamp, OffsetSearch, PartitionInfo, QueryRow, SearchEnd,
};
use krabka_client_consumer::subscription::Subscription;
use krabka_client_consumer::wire::Uuid;

const MILLI: u64 = 1_000_000;

fn key(partition: i32) -> (String, i32) {
    ("orders".to_string(), partition)
}

fn metadata(port: i32, error_code: i16) -> MetadataResponse {
    MetadataResponse {
        brokers: vec![MetadataBroker {
            node_id: 1,
            host: "127.0.0.1".into(),
            port,
            rack: Some("az-1".into()),
        }],
        topics: vec![MetadataTopic {
            error_code,
            name: Some("orders".into()),
            topic_id: Uuid(0),
            is_internal: false,
            partitions: (0..2)
                .map(|partition_index| MetadataPartition {
                    error_code: 0,
                    partition_index,
                    leader_id: 1,
                    leader_epoch: 4,
                    replica_nodes: vec![1, 2],
                    isr_nodes: vec![1],
                    offline_replicas: vec![2],
                })
                .collect(),
        }],
    }
}

#[test]
fn topic_partition_infos_follow_kafkas_topic_metadata_fetcher() {
    let node_1 = || Node {
        id: 1,
        host: "127.0.0.1".into(),
        port: 9092,
        rack: Some("az-1".into()),
    };
    let node_2 = || Node {
        id: 2,
        host: String::new(),
        port: -1,
        rack: None,
    };
    let orders = || {
        (0..2)
            .map(|partition| PartitionInfo {
                topic: "orders".into(),
                partition,
                leader: Some(node_1()),
                replicas: vec![node_1(), node_2()],
                in_sync_replicas: vec![node_1()],
                offline_replicas: vec![node_2()],
            })
            .collect::<Vec<_>>()
    };
    for (name, error_code, expected) in [
        (
            "no error",
            0,
            Ok(Some(SortedMap::from_entries(vec![(
                "orders".to_string(),
                orders(),
            )]))),
        ),
        ("unknown topic", 3, Ok(Some(SortedMap::new()))),
        ("leader not available", 5, Ok(None)),
        (
            "unauthorized",
            29,
            Err("not authorized to access topics: [orders]".to_string()),
        ),
        (
            "invalid topic",
            17,
            Err("topic 'orders' is invalid".to_string()),
        ),
    ] {
        let result = topic_partition_infos(&metadata(9092, error_code))
            .map_err(|error| error.message());
        assert_eq!(result, expected, "case {name}");
    }
}

#[test]
fn classify_query_row_follows_handle_list_offset_response() {
    let actual = [
        (0, 7, 100, 3),
        (0, 7, 100, -1),
        (0, -1, -1, -1),
        (43, -1, -1, -1),
        (29, -1, -1, -1),
        (6, -1, -1, -1),
    ]
    .map(|(error_code, offset, timestamp, epoch)| {
        classify_query_row(error_code, offset, timestamp, epoch)
    });
    let found = |leader_epoch| {
        QueryRow::Found(OffsetAndTimestamp {
            offset: 7,
            timestamp: 100,
            leader_epoch,
        })
    };
    assert_eq!(
        actual,
        [
            found(Some(3)),
            found(None),
            QueryRow::NotFound,
            QueryRow::NotFound,
            QueryRow::Unauthorized,
            QueryRow::Retry,
        ]
    );
}

fn consumer(isolation_level: IsolationLevel) -> Consumer {
    let mut consumer = Consumer::new(
        ConsumerSettings {
            group_id: "group-a".into(),
            group_membership: true,
            group_protocol: GroupProtocol::Classic,
            rebalance_protocol: RebalanceProtocol::Eager,
            auto_offset_reset: AutoOffsetReset::Latest,
            isolation_level,
            max_poll_records: 500,
            fetch_max_wait_ms: 500,
            fetch_min_bytes: 1,
            fetch_max_bytes: 1,
            fetch_partition_max_bytes: 1,
            client_rack: None,
            metadata_max_age: 0,
            initial_backoff: 100 * MILLI,
            max_backoff: 1000 * MILLI,
            default_api_timeout: 500 * MILLI,
            allow_auto_create_topics: true,
        },
        Subscription::topics(vec!["orders".into()], true),
    );
    consumer.known_brokers = SortedSet::from_items(vec![1]);
    consumer
}

fn request(isolation_level: i8, timestamps: [i64; 2]) -> ListOffsetsRequest {
    ListOffsetsRequest {
        replica_id: -1,
        isolation_level,
        topics: vec![ListOffsetsTopic {
            name: "orders".into(),
            partitions: timestamps
                .into_iter()
                .zip(0..)
                .map(|(timestamp, partition_index)| ListOffsetsPartition {
                    partition_index,
                    current_leader_epoch: 4,
                    timestamp,
                })
                .collect(),
        }],
        timeout_ms: 0,
    }
}

/// The rows of the leader for a request.
fn reply(
    request: &ListOffsetsRequest,
    rows: fn(i32, i64) -> (i16, i64, i64, i32),
) -> ListOffsetsResponse {
    ListOffsetsResponse {
        topics: request
            .topics
            .iter()
            .map(|topic| ListOffsetsTopicResponse {
                name: topic.name.clone(),
                partitions: topic
                    .partitions
                    .iter()
                    .map(|partition| {
                        let (error_code, offset, timestamp, leader_epoch) =
                            rows(partition.partition_index, partition.timestamp);
                        ListOffsetsPartitionResponse {
                            partition_index: partition.partition_index,
                            error_code,
                            timestamp,
                            offset,
                            leader_epoch,
                        }
                    })
                    .collect(),
            })
            .collect(),
    }
}

fn found_rows(partition: i32, timestamp: i64) -> (i16, i64, i64, i32) {
    if timestamp < 0 {
        (0, i64::from(partition) + 3, -1, -1)
    } else if partition == 0 {
        (0, 42, timestamp + 5, 2)
    } else {
        (0, -1, -1, -1)
    }
}

fn refused_rows(_partition: i32, _timestamp: i64) -> (i16, i64, i64, i32) {
    (29, -1, -1, -1)
}

type Found = SortedMap<(String, i32), OffsetAndTimestamp>;

/// One round of a search, with the requests that went out.
fn round(
    consumer: &Consumer,
    mut search: OffsetSearch,
    metadata_error: i16,
    rows: fn(i32, i64) -> (i16, i64, i64, i32),
) -> (Result<Found, String>, Vec<(i16, ListOffsetsRequest)>) {
    let sent = match consumer.search_requests(&search, Ok(metadata(9092, metadata_error))) {
        Ok(sent) => sent,
        Err(e) => return (Err(e.message()), Vec::new()),
    };
    let mut requests = Vec::new();
    for (broker, versioned) in sent {
        assert_eq!(broker, 1);
        let answer = reply(&versioned.request, rows);
        assert_eq!(Consumer::search_answered(&mut search, Ok(answer)), Ok(false));
        requests.push((versioned.min_version, versioned.request));
    }
    let result = match consumer.search_offsets_until(search, 0) {
        SearchEnd::Done(found) => Ok(found),
        SearchEnd::Fail(e) => Err(e.message()),
        SearchEnd::Wait(_, until) => Err(format!("wait {until}")),
    };
    (result, requests)
}

#[test]
fn offset_queries_follow_kafkas_offset_fetcher() {
    let partitions = vec![key(0), key(1)];
    let plain = consumer(IsolationLevel::ReadUncommitted);
    let committed = consumer(IsolationLevel::ReadCommitted);

    let (found, sent) = round(
        &plain,
        plain.beginning_offsets(&partitions, 0),
        0,
        found_rows,
    );
    assert_eq!(
        boundary_offsets(&found.unwrap()),
        SortedMap::from_entries(vec![(key(0), 3), (key(1), 4)])
    );
    assert_eq!(sent, vec![(0, request(0, [-2, -2]))]);

    let (found, sent) = round(
        &committed,
        committed.end_offsets(&partitions, 0),
        0,
        found_rows,
    );
    assert_eq!(
        boundary_offsets(&found.unwrap()),
        SortedMap::from_entries(vec![(key(0), 3), (key(1), 4)])
    );
    assert_eq!(sent, vec![(2, request(1, [-1, -1]))]);

    let times = SortedMap::from_entries(vec![(key(0), 1000), (key(1), 2000)]);
    let (found, sent) = round(
        &plain,
        plain.offsets_for_times(&times, 0).ok().unwrap(),
        0,
        found_rows,
    );
    assert_eq!(
        times_found(&times, &found.unwrap()),
        SortedMap::from_entries(vec![
            (
                key(0),
                Some(OffsetAndTimestamp {
                    offset: 42,
                    timestamp: 1005,
                    leader_epoch: Some(2),
                })
            ),
            (key(1), None),
        ])
    );
    assert_eq!(sent, vec![(1, request(0, [1000, 2000]))]);

    let negative = SortedMap::from_entries(vec![(key(0), -1), (key(1), 2000)]);
    assert_eq!(
        plain
            .offsets_for_times(&negative, 0)
            .err()
            .map(|e| e.message()),
        Some(
            "invalid argument: The target time for partition orders-0 is -1. The target time cannot be negative."
                .to_string()
        )
    );

    for (name, metadata_error, expected) in [
        (
            "unauthorized topic",
            0,
            "not authorized to access topics: [orders]",
        ),
        (
            "metadata does not authorize the topic",
            29,
            "not authorized to access topics: [orders]",
        ),
        (
            "metadata names the topic invalid",
            17,
            "topic 'orders' is invalid",
        ),
    ] {
        let (result, _) = round(
            &plain,
            plain.beginning_offsets(&partitions, 0),
            metadata_error,
            refused_rows,
        );
        assert_eq!(result, Err(expected.to_string()), "case {name}");
    }
}

#[test]
fn a_search_waits_between_rounds_and_ends_by_its_timeout() {
    let consumer = consumer(IsolationLevel::ReadUncommitted);
    let mut search = consumer.beginning_offsets(&vec![key(0)], 0);
    assert_eq!(
        consumer.search_requests(&search, Err(ClientError::Disconnected)),
        Ok(vec![])
    );
    assert_eq!(
        Consumer::search_answered(&mut search, Err(ClientError::Disconnected)),
        Ok(true)
    );
    assert_eq!(
        Consumer::search_answered(&mut search, Err(ClientError::Other("x".into()))),
        Err(ConsumerError::Client(ClientError::Other("x".into())))
    );
    let search = match consumer.search_offsets_until(search, 10 * MILLI) {
        SearchEnd::Wait(search, until) => {
            assert_eq!(until, 110 * MILLI);
            search
        }
        _ => panic!("the search goes on"),
    };
    let search = match consumer.search_offsets_until(search, 450 * MILLI) {
        SearchEnd::Wait(search, until) => {
            assert_eq!(until, 500 * MILLI);
            search
        }
        _ => panic!("the search goes on"),
    };
    match consumer.search_offsets_until(search, 500 * MILLI) {
        SearchEnd::Fail(e) => assert_eq!(
            e.message(),
            "timeout: Failed to get offsets by times in 500ms"
        ),
        _ => panic!("the search is over"),
    }
}

#[test]
fn metadata_queries_ask_again_until_their_timeout() {
    let consumer = consumer(IsolationLevel::ReadUncommitted);
    let request = consumer.partitions_for_request("orders");
    assert_eq!(request.topics, Some(vec!["orders".to_string()]));
    assert!(request.allow_auto_topic_creation);
    assert_eq!(consumer.list_topics().topics, None);
    let mut backoff = 100 * MILLI;
    match consumer.topic_metadata_until(Ok(metadata(1, 5)), &mut backoff, 0, 500 * MILLI) {
        MetadataStep::Wait(until) => assert_eq!(until, 100 * MILLI),
        _ => panic!("the query goes on"),
    }
    assert_eq!(backoff, 200 * MILLI);
    match consumer.topic_metadata_until(
        Err(ClientError::Disconnected),
        &mut backoff,
        500 * MILLI,
        500 * MILLI,
    ) {
        MetadataStep::Fail(e) => assert_eq!(
            e.message(),
            "timeout: Timeout expired while fetching topic metadata"
        ),
        _ => panic!("the query is over"),
    }
    match consumer.topic_metadata_until(Ok(metadata(1, 0)), &mut backoff, 0, 500 * MILLI) {
        MetadataStep::Done(topics) => {
            assert_eq!(Consumer::partitions_for(topics, "orders").len(), 2);
        }
        _ => panic!("the query is done"),
    }
    match consumer.topic_metadata_until(Ok(metadata(1, 0)), &mut backoff, 0, 500 * MILLI) {
        MetadataStep::Done(topics) => {
            assert_eq!(Consumer::partitions_for(topics, "other").len(), 0);
        }
        _ => panic!("the query is done"),
    }
}

#[test]
fn answers_resolve_each_searched_partition_once() {
    let row = |partition_index, error_code, offset| ListOffsetsPartitionResponse {
        partition_index,
        error_code,
        timestamp: -1,
        offset,
        leader_epoch: -1,
    };
    let answer = ListOffsetsResponse {
        topics: vec![ListOffsetsTopicResponse {
            name: "orders".into(),
            partitions: vec![
                row(0, 0, 3),
                row(0, 0, 4),
                row(1, 43, -1),
                row(2, 6, -1),
                row(3, 29, -1),
                row(9, 0, 8),
            ],
        }],
    };
    let mut search = SortedMap::from_entries((0..4).map(|p| (key(p), -2)).collect());
    let mut found = SortedMap::new();
    let mut unauthorized = SortedSet::new();
    apply_query_answer(&answer, &mut search, &mut found, &mut unauthorized);
    assert_eq!(
        search,
        SortedMap::from_entries(vec![(key(2), -2), (key(3), -2)])
    );
    assert_eq!(
        found,
        SortedMap::from_entries(vec![(
            key(0),
            OffsetAndTimestamp {
                offset: 3,
                timestamp: -1,
                leader_epoch: None,
            }
        )])
    );
    assert_eq!(
        unauthorized,
        SortedSet::from_items(vec!["orders".to_string()])
    );
}
