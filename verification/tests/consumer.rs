//! A consumer from fetch to record, without a network.
use bytes::Bytes;
use krabka_client_consumer::assignment::Assignment;
use krabka_client_consumer::collections::{SortedMap, SortedSet};
use krabka_client_consumer::config::{
    AutoOffsetReset, GroupProtocol, IsolationLevel, RebalanceProtocol,
};
use krabka_client_consumer::consumer::{Consumer, ConsumerSettings, FetchResult, InFlightFetch};
use krabka_client_consumer::error::{ClientError, ConsumerError};
use krabka_client_consumer::fetch::{
    EpochEndOffset, FetchRequest, FetchResponse, FetchableTopicResponse, LeaderIdAndEpoch,
    PartitionData,
};
use krabka_client_consumer::fetch_answer::is_response_in_range;
use krabka_client_consumer::fetch_flow::ConnectionAction;
use krabka_client_consumer::list_offsets::{
    ListOffsetsPartitionResponse, ListOffsetsResponse, ListOffsetsResult,
    ListOffsetsTopicResponse, COMMITTED_SENTINEL, END_SENTINEL, LATEST_SENTINEL,
};
use krabka_client_consumer::offset_wire::{
    id_to_name, OffsetAndMetadata, OffsetFetchPartition, OffsetFetchResponse, OffsetFetchTopic,
};
use krabka_client_consumer::poll::{PollStep, RebalanceWait, WaitEnd};
use krabka_client_consumer::position::PartitionPosition;
use krabka_client_consumer::position_update::{
    list_offsets_answered, update_fetch_positions, ExchangeStep, UpdateStage, UpdateStep,
};
use krabka_client_consumer::records::{Attributes, Record, RecordBatch, RecordsPayload};
use krabka_client_consumer::subscribe::SubscribeStep;
use krabka_client_consumer::subscription::{Subscription, TopicPattern};
use krabka_client_consumer::wire::{LeaderEpoch, Uuid};

const TOPIC_ID: Uuid = Uuid(7);
const SECOND: u64 = 1_000_000_000;

fn key(partition: i32) -> (String, i32) {
    ("orders".to_string(), partition)
}

fn settings() -> ConsumerSettings {
    ConsumerSettings {
        group_id: "group-a".into(),
        group_membership: true,
        group_protocol: GroupProtocol::Classic,
        rebalance_protocol: RebalanceProtocol::Eager,
        auto_offset_reset: AutoOffsetReset::Latest,
        isolation_level: IsolationLevel::ReadUncommitted,
        max_poll_records: 500,
        fetch_max_wait_ms: 500,
        fetch_min_bytes: 1,
        fetch_max_bytes: 50 * 1024 * 1024,
        fetch_partition_max_bytes: 1024 * 1024,
        client_rack: None,
        metadata_max_age: 300 * SECOND,
        initial_backoff: SECOND / 10,
        max_backoff: SECOND,
        default_api_timeout: 60 * SECOND,
        allow_auto_create_topics: true,
    }
}

/// A consumer that owns `orders-0` at offset 5, with broker 1 as its leader.
fn consumer() -> Consumer {
    let mut consumer = Consumer::new(
        settings(),
        Subscription::topics(vec!["orders".into()], true),
    );
    consumer.assigned = Assignment::from_list(vec![key(0)]);
    consumer.ownership_ids = SortedMap::from_entries(vec![(key(0), 1)]);
    consumer.next_offsets = SortedMap::from_entries(vec![(key(0), 5)]);
    consumer.positions = SortedMap::from_entries(vec![(
        key(0),
        PartitionPosition {
            leader_id: 1,
            leader_epoch: LeaderEpoch(7),
            ..Default::default()
        },
    )]);
    consumer.topic_ids = SortedMap::from_entries(vec![("orders".to_string(), TOPIC_ID)]);
    consumer.known_brokers = SortedSet::from_items(vec![1, 2]);
    consumer
}

fn part(error_code: i16) -> PartitionData {
    PartitionData {
        partition_index: 0,
        error_code,
        high_watermark: -1,
        last_stable_offset: -1,
        diverging_epoch: EpochEndOffset {
            epoch: -1,
            end_offset: -1,
        },
        current_leader: LeaderIdAndEpoch {
            leader_id: -1,
            leader_epoch: -1,
        },
        aborted_transactions: None,
        preferred_read_replica: -1,
        records: None,
    }
}

fn response(session_id: i32, part: PartitionData) -> FetchResponse {
    FetchResponse {
        throttle_time_ms: 0,
        error_code: 0,
        session_id,
        responses: vec![FetchableTopicResponse {
            topic: String::new(),
            topic_id: TOPIC_ID,
            partitions: vec![part],
        }],
    }
}

fn batch(base_offset: i64, count: i32) -> RecordBatch {
    RecordBatch {
        base_offset,
        partition_leader_epoch: 3,
        attributes: Attributes(0),
        last_offset_delta: count - 1,
        base_timestamp: 0,
        max_timestamp: 0,
        producer_id: -1,
        records: (0..count)
            .map(|offset_delta| Record {
                timestamp_delta: 0,
                offset_delta,
                key: None,
                value: Some(Bytes::from_static(b"v")),
                headers: Vec::new(),
            })
            .collect(),
    }
}

fn with_records(base_offset: i64, count: i32) -> PartitionData {
    PartitionData {
        high_watermark: base_offset.saturating_add(i64::from(count)),
        records: Some(RecordsPayload::V2(vec![batch(base_offset, count)])),
        ..part(0)
    }
}

/// Starts the fetches of a `poll` at `now`.
fn fetch(consumer: &mut Consumer, now: u64) -> Vec<(i32, FetchRequest)> {
    match consumer.poll_records(now) {
        PollStep::Fetch { requests, .. } => requests,
        PollStep::Records(_) => panic!("records"),
        PollStep::WaitForDeadline => panic!("nothing to fetch"),
    }
}

/// Hands the results to the consumer, and processes the answers.
fn answer(
    consumer: &mut Consumer,
    results: Vec<(i32, FetchResult)>,
    now: u64,
) -> (Vec<ConnectionAction>, Result<bool, ConsumerError>) {
    consumer.collect_ready(results);
    let names = id_to_name(&consumer.topic_ids);
    let (actions, responses) = consumer.take_completed_fetches(&names);
    let result = responses.and_then(|responses| {
        assert!(responses
            .iter()
            .all(|response| is_response_in_range(response, consumer.assigned.set(), &names)));
        consumer
            .process_fetch_responses(&responses, &names, now)
            .map(|outcome| outcome.refresh)
    });
    (actions, result)
}

fn position(consumer: &Consumer) -> Option<i64> {
    consumer.next_offsets.get(&key(0)).copied()
}

fn polled(consumer: &mut Consumer, now: u64) -> Vec<i64> {
    match consumer.poll_records(now) {
        PollStep::Records(records) => records.iter().map(|record| record.offset).collect(),
        _ => Vec::new(),
    }
}

#[test]
fn poll_returns_at_most_max_poll_records_and_keeps_the_rest_without_a_fetch() {
    let mut consumer = consumer();
    let sent = fetch(&mut consumer, 0);
    assert_eq!(sent.len(), 1);
    let (_, result) = answer(
        &mut consumer,
        vec![(1, Some(Ok(response(77, with_records(5, 1200)))))],
        0,
    );
    assert_eq!(result, Ok(false));
    for (first, last, next) in [(5, 504, 505), (505, 1004, 1005), (1005, 1204, 1205)] {
        let offsets = polled(&mut consumer, 0);
        assert_eq!(offsets.first(), Some(&first));
        assert_eq!(offsets.last(), Some(&last));
        assert_eq!(position(&consumer), Some(next));
    }
    assert_eq!(fetch(&mut consumer, 0).len(), 1);
}

#[test]
fn fetch_partition_errors_refresh_metadata_or_fail_the_poll() {
    for (name, error_code, expected) in [
        ("unknown topic or partition", 3, Ok(true)),
        ("not leader or follower", 6, Ok(true)),
        ("unknown topic id", 100, Ok(true)),
        (
            "topic authorization failed",
            29,
            Err(ConsumerError::Server(29)),
        ),
    ] {
        let mut consumer = consumer();
        fetch(&mut consumer, 0);
        let (_, result) = answer(
            &mut consumer,
            vec![(1, Some(Ok(response(0, part(error_code)))))],
            0,
        );
        assert_eq!(result, expected, "case {name}");
        assert_eq!(position(&consumer), Some(5), "case {name}");
        assert_eq!(consumer.fetch_buffer.len(), 0, "case {name}");
    }
}

#[test]
fn a_leader_hint_reroutes_without_a_refresh() {
    let mut consumer = consumer();
    fetch(&mut consumer, 0);
    let mut row = part(6);
    row.current_leader = LeaderIdAndEpoch {
        leader_id: 2,
        leader_epoch: 9,
    };
    let (_, result) = answer(&mut consumer, vec![(1, Some(Ok(response(0, row))))], 0);
    assert_eq!(result, Ok(false));
    assert_eq!(fetch(&mut consumer, 0)[0].0, 2);
}

#[test]
fn a_stale_epoch_waits_for_validation_only_with_a_consumed_epoch() {
    for (offset_epoch, awaiting) in [(-1, false), (4, true)] {
        let mut consumer = consumer();
        consumer.positions.insert(
            key(0),
            PartitionPosition {
                offset_epoch: LeaderEpoch(offset_epoch),
                leader_id: 1,
                leader_epoch: LeaderEpoch(7),
                awaiting_validation: false,
            },
        );
        fetch(&mut consumer, 0);
        let (_, result) = answer(&mut consumer, vec![(1, Some(Ok(response(0, part(74)))))], 0);
        assert_eq!(result, Ok(false));
        let position = *consumer.positions.get(&key(0)).unwrap();
        assert_eq!(position.leader_epoch, LeaderEpoch(-1));
        assert_eq!(position.awaiting_validation, awaiting);
    }
}

#[test]
fn a_reset_in_poll_follows_the_policy() {
    let truncated = || PartitionData {
        diverging_epoch: EpochEndOffset {
            epoch: 2,
            end_offset: 3,
        },
        ..part(0)
    };
    for (name, policy, row, expected, moved) in [
        (
            "out of range under latest",
            AutoOffsetReset::Latest,
            part(1),
            Ok(()),
            LATEST_SENTINEL,
        ),
        (
            "out of range under earliest waits for the log start",
            AutoOffsetReset::Earliest,
            part(1),
            Ok(()),
            5,
        ),
        (
            "truncation",
            AutoOffsetReset::Earliest,
            truncated(),
            Ok(()),
            3,
        ),
        (
            "truncation without a policy",
            AutoOffsetReset::NoReset,
            truncated(),
            Err(
                "log truncation detected on orders-0: fetch offset 5 is past the leader's log; safe offset 3"
                    .to_string(),
            ),
            5,
        ),
    ] {
        let mut consumer = consumer();
        consumer.settings.auto_offset_reset = policy;
        fetch(&mut consumer, 0);
        let (_, result) = answer(&mut consumer, vec![(1, Some(Ok(response(0, row))))], 0);
        assert_eq!(
            result.map(|_| ()).map_err(|e| e.message()),
            expected,
            "case {name}"
        );
        assert_eq!(position(&consumer), Some(moved), "case {name}");
    }
}

#[test]
fn an_out_of_range_partition_moves_to_the_answered_log_start() {
    let out_of_range = vec![(key(0), 5)];
    let result = |code: i16, offset: i64| {
        ListOffsetsResult::collect(
            &vec![key(0)],
            &vec![ListOffsetsResponse {
                topics: vec![ListOffsetsTopicResponse {
                    name: "orders".into(),
                    partitions: vec![ListOffsetsPartitionResponse {
                        partition_index: 0,
                        error_code: code,
                        timestamp: -1,
                        offset,
                        leader_epoch: -1,
                    }],
                }],
            }],
        )
    };
    let mut earliest = consumer();
    earliest.settings.auto_offset_reset = AutoOffsetReset::Earliest;
    assert_eq!(
        earliest.recover_out_of_range(&out_of_range, &result(6, -1)),
        Ok((Vec::new(), true))
    );
    assert_eq!(position(&earliest), Some(5));
    assert_eq!(
        earliest.recover_out_of_range(&out_of_range, &result(0, 2)),
        Ok((vec![(key(0), 2)], false))
    );
    assert_eq!(position(&earliest), Some(2));
    assert_eq!(
        earliest
            .recover_out_of_range(&out_of_range, &result(29, -1))
            .map_err(|e| e.message()),
        Err("not authorized to access topics: [orders]".to_string())
    );

    let mut none = consumer();
    none.settings.auto_offset_reset = AutoOffsetReset::NoReset;
    assert_eq!(
        none.recover_out_of_range(&out_of_range, &result(0, 2))
            .map_err(|e| e.message()),
        Err(
            "log truncation detected on orders-0: fetch offset 5 is past the leader's log; safe offset 2"
                .to_string()
        )
    );
    assert_eq!(position(&none), Some(5));
}

#[test]
fn a_truncation_that_validation_found_moves_the_position() {
    let truncated = SortedMap::from_entries(vec![(key(0), 3)]);
    let mut latest = consumer();
    assert_eq!(latest.apply_truncation(&truncated), Ok(()));
    assert_eq!(position(&latest), Some(3));
    let mut none = consumer();
    none.settings.auto_offset_reset = AutoOffsetReset::NoReset;
    assert!(none.apply_truncation(&truncated).is_err());
    assert_eq!(position(&none), Some(5));
}

#[test]
fn out_of_range_from_a_replica_request_gives_no_reset() {
    let mut consumer = consumer();
    consumer
        .fetches
        .preferred_read_replicas
        .insert(key(0), (2, 100));
    consumer.fetches.in_flight.insert(
        2,
        InFlightFetch {
            requested: SortedMap::from_entries(vec![(key(0), 5)]),
            from_replica: SortedSet::from_items(vec![key(0)]),
        },
    );
    let (_, result) = answer(&mut consumer, vec![(2, Some(Ok(response(0, part(1)))))], 0);
    assert_eq!(result, Ok(false));
    assert_eq!(position(&consumer), Some(5));
    assert!(consumer.fetches.preferred_read_replicas.is_empty());
}

#[test]
fn a_fetch_response_for_a_moved_position_gives_no_records() {
    let mut consumer = consumer();
    fetch(&mut consumer, 0);
    consumer.seek("orders", 0, 40).unwrap();
    let (_, result) = answer(
        &mut consumer,
        vec![(1, Some(Ok(response(0, with_records(5, 1)))))],
        0,
    );
    assert_eq!(result, Ok(false));
    assert_eq!(consumer.fetch_buffer.len(), 0);
    assert_eq!(position(&consumer), Some(40));
}

#[test]
fn fetch_sends_the_rack_and_follows_the_preferred_read_replica() {
    let mut consumer = consumer();
    consumer.settings.client_rack = Some("az-1".into());
    consumer.settings.metadata_max_age = 300;
    let prefer_2 = || PartitionData {
        preferred_read_replica: 2,
        ..part(0)
    };
    let mut brokers = Vec::new();
    for (row, now) in [
        (prefer_2(), 0),
        (part(0), 10),
        // The preference expired.
        (prefer_2(), 301),
        // The replica is not a leader or follower.
        (part(6), 302),
        (part(0), 303),
    ] {
        let sent = fetch(&mut consumer, now);
        assert_eq!(sent.len(), 1);
        assert_eq!(sent[0].1.rack_id, "az-1");
        brokers.push(sent[0].0);
        let (_, result) = answer(
            &mut consumer,
            vec![(sent[0].0, Some(Ok(response(0, row))))],
            now,
        );
        assert!(result.is_ok());
        // The row without a leader hint forgets the leader.
        consumer.positions.insert(
            key(0),
            PartitionPosition {
                leader_id: 1,
                ..Default::default()
            },
        );
    }
    assert_eq!(brokers, vec![1, 2, 1, 2, 1]);
}

#[test]
fn a_preferred_replica_that_is_not_known_is_dropped() {
    let mut consumer = consumer();
    consumer
        .fetches
        .preferred_read_replicas
        .insert(key(0), (9, 100));
    match consumer.poll_records(0) {
        PollStep::Fetch { requests, refresh } => {
            assert!(refresh);
            assert_eq!(requests[0].0, 1);
        }
        _ => panic!("no fetch"),
    }
    assert!(consumer.fetches.preferred_read_replicas.is_empty());
}

#[test]
fn fetch_sessions_send_incremental_requests_and_recover_a_lost_session() {
    let fields = |request: &FetchRequest| {
        let partitions: Vec<i32> = request
            .topics
            .iter()
            .flat_map(|topic| topic.partitions.iter().map(|p| p.partition))
            .collect();
        (request.session_id, request.session_epoch, partitions)
    };
    let lost = || FetchResponse {
        error_code: 70,
        responses: Vec::new(),
        ..response(0, part(0))
    };
    let mut consumer = consumer();
    let mut requests = Vec::new();
    for reply in [
        response(77, part(0)),
        lost(),
        response(78, part(0)),
        response(78, part(0)),
    ] {
        let sent = fetch(&mut consumer, 0);
        requests.push(fields(&sent[0].1));
        let (_, result) = answer(&mut consumer, vec![(1, Some(Ok(reply)))], 0);
        assert_eq!(result, Ok(false));
    }
    assert_eq!(
        requests,
        vec![
            (0, 0, vec![0]),
            (77, 1, vec![]),
            (0, 0, vec![0]),
            (78, 1, vec![]),
        ]
    );
    let closes = consumer.close_fetch_sessions();
    assert_eq!(closes.len(), 1);
    assert_eq!(closes[0].0, 1);
    assert_eq!(fields(&closes[0].1), (78, -1, vec![]));
}

#[test]
fn a_failed_fetch_drops_its_connection_or_fails_the_poll() {
    for (name, error, actions, failed) in [
        (
            "disconnected",
            ClientError::Disconnected,
            vec![ConnectionAction::EvictBroker(1)],
            false,
        ),
        (
            "server error",
            ClientError::Server { error_code: 6 },
            vec![],
            true,
        ),
    ] {
        let mut consumer = consumer();
        fetch(&mut consumer, 0);
        let (taken, result) = answer(&mut consumer, vec![(1, Some(Err(error)))], 0);
        assert_eq!(taken, actions, "case {name}");
        assert_eq!(result.is_err(), failed, "case {name}");
        assert_eq!(fetch(&mut consumer, 0)[0].1.session_epoch, 0);
    }
    // A leader that is not known is asked over the bootstrap connection.
    let mut unknown = consumer();
    unknown.known_brokers = SortedSet::new();
    assert_eq!(fetch(&mut unknown, 0)[0].0, -1);
    let (taken, _) = answer(&mut unknown, vec![(-1, Some(Err(ClientError::Disconnected)))], 0);
    assert_eq!(taken, vec![ConnectionAction::ReconnectBootstrap]);
}

#[test]
fn a_broker_with_a_fetch_in_flight_gets_no_second_one() {
    let mut consumer = consumer();
    assert_eq!(fetch(&mut consumer, 0).len(), 1);
    assert!(consumer.wait_for_fetches());
    assert_eq!(fetch(&mut consumer, 0).len(), 0);
    // A fetch that ended without a result frees its broker.
    let (_, result) = answer(&mut consumer, vec![(1, None)], 0);
    assert_eq!(result, Ok(false));
    assert!(consumer.has_no_fetches());
    assert_eq!(fetch(&mut consumer, 0).len(), 1);
}

#[test]
fn fetch_leaves_out_what_cannot_be_fetched() {
    let mut waiting = consumer();
    waiting.assigned_callback_pending = SortedSet::from_items(vec![key(0)]);
    assert_eq!(fetch(&mut waiting, 0).len(), 0);

    let mut reset = consumer();
    reset.next_offsets.insert(key(0), LATEST_SENTINEL);
    assert_eq!(fetch(&mut reset, 0).len(), 0);

    let mut unsubscribed = consumer();
    unsubscribed.subscription = Subscription::topics(vec!["payments".into()], true);
    assert_eq!(fetch(&mut unsubscribed, 0).len(), 0);

    let mut paused = consumer();
    paused.pause(&vec![key(0)]).unwrap();
    assert_eq!(fetch(&mut paused, 0).len(), 0);
    paused.resume(&vec![key(0)]).unwrap();
    assert_eq!(fetch(&mut paused, 0).len(), 1);

    let mut unassigned = consumer();
    unassigned.assigned = Assignment::new();
    assert!(matches!(
        unassigned.poll_records(0),
        PollStep::WaitForDeadline
    ));
}

#[test]
fn a_revoked_partition_gives_no_records() {
    let mut consumer = consumer();
    fetch(&mut consumer, 0);
    consumer.assigned = Assignment::from_list(vec![key(1)]);
    let (_, result) = answer(
        &mut consumer,
        vec![(1, Some(Ok(response(0, with_records(5, 2)))))],
        0,
    );
    assert_eq!(result, Ok(false));
    assert_eq!(polled(&mut consumer, 0), Vec::<i64>::new());
}

#[test]
fn pause_follows_the_ownership_of_the_partition() {
    for (name, pause, resume, new_ownership, expected_error, expected_paused) in [
        ("pause", vec![key(0)], vec![], false, None, vec![key(0)]),
        (
            "pause and resume",
            vec![key(0)],
            vec![key(0)],
            false,
            None,
            vec![],
        ),
        ("owned again", vec![key(0)], vec![], true, None, vec![]),
        (
            "unowned partition",
            vec![key(9)],
            vec![],
            false,
            Some("no current assignment for partition orders-9"),
            vec![],
        ),
        (
            "one unowned partition pauses none",
            vec![key(0), key(9)],
            vec![],
            false,
            Some("no current assignment for partition orders-9"),
            vec![],
        ),
    ] {
        let mut consumer = consumer();
        let mut error = consumer.pause(&pause).err().map(|error| error.message());
        if let Err(resume_error) = consumer.resume(&resume) {
            error.get_or_insert(resume_error.message());
        }
        if new_ownership {
            consumer.ownership_ids.insert(key(0), 2);
        }
        assert_eq!(error.as_deref(), expected_error, "case {name}");
        assert_eq!(
            consumer.paused(),
            SortedSet::from_items(expected_paused),
            "case {name}"
        );
    }
}

#[test]
fn seek_moves_an_owned_position_and_rejects_an_unowned_partition() {
    let mut consumer = consumer();
    assert_eq!(
        consumer.seek("orders", 9, 2).map_err(|e| e.message()),
        Err("no current assignment for partition orders-9".to_string())
    );
    assert_eq!(
        consumer.seek("orders", 0, -2).map_err(|e| e.message()),
        Err("invalid seek offset -2: must be non-negative".to_string())
    );
    assert_eq!(position(&consumer), Some(5));
    consumer.seek("orders", 0, 2).unwrap();
    assert_eq!(consumer.position("orders", 0), Ok(Some(2)));
    assert_eq!(
        fetch(&mut consumer, 0)[0].1.topics[0].partitions[0].fetch_offset,
        2
    );
    consumer.seek_with_leader_epoch("orders", 0, 4, 6).unwrap();
    // The position waits for validation.
    assert_eq!(consumer.position("orders", 0), Ok(None));
    assert_eq!(
        Consumer::position_timeout("orders", 0).message(),
        "timeout: the position for partition orders-0 could not be determined"
    );
}

#[test]
fn current_lag_follows_kafkas_partition_lag() {
    for (name, partition, position, end, seek, awaiting_validation, expected) in [
        ("known", 0, 5, Some(12), None, false, Ok(Some(7))),
        ("after a seek", 0, 5, Some(12), Some(8), false, Ok(Some(4))),
        ("no end offset", 0, 5, None, None, false, Ok(None)),
        ("awaiting validation", 0, 5, Some(12), None, true, Ok(None)),
        (
            "awaiting reset",
            0,
            END_SENTINEL,
            Some(12),
            None,
            false,
            Ok(None),
        ),
        (
            "unassigned",
            9,
            5,
            Some(12),
            None,
            false,
            Err("no current assignment for partition orders-9".to_string()),
        ),
    ] {
        let mut consumer = consumer();
        consumer.positions.insert(
            key(0),
            PartitionPosition {
                awaiting_validation,
                ..Default::default()
            },
        );
        consumer.next_offsets.insert(key(0), position);
        if let Some(end) = end {
            consumer.end_offsets.insert(key(0), end);
        }
        if let Some(offset) = seek {
            consumer.seek("orders", 0, offset).expect("seek");
        }
        assert_eq!(
            consumer
                .current_lag("orders", partition)
                .map_err(|error| error.message()),
            expected,
            "case {name}"
        );
    }
}

fn offset_fetch(rows: &[(i32, i64, i32, &str)]) -> OffsetFetchResponse {
    OffsetFetchResponse {
        topics: vec![OffsetFetchTopic {
            name: "orders".into(),
            partitions: rows
                .iter()
                .map(|(index, offset, epoch, metadata)| OffsetFetchPartition {
                    partition_index: *index,
                    committed_offset: *offset,
                    committed_leader_epoch: *epoch,
                    metadata: Some((*metadata).into()),
                    error_code: 0,
                })
                .collect(),
        }],
        error_code: 0,
        groups: Vec::new(),
    }
}

#[test]
fn committed_returns_kafkas_offsets_and_metadata() {
    let consumer = consumer();
    let partitions = vec![key(0), key(1), key(2)];
    let response = offset_fetch(&[(0, 10, 3, "note"), (1, -1, -1, ""), (3, 7, -1, "")]);
    assert_eq!(
        consumer.committed(&partitions, &response),
        SortedMap::from_entries(vec![
            (
                key(0),
                Some(OffsetAndMetadata {
                    offset: 10,
                    leader_epoch: Some(3),
                    metadata: "note".into(),
                })
            ),
            (key(1), None),
            (key(2), None),
        ])
    );
    let (request, _) = consumer.committed_request(&partitions).unwrap().unwrap();
    assert_eq!(request.group_id, "group-a");
    assert_eq!(request.topics[0].partition_indexes, vec![0, 1, 2]);
    assert!(consumer.committed_request(&vec![]).unwrap().is_none());
    assert_eq!(
        Consumer::committed_timeout().message(),
        "timeout: the last committed offsets could not be determined"
    );
}

#[test]
fn manual_partitions_start_at_the_committed_offset_or_the_reset() {
    let mut consumer = consumer();
    consumer.settings.auto_offset_reset = AutoOffsetReset::Earliest;
    consumer.next_offsets = SortedMap::from_entries(vec![
        (key(0), 5),
        (key(1), COMMITTED_SENTINEL),
        (key(2), COMMITTED_SENTINEL),
    ]);
    let keys = consumer.committed_sentinels();
    assert_eq!(keys, vec![key(1), key(2)]);
    let committed = consumer.committed(&keys, &offset_fetch(&[(1, 10, 2, ""), (2, -1, -1, "")]));
    consumer.resolve_committed_sentinels(&keys, &committed);
    assert_eq!(
        consumer.next_offsets,
        SortedMap::from_entries(vec![(key(0), 5), (key(1), 10), (key(2), 0)])
    );
    assert_eq!(
        consumer.positions.get(&key(1)).unwrap().offset_epoch,
        LeaderEpoch(2)
    );
}

#[test]
fn resets_replace_only_the_placeholders_that_are_still_there() {
    let mut consumer = consumer();
    consumer.next_offsets = SortedMap::from_entries(vec![
        (key(0), LATEST_SENTINEL),
        (key(1), END_SENTINEL),
        (key(2), 7),
    ]);
    let plan = consumer.reset_plan(1000);
    assert_eq!(plan.len(), 2);
    assert_eq!(
        (plan[0].sentinel, plan[0].timestamp, plan[0].keys.clone()),
        (LATEST_SENTINEL, -1, vec![key(0)])
    );
    assert_eq!(
        (plan[1].sentinel, plan[1].timestamp, plan[1].keys.clone()),
        (END_SENTINEL, -1, vec![key(1)])
    );
    // A seek during the request keeps its offset.
    consumer.next_offsets.insert(key(1), 3);
    let found = |partition, offset| ListOffsetsResult {
        offsets: SortedMap::from_entries(vec![(key(partition), offset)]),
        retry: false,
        unauthorized: SortedSet::new(),
    };
    assert_eq!(
        consumer.resolve_reset_sentinels(&vec![
            (LATEST_SENTINEL, found(0, 40)),
            (END_SENTINEL, found(1, 50)),
        ]),
        Ok(())
    );
    assert_eq!(
        consumer.next_offsets,
        SortedMap::from_entries(vec![(key(0), 40), (key(1), 3), (key(2), 7)])
    );
}

#[test]
fn list_offsets_goes_to_the_leader_with_the_isolation_level() {
    let mut consumer = consumer();
    consumer.settings.isolation_level = IsolationLevel::ReadCommitted;
    let sent = consumer.list_offsets(&vec![key(0), key(1)], -1);
    let summary: Vec<(i32, i16, i8, Vec<(i32, i32)>)> = sent
        .iter()
        .map(|(broker, versioned)| {
            (
                *broker,
                versioned.min_version,
                versioned.request.isolation_level,
                versioned.request.topics[0]
                    .partitions
                    .iter()
                    .map(|p| (p.partition_index, p.current_leader_epoch))
                    .collect(),
            )
        })
        .collect();
    assert_eq!(
        summary,
        vec![(-1, 2, 1, vec![(1, -1)]), (1, 2, 1, vec![(0, 7)])]
    );
    let mut answers = Vec::new();
    assert_eq!(
        list_offsets_answered(1, Err(ClientError::Disconnected), &mut answers),
        ExchangeStep::Drop(ConnectionAction::EvictBroker(1))
    );
    assert_eq!(
        list_offsets_answered(1, Err(ClientError::Other("x".into())), &mut answers),
        ExchangeStep::Fail(ConsumerError::Client(ClientError::Other("x".into())))
    );
    assert_eq!(
        list_offsets_answered(1, Ok(ListOffsetsResponse { topics: vec![] }), &mut answers),
        ExchangeStep::Next
    );
    assert_eq!(answers.len(), 1);
}

#[test]
fn an_update_goes_through_its_stages() {
    let mut stage = UpdateStage::LeaderEpochs;
    let mut stages = vec![stage];
    while let UpdateStep::Next(next) = update_fetch_positions(stage, Ok(())) {
        stage = next;
        stages.push(stage);
    }
    assert_eq!(
        stages,
        vec![
            UpdateStage::LeaderEpochs,
            UpdateStage::CommittedOffsets,
            UpdateStage::Resets,
            UpdateStage::Validation,
        ]
    );
    assert_eq!(update_fetch_positions(stage, Ok(())), UpdateStep::Done);
    assert_eq!(
        update_fetch_positions(
            stage,
            Err(ConsumerError::Client(ClientError::Disconnected))
        ),
        UpdateStep::TryLater
    );
    assert_eq!(
        update_fetch_positions(stage, Err(ConsumerError::Server(6))),
        UpdateStep::Fail(ConsumerError::Server(6))
    );
}

#[test]
fn poll_returns_a_fatal_rejoin_error_once() {
    let mut consumer = consumer();
    consumer.report_rejoin_error(ConsumerError::TopicAuthorizationFailed(
        SortedSet::from_items(vec!["orders".to_string()]),
    ));
    assert_eq!(
        consumer.poll().map_err(|e| e.message()),
        Err("not authorized to access topics: [orders]".to_string())
    );
    assert_eq!(consumer.poll(), Ok(()));
}

#[test]
fn poll_needs_a_subscription_and_ends_on_a_wakeup_once() {
    let mut consumer = consumer();
    consumer.wakeup_pending = true;
    assert_eq!(consumer.poll(), Err(ConsumerError::Wakeup));
    assert_eq!(consumer.poll(), Ok(()));
    consumer.subscription = Subscription::topics(Vec::new(), true);
    assert_eq!(consumer.poll(), Err(ConsumerError::NotSubscribed));
    consumer.subscription.manual_assignment = true;
    assert_eq!(consumer.poll(), Ok(()));
}

#[test]
fn poll_waits_for_a_pending_eager_join_but_not_for_a_cooperative_one() {
    let mut consumer = consumer();
    assert_eq!(consumer.wait_for_rebalance(None), RebalanceWait::GoOn);
    consumer.rebalance_pending = true;
    assert_eq!(consumer.wait_for_rebalance(None), RebalanceWait::Wait(None));
    consumer.settings.rebalance_protocol = RebalanceProtocol::Cooperative;
    assert_eq!(consumer.wait_for_rebalance(None), RebalanceWait::GoOn);
    let failed = || ConsumerError::RebalanceListenerFailed("x".into());
    assert_eq!(
        consumer.wait_for_rebalance(Some(failed())),
        RebalanceWait::Wait(Some(failed()))
    );
    consumer.rebalance_pending = false;
    assert_eq!(
        consumer.wait_for_rebalance(Some(failed())),
        RebalanceWait::Fail(failed())
    );
    assert_eq!(
        Consumer::rebalance_waited(None, WaitEnd::Joined, None),
        Ok(true)
    );
    assert_eq!(
        Consumer::rebalance_waited(None, WaitEnd::Deadline, None),
        Ok(false)
    );
    assert_eq!(
        Consumer::rebalance_waited(None, WaitEnd::Woken, Some(failed())),
        Err(ConsumerError::Wakeup)
    );
    assert_eq!(
        Consumer::rebalance_waited(Some(failed()), WaitEnd::Woken, None),
        Err(failed())
    );
}

#[test]
fn a_poll_without_fetches_waits_for_its_deadline_or_the_backoff() {
    let mut consumer = consumer();
    assert_eq!(consumer.wait_without_fetches(false, 0, 9 * SECOND), 9 * SECOND);
    assert_eq!(
        consumer.wait_without_fetches(true, 0, 9 * SECOND),
        SECOND / 10
    );
    consumer.next_offsets.insert(key(0), LATEST_SENTINEL);
    assert_eq!(
        consumer.wait_without_fetches(false, 0, 9 * SECOND),
        SECOND / 10
    );
    assert_eq!(consumer.wait_without_fetches(false, 0, 5), 5);
}

#[test]
fn subscribe_replaces_the_subscription_and_drops_other_data() {
    let mut consumer = consumer();
    fetch(&mut consumer, 0);
    answer(
        &mut consumer,
        vec![(1, Some(Ok(response(0, with_records(5, 2)))))],
        0,
    )
    .1
    .unwrap();
    assert_eq!(consumer.fetch_buffer.len(), 2);
    assert_eq!(
        consumer.subscribe(vec!["b".into(), "a".into()]),
        Ok(SubscribeStep::Subscribed)
    );
    assert_eq!(
        consumer.subscription(),
        vec!["a".to_string(), "b".to_string()]
    );
    assert_eq!(consumer.subscription.version, 1);
    assert_eq!(consumer.fetch_buffer.len(), 0);
    assert_eq!(
        consumer.subscribe(vec![]),
        Ok(SubscribeStep::Unsubscribe)
    );
    assert_eq!(
        consumer
            .subscribe(vec!["a".into(), String::new()])
            .map_err(|e| e.message()),
        Err(
            "invalid argument: Topic collection to subscribe to cannot contain null or empty topic"
                .to_string()
        )
    );
}

#[test]
fn subscriptions_exclude_each_other() {
    let mut consumer = consumer();
    consumer.settings.group_protocol = GroupProtocol::Consumer;
    consumer
        .subscribe_pattern(TopicPattern::new(|_: &str| true))
        .unwrap();
    assert!(consumer.subscription.pattern.is_some());
    assert!(consumer.subscription().is_empty());
    consumer.subscribe_regex("orders.*").unwrap();
    assert!(consumer.subscription.pattern.is_none());
    assert_eq!(consumer.subscription.regex.as_deref(), Some("orders.*"));
    consumer.subscribe(vec!["orders".into()]).unwrap();
    assert!(consumer.subscription.regex.is_none());
    assert_eq!(consumer.subscription.version, 3);

    consumer.subscription.manual_assignment = true;
    let exclusive = Err(
        "illegal state: Subscription to topics, partitions and pattern are mutually exclusive"
            .to_string(),
    );
    assert_eq!(
        consumer
            .subscribe_pattern(TopicPattern::new(|_: &str| true))
            .map_err(|e| e.message()),
        exclusive
    );
    assert_eq!(
        consumer.subscribe_regex("x").map_err(|e| e.message()),
        exclusive
    );
    assert_eq!(
        consumer
            .subscribe(vec!["x".into()])
            .map(|_| ())
            .map_err(|e| e.message()),
        exclusive
    );
    assert_eq!(
        consumer.subscribe_regex("").map_err(|e| e.message()),
        Err("invalid argument: Topic pattern to subscribe to cannot be empty".to_string())
    );
    consumer.settings.group_protocol = GroupProtocol::Classic;
    assert!(matches!(
        consumer.subscribe_regex("x"),
        Err(ConsumerError::IllegalState(_))
    ));
}

#[test]
fn a_subscription_needs_a_group_membership() {
    let mut consumer = consumer();
    consumer.settings.group_membership = false;
    assert_eq!(
        consumer
            .subscribe(vec!["orders".into()])
            .map(|_| ())
            .map_err(|e| e.message()),
        Err("illegal state: the consumer was built without a subscription, so it has no group membership; build it with subscribe or subscribe_pattern to join a group".to_string())
    );
    consumer.settings.group_id = String::new();
    assert_eq!(
        consumer.subscribe_regex("x"),
        Err(ConsumerError::InvalidGroupId)
    );
    assert_eq!(
        consumer.committed_request(&vec![key(0)]).err(),
        Some(ConsumerError::InvalidGroupId)
    );
}

#[test]
fn unsubscribe_gives_up_everything_also_after_a_listener_error() {
    let mut consumer = consumer();
    let failed = || ConsumerError::RebalanceListenerFailed("x".into());
    assert_eq!(consumer.unsubscribe(Err(failed())), Err(failed()));
    assert!(consumer.assigned.is_empty());
    assert!(consumer.next_offsets.is_empty());
    assert!(consumer.ownership_ids.is_empty());
    assert!(consumer.subscription.is_none());
    assert_eq!(consumer.subscription.unsubscribes, 1);
    assert_eq!(consumer.poll(), Err(ConsumerError::NotSubscribed));
}

#[test]
fn poll_names_the_subscribed_topics_in_its_metadata_requests() {
    let mut consumer = consumer();
    consumer.prepare_poll();
    assert_eq!(consumer.metadata_topics, vec!["orders".to_string()]);
    consumer.subscription.topics = Vec::new();
    consumer.prepare_poll();
    assert_eq!(consumer.metadata_topics, vec!["orders".to_string()]);
}

#[test]
fn by_duration_resets_with_the_timestamp_of_now_minus_the_duration() {
    let mut consumer = consumer();
    consumer.settings.auto_offset_reset = AutoOffsetReset::ByDuration(3_600_000);
    consumer.next_offsets.insert(key(0), LATEST_SENTINEL);
    let now = 1_700_000_000_000;
    let plan = consumer.reset_plan(now);
    assert_eq!(plan[0].timestamp, now - 3_600_000);
    let sent = consumer.list_offsets(&plan[0].keys, plan[0].timestamp);
    assert_eq!(sent[0].0, 1);
    assert_eq!(sent[0].1.request.topics[0].partitions[0].timestamp, now - 3_600_000);
}

#[test]
fn fetch_waits_fetch_max_wait_and_not_the_poll_timeout() {
    let sent = fetch(&mut consumer(), 0);
    assert_eq!(sent[0].1.max_wait_ms, 500);
    assert_eq!(sent[0].1.min_bytes, 1);
    assert_eq!(sent[0].1.max_bytes, 50 * 1024 * 1024);
    let partition = &sent[0].1.topics[0].partitions[0];
    assert_eq!(
        (
            partition.partition,
            partition.current_leader_epoch,
            partition.fetch_offset,
            partition.partition_max_bytes,
        ),
        (0, 7, 5, 1024 * 1024)
    );
}

#[test]
fn records_fetched_before_a_pause_come_after_the_resume() {
    let mut consumer = consumer();
    fetch(&mut consumer, 0);
    answer(
        &mut consumer,
        vec![(1, Some(Ok(response(0, with_records(5, 3)))))],
        0,
    )
    .1
    .unwrap();
    consumer.pause(&vec![key(0)]).unwrap();
    for _ in 0..3 {
        assert_eq!(fetch(&mut consumer, 0).len(), 0);
        assert!(consumer.drain_fetch_buffer().is_empty());
        assert_eq!(consumer.fetch_buffer.len(), 3);
        assert_eq!(position(&consumer), Some(5));
    }
    consumer.resume(&vec![key(0)]).unwrap();
    assert_eq!(polled(&mut consumer, 0), vec![5, 6, 7]);
}

#[test]
fn a_row_that_is_not_read_needs_no_range() {
    let mut consumer = consumer();
    let names = id_to_name(&consumer.topic_ids);
    let answer = response(0, with_records(i64::MAX - 1, 3));
    assert!(!is_response_in_range(
        &answer,
        consumer.assigned.set(),
        &names
    ));
    consumer.assigned = Assignment::from_list(vec![key(1)]);
    assert!(is_response_in_range(
        &answer,
        consumer.assigned.set(),
        &names
    ));
    assert!(consumer
        .process_fetch_responses(&vec![answer], &names, 0)
        .is_ok());
    assert_eq!(consumer.fetch_buffer.len(), 0);
}

#[test]
fn a_lag_without_a_position_is_not_computed() {
    let mut consumer = consumer();
    consumer.end_offsets.insert(key(0), i64::MIN);
    consumer.next_offsets.insert(key(0), END_SENTINEL);
    assert_eq!(consumer.current_lag("orders", 0), Ok(None));
    consumer.assigned = Assignment::new();
    assert!(consumer.current_lag("orders", 0).is_err());
}

#[test]
fn a_session_keeps_the_epoch_of_its_request() {
    let mut consumer = consumer();
    let mut epochs = Vec::new();
    for _ in 0..4 {
        let sent = fetch(&mut consumer, 0);
        let next = consumer.fetches.sessions.get(&1).unwrap().next;
        assert_eq!(
            (next.session_id, next.epoch),
            (sent[0].1.session_id, sent[0].1.session_epoch)
        );
        epochs.push(next.epoch);
        answer(&mut consumer, vec![(1, Some(Ok(response(77, part(0)))))], 0)
            .1
            .unwrap();
    }
    assert_eq!(epochs, vec![0, 1, 2, 3]);
}

#[test]
fn a_cooperative_join_without_partitions_is_waited_for() {
    let mut consumer = consumer();
    consumer.settings.rebalance_protocol = RebalanceProtocol::Cooperative;
    consumer.rebalance_pending = true;
    assert_eq!(consumer.wait_for_rebalance(None), RebalanceWait::GoOn);
    consumer.assigned = Assignment::new();
    assert_eq!(consumer.wait_for_rebalance(None), RebalanceWait::Wait(None));
}

#[test]
fn the_records_of_one_fetch_come_in_full_polls() {
    let mut consumer = consumer();
    fetch(&mut consumer, 0);
    answer(
        &mut consumer,
        vec![(1, Some(Ok(response(77, with_records(5, 1200)))))],
        0,
    )
    .1
    .unwrap();
    let counts: Vec<usize> = (0..3).map(|_| polled(&mut consumer, 0).len()).collect();
    assert_eq!(counts, vec![500, 500, 200]);
}

#[test]
fn fetches_are_grouped_in_the_order_of_the_assignment() {
    let mut consumer = consumer();
    consumer.assigned = Assignment::from_list(vec![key(2), key(0), key(2), key(1)]);
    for partition in 0..3 {
        consumer.next_offsets.insert(key(partition), 5);
        consumer.positions.insert(
            key(partition),
            PartitionPosition {
                leader_id: 1,
                ..Default::default()
            },
        );
    }
    // The preference of a repeated partition expired.
    consumer
        .fetches
        .preferred_read_replicas
        .insert(key(2), (2, 100));
    let (grouped, refresh) = consumer.group_fetches(101);
    assert!(!refresh);
    assert_eq!(grouped.len(), 1);
    let partitions: Vec<i32> = grouped
        .get(&1)
        .unwrap()
        .get(&"orders".to_string())
        .unwrap()
        .iter()
        .map(|spec| spec.0)
        .collect();
    assert_eq!(partitions, vec![2, 0, 2, 1]);
    // The request has each partition once, in order.
    let sent = consumer.send_fetches(&grouped);
    let asked: Vec<i32> = sent[0].1.topics[0]
        .partitions
        .iter()
        .map(|partition| partition.partition)
        .collect();
    assert_eq!(asked, vec![0, 1, 2]);
}

#[test]
fn rows_of_unowned_partitions_have_no_effect() {
    for error_code in [0, 1, 3, 6, 29, 74] {
        let mut row = part(error_code);
        row.partition_index = 7;
        let with_other = FetchResponse {
            responses: vec![FetchableTopicResponse {
                topic: String::new(),
                topic_id: TOPIC_ID,
                partitions: vec![row, with_records(5, 2)],
            }],
            ..response(0, part(0))
        };
        let mut states = Vec::new();
        for answer in [with_other, response(0, with_records(5, 2))] {
            let mut consumer = consumer();
            let names = id_to_name(&consumer.topic_ids);
            let outcome = consumer
                .process_fetch_responses(&vec![answer], &names, 0)
                .unwrap();
            states.push((
                outcome.refresh,
                outcome.out_of_range,
                outcome.polled_resets,
                consumer.next_offsets.clone(),
                consumer.positions.clone(),
                consumer.end_offsets.clone(),
                consumer.drain_fetch_buffer(),
            ));
        }
        assert_eq!(states[0], states[1], "code {error_code}");
    }
}

#[test]
fn the_subscribed_topics_come_back_sorted() {
    let mut consumer = consumer();
    let topics = |names: &[&str]| names.iter().map(|n| (*n).to_string()).collect::<Vec<_>>();
    consumer.subscribe(topics(&["c", "a", "b", "a"])).unwrap();
    assert_eq!(consumer.subscription(), topics(&["a", "b", "c"]));
}
