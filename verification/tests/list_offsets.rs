//! Offsets by timestamp, and the helpers of `poll`.
use krabka_client_consumer::collections::{SortedMap, SortedSet};
use krabka_client_consumer::config::{is_read_committed, AutoOffsetReset, IsolationLevel};
use krabka_client_consumer::error::{ClientError, ConsumerError};
use krabka_client_consumer::fetch::{
    build_fetch_request, classify_fetch_partition_error, readable_end_offset, record_readable_end,
    FetchPartition, FetchPartitionAction, FetchRequest, FetchTopic, ForgottenTopic, ReplicaState,
};
use krabka_client_consumer::fetch_session::{SessionPartition, SessionRequest};
use krabka_client_consumer::list_offsets::{
    build_offsets_request, classify_list_offsets_row, fetch_leader_id, fetch_offset_or_unknown,
    group_list_offsets, is_reset_sentinel, is_transient_poll_error, is_transient_transport_error,
    keys_at, out_of_range_positions, out_of_range_truncation, reset_timestamp,
    should_use_bootstrap_leader, unix_ms, with_min_version, ListOffsetsPartition,
    ListOffsetsPartitionResponse, ListOffsetsRequest, ListOffsetsResponse, ListOffsetsResult,
    ListOffsetsRowAction, ListOffsetsTopic, ListOffsetsTopicResponse, BEGINNING_SENTINEL,
    BOOTSTRAP_LEADER, COMMITTED_SENTINEL, EARLIEST_TIMESTAMP, END_SENTINEL, LATEST_SENTINEL,
    LATEST_TIMESTAMP, UNKNOWN_FETCH_OFFSET, UNKNOWN_LEADER_ID, UNKNOWN_OFFSET,
};
use krabka_client_consumer::position::PartitionPosition;
use krabka_client_consumer::records::{
    aborted_txn_started, record_offset, should_drop_aborted_batch,
};
use krabka_client_consumer::wire::{LeaderEpoch, Uuid};

fn id(n: u8) -> Uuid {
    Uuid(u128::from(n))
}

#[test]
fn fetch_partition_error_codes_map_to_kafka_consumer_actions() {
    for (name, error_code, expected) in [
        ("none", 0, FetchPartitionAction::Records),
        ("offset out of range", 1, FetchPartitionAction::ResetOffset),
        (
            "unknown topic or partition",
            3,
            FetchPartitionAction::RefreshMetadata,
        ),
        ("not leader or follower", 6, FetchPartitionAction::Reroute),
        (
            "fenced leader epoch",
            74,
            FetchPartitionAction::RevalidateEpoch,
        ),
        (
            "unknown leader epoch",
            75,
            FetchPartitionAction::RevalidateEpoch,
        ),
        (
            "unknown topic id",
            100,
            FetchPartitionAction::RefreshMetadata,
        ),
        (
            "replica not available",
            9,
            FetchPartitionAction::RefreshMetadata,
        ),
        (
            "kafka storage error",
            56,
            FetchPartitionAction::RefreshMetadata,
        ),
        (
            "offset not available",
            78,
            FetchPartitionAction::RefreshMetadata,
        ),
        (
            "inconsistent topic id",
            103,
            FetchPartitionAction::RefreshMetadata,
        ),
        (
            "topic authorization failed",
            29,
            FetchPartitionAction::Fail(29),
        ),
    ] {
        assert_eq!(
            classify_fetch_partition_error(error_code),
            expected,
            "case {name}"
        );
    }
}

#[test]
fn fetch_leader_id_uses_known_non_negative_leader_or_bootstrap() {
    assert_eq!(BOOTSTRAP_LEADER, -1);
    assert_eq!(UNKNOWN_LEADER_ID, -1);
    assert_eq!(UNKNOWN_FETCH_OFFSET, -1);
    for (name, leader, known, expected) in [
        ("known non-negative", 3, true, 3),
        ("negative leader", -1, true, BOOTSTRAP_LEADER),
        ("unknown broker", 3, false, BOOTSTRAP_LEADER),
    ] {
        assert_eq!(fetch_leader_id(leader, known), expected, "case {name}");
    }
    for (name, leader, expected) in [
        ("bootstrap sentinel", BOOTSTRAP_LEADER, true),
        ("broker leader", 3, false),
    ] {
        assert_eq!(should_use_bootstrap_leader(leader), expected, "case {name}");
    }
}

#[test]
fn readable_end_respects_consumer_isolation() {
    assert_eq!(
        readable_end_offset(IsolationLevel::ReadUncommitted, 12, 9),
        12
    );
    assert_eq!(
        readable_end_offset(IsolationLevel::ReadCommitted, 12, 9),
        9
    );

    let mut ends = SortedMap::new();
    record_readable_end(
        &mut ends,
        ("topic-a".into(), 0),
        IsolationLevel::ReadCommitted,
        12,
        9,
    );
    assert_eq!(ends.get(&("topic-a".into(), 0)), Some(&9));
}

#[test]
fn poll_helpers_preserve_sentinel_filter_and_record_math_boundaries() {
    let key = ("topic-a".to_string(), 2);
    let mut offsets = SortedMap::new();

    assert_eq!(
        fetch_offset_or_unknown(&offsets, &key),
        UNKNOWN_FETCH_OFFSET
    );
    offsets.insert(key.clone(), 42);
    assert_eq!(fetch_offset_or_unknown(&offsets, &key), 42);

    for (name, isolation, expected) in [
        ("read committed", IsolationLevel::ReadCommitted, true),
        ("read uncommitted", IsolationLevel::ReadUncommitted, false),
    ] {
        assert_eq!(is_read_committed(isolation), expected, "case {name}");
    }
    for (name, first, offset, expected) in [
        ("at first offset", 10, 10, true),
        ("after first offset", 10, 11, true),
        ("before first offset", 11, 10, false),
    ] {
        assert_eq!(aborted_txn_started(first, offset), expected, "case {name}");
    }
    for (name, committed, aborted, started, expected) in [
        ("drop aborted", true, true, true, true),
        ("uncommitted isolation", false, true, true, false),
        ("not aborted", true, false, true, false),
        ("transaction not started", true, true, false, false),
    ] {
        assert_eq!(
            should_drop_aborted_batch(committed, aborted, started),
            expected,
            "case {name}"
        );
    }
    assert_eq!(record_offset(100, 7), 107);
}

#[test]
fn transient_transport_error_classification_is_narrow() {
    for (name, error, expected) in [
        ("disconnected", ClientError::Disconnected, true),
        ("timeout", ClientError::Timeout("10ms".into()), true),
        ("connection reset", ClientError::Io("reset".into()), true),
        (
            "connect refused",
            ClientError::Connect("127.0.0.1:9092: refused".into()),
            true,
        ),
        ("server error", ClientError::Server { error_code: 6 }, false),
        (
            "incompatible version",
            ClientError::IncompatibleVersion {
                api_key: 1,
                broker_min: 0,
                broker_max: 1,
                client_min: 2,
                client_max: 3,
            },
            false,
        ),
    ] {
        assert_eq!(
            is_transient_transport_error(&error),
            expected,
            "case {name}"
        );
    }
    for (name, error, expected) in [
        (
            "client connect",
            ConsumerError::Client(ClientError::Connect("127.0.0.1:9092: refused".into())),
            true,
        ),
        ("server", ConsumerError::Server(6), false),
    ] {
        assert_eq!(is_transient_poll_error(&error), expected, "case {name}");
    }
}

#[test]
fn build_fetch_request_carries_limits_session_partitions_and_forgotten_topics() {
    let partition = |fetch_offset| SessionPartition {
        topic_id: id(7),
        fetch_offset,
        current_leader_epoch: 5,
        last_fetched_epoch: 4,
        partition_max_bytes: 128 * 1024,
    };
    let req = build_fetch_request(
        500,
        IsolationLevel::ReadCommitted,
        7,
        2 * 1024 * 1024,
        "az-1",
        SessionRequest {
            session_id: 77,
            session_epoch: 3,
            partitions: SortedMap::from_entries(vec![
                (("topic-a".to_owned(), 2), partition(42)),
                (("topic-a".to_owned(), 3), partition(43)),
            ]),
            forgotten: vec![
                (("topic-b".to_owned(), 0), id(8)),
                (("topic-b".to_owned(), 1), id(8)),
            ],
        },
    );
    let fetch_partition = |partition, fetch_offset| FetchPartition {
        partition,
        current_leader_epoch: 5,
        fetch_offset,
        last_fetched_epoch: 4,
        log_start_offset: -1,
        partition_max_bytes: 128 * 1024,
        replica_directory_id: Uuid(0),
        high_watermark: i64::MAX,
    };
    assert_eq!(
        req,
        FetchRequest {
            replica_id: -1,
            max_wait_ms: 500,
            min_bytes: 7,
            max_bytes: 2 * 1024 * 1024,
            isolation_level: 1, // read_committed wire value
            session_id: 77,
            session_epoch: 3,
            topics: vec![FetchTopic {
                topic: "topic-a".into(),
                topic_id: id(7),
                partitions: vec![fetch_partition(2, 42), fetch_partition(3, 43)],
            }],
            forgotten_topics_data: vec![ForgottenTopic {
                topic: "topic-b".into(),
                topic_id: id(8),
                partitions: vec![0, 1],
            }],
            rack_id: "az-1".into(),
            cluster_id: None,
            replica_state: ReplicaState {
                replica_id: -1,
                replica_epoch: -1,
            },
        }
    );
}

#[test]
fn offsets_request_carries_the_timestamp_isolation_and_leader_epoch() {
    for (timestamp, isolation, isolation_level, leader_epoch) in [
        (LATEST_TIMESTAMP, IsolationLevel::ReadCommitted, 1, 4),
        (LATEST_TIMESTAMP, IsolationLevel::ReadUncommitted, 0, -1),
        (EARLIEST_TIMESTAMP, IsolationLevel::ReadCommitted, 1, -1),
        (EARLIEST_TIMESTAMP, IsolationLevel::ReadUncommitted, 0, 9),
    ] {
        let by_topic = SortedMap::from_entries(vec![(
            "topic-a".to_string(),
            vec![(3, LeaderEpoch(leader_epoch))],
        )]);
        let req = build_offsets_request(&by_topic, timestamp, isolation);

        assert_eq!(
            req,
            ListOffsetsRequest {
                replica_id: -1,
                isolation_level,
                topics: vec![ListOffsetsTopic {
                    name: "topic-a".into(),
                    partitions: vec![ListOffsetsPartition {
                        partition_index: 3,
                        current_leader_epoch: leader_epoch,
                        timestamp,
                    }],
                }],
                timeout_ms: 0,
            },
            "timestamp {timestamp}, isolation {isolation:?}"
        );
    }
}

#[test]
fn list_offsets_partitions_group_by_leader_with_the_leader_epoch() {
    let position = |leader_id, leader_epoch| PartitionPosition {
        leader_id,
        leader_epoch: LeaderEpoch(leader_epoch),
        ..Default::default()
    };
    let positions = SortedMap::from_entries(vec![
        (("topic-a".to_string(), 0), position(1, 5)),
        (("topic-a".to_string(), 1), position(2, 6)),
        (("topic-b".to_string(), 0), position(1, 3)),
        (("topic-b".to_string(), 1), position(3, 8)),
    ]);
    let keys = vec![
        ("topic-a".to_string(), 0),
        ("topic-a".to_string(), 1),
        ("topic-b".to_string(), 0),
        ("topic-b".to_string(), 1),
        ("topic-c".to_string(), 0),
    ];
    // Every broker but 3 is known.
    let known = SortedSet::from_items(vec![1, 2]);
    let grouped = group_list_offsets(&keys, &positions, &known);
    assert_eq!(
        grouped,
        SortedMap::from_entries(vec![
            (
                BOOTSTRAP_LEADER,
                SortedMap::from_entries(vec![
                    ("topic-b".to_string(), vec![(1, LeaderEpoch(8))]),
                    ("topic-c".to_string(), vec![(0, LeaderEpoch(-1))]),
                ]),
            ),
            (
                1,
                SortedMap::from_entries(vec![
                    ("topic-a".to_string(), vec![(0, LeaderEpoch(5))]),
                    ("topic-b".to_string(), vec![(0, LeaderEpoch(3))]),
                ]),
            ),
            (
                2,
                SortedMap::from_entries(vec![(
                    "topic-a".to_string(),
                    vec![(1, LeaderEpoch(6))]
                )]),
            ),
        ])
    );
}

#[test]
fn list_offsets_rows_map_to_kafka_consumer_actions() {
    for (name, error_code, offset, expected) in [
        ("none", 0, 40, ListOffsetsRowAction::Position(40)),
        ("none at zero", 0, 0, ListOffsetsRowAction::Position(0)),
        ("none without an offset", 0, -1, ListOffsetsRowAction::Retry),
        ("not leader or follower", 6, -1, ListOffsetsRowAction::Retry),
        (
            "unknown topic or partition",
            3,
            -1,
            ListOffsetsRowAction::Retry,
        ),
        ("leader not available", 5, -1, ListOffsetsRowAction::Retry),
        ("replica not available", 9, -1, ListOffsetsRowAction::Retry),
        ("offset not available", 78, -1, ListOffsetsRowAction::Retry),
        ("fenced leader epoch", 74, -1, ListOffsetsRowAction::Retry),
        ("unknown leader epoch", 75, -1, ListOffsetsRowAction::Retry),
        ("kafka storage error", 56, -1, ListOffsetsRowAction::Retry),
        (
            "unsupported for message format",
            43,
            -1,
            ListOffsetsRowAction::Retry,
        ),
        ("unexpected code", 2, -1, ListOffsetsRowAction::Retry),
        (
            "topic authorization failed",
            29,
            -1,
            ListOffsetsRowAction::Unauthorized,
        ),
    ] {
        assert_eq!(
            classify_list_offsets_row(error_code, offset),
            expected,
            "case {name}"
        );
    }
}

fn row(partition_index: i32, error_code: i16, offset: i64) -> ListOffsetsPartitionResponse {
    ListOffsetsPartitionResponse {
        partition_index,
        error_code,
        timestamp: -1,
        offset,
        leader_epoch: -1,
    }
}

fn answer(name: &str, rows: Vec<ListOffsetsPartitionResponse>) -> ListOffsetsResponse {
    ListOffsetsResponse {
        topics: vec![ListOffsetsTopicResponse {
            name: name.into(),
            partitions: rows,
        }],
    }
}

#[test]
fn list_offsets_result_collects_offsets_retries_and_unauthorized_topics() {
    let requested = vec![("topic-a".to_string(), 0), ("topic-a".to_string(), 1)];
    for (name, answers, expected) in [
        (
            "every partition answered",
            vec![answer("topic-a", vec![row(0, 0, 5), row(1, 0, 9)])],
            ListOffsetsResult {
                offsets: SortedMap::from_entries(vec![
                    (("topic-a".to_string(), 0), 5),
                    (("topic-a".to_string(), 1), 9),
                ]),
                retry: false,
                unauthorized: SortedSet::new(),
            },
        ),
        (
            "an error row is retried",
            vec![answer("topic-a", vec![row(0, 0, 5), row(1, 6, -1)])],
            ListOffsetsResult {
                offsets: SortedMap::from_entries(vec![(("topic-a".to_string(), 0), 5)]),
                retry: true,
                unauthorized: SortedSet::new(),
            },
        ),
        (
            "a missing row is retried and an unrequested row is ignored",
            vec![answer("topic-a", vec![row(0, 0, 5), row(2, 0, 3)])],
            ListOffsetsResult {
                offsets: SortedMap::from_entries(vec![(("topic-a".to_string(), 0), 5)]),
                retry: true,
                unauthorized: SortedSet::new(),
            },
        ),
        (
            "an unauthorized answer gives no offsets",
            vec![answer("topic-a", vec![row(0, 0, 5), row(1, 29, -1)])],
            ListOffsetsResult {
                offsets: SortedMap::new(),
                retry: true,
                unauthorized: SortedSet::from_items(vec!["topic-a".to_string()]),
            },
        ),
    ] {
        assert_eq!(
            ListOffsetsResult::collect(&requested, &answers),
            expected,
            "case {name}"
        );
    }
}

#[test]
fn list_offsets_result_authorization_names_the_unauthorized_topics() {
    let mut result = ListOffsetsResult {
        offsets: SortedMap::new(),
        retry: false,
        unauthorized: SortedSet::new(),
    };
    assert_eq!(result.authorization().map_err(|e| e.message()), Ok(()));
    result.unauthorized.insert("topic-a".to_string());
    assert_eq!(
        result.authorization().map_err(|e| e.message()),
        Err(
            ConsumerError::TopicAuthorizationFailed(SortedSet::from_items(vec![
                "topic-a".to_string()
            ]))
            .message()
        )
    );
}

#[test]
fn out_of_range_positions_uses_the_log_start_and_skips_the_unanswered() {
    let out_of_range = vec![
        (("topic-a".to_string(), 0), 0),
        (("topic-a".to_string(), 1), 3),
    ];
    let log_starts = SortedMap::from_entries(vec![(("topic-a".to_string(), 0), 5)]);
    assert_eq!(
        out_of_range_positions(&out_of_range, &log_starts),
        vec![(("topic-a".to_string(), 0), 5)]
    );
}

#[test]
fn out_of_range_truncation_names_the_first_partition_and_its_log_start() {
    for (answered, expected_safe) in [(true, 5), (false, UNKNOWN_OFFSET)] {
        let log_starts = if answered {
            SortedMap::from_entries(vec![(("topic-a".to_string(), 0), 5)])
        } else {
            SortedMap::new()
        };
        let out_of_range = vec![
            (("topic-a".to_string(), 0), 2),
            (("topic-a".to_string(), 1), 3),
        ];
        assert_eq!(
            out_of_range_truncation(&out_of_range, &log_starts).map(|e| e.message()),
            Some(
                ConsumerError::LogTruncation {
                    topic: "topic-a".to_string(),
                    partition: 0,
                    fetch_offset: 2,
                    safe_offset: expected_safe,
                }
                .message()
            )
        );
    }
}

#[test]
fn out_of_range_truncation_is_none_for_an_empty_set() {
    assert!(out_of_range_truncation(&vec![], &SortedMap::new()).is_none());
}

#[test]
fn keys_at_selects_only_the_sentinel_partitions() {
    let mut offsets: SortedMap<(String, i32), i64> = SortedMap::new();
    offsets.insert(("topic-a".to_string(), 0), LATEST_SENTINEL);
    offsets.insert(("topic-a".to_string(), 1), 42);
    assert_eq!(
        keys_at(&offsets, LATEST_SENTINEL),
        vec![("topic-a".to_string(), 0)]
    );
}

#[test]
fn reset_timestamp_follows_the_reset_policy() {
    let now = 1_700_000_000_000;
    let actual = [
        AutoOffsetReset::Latest,
        AutoOffsetReset::NoReset,
        AutoOffsetReset::ByDuration(3_600_000),
        AutoOffsetReset::ByDuration(1500),
    ]
    .map(|policy| reset_timestamp(policy, now));
    assert_eq!(actual, [-1, -1, now - 3_600_000, now - 1500]);
}

#[test]
fn a_reset_timestamp_stops_at_the_first_time() {
    assert_eq!(
        reset_timestamp(AutoOffsetReset::ByDuration(u128::MAX), -5),
        i64::MIN
    );
    assert_eq!(
        reset_timestamp(AutoOffsetReset::ByDuration(u128::MAX), 5),
        5 - i64::MAX
    );
}

#[test]
fn the_placeholders_are_the_last_offsets() {
    for sentinel in [
        LATEST_SENTINEL,
        BEGINNING_SENTINEL,
        END_SENTINEL,
        COMMITTED_SENTINEL,
    ] {
        assert!(is_reset_sentinel(sentinel));
    }
    assert!(!is_reset_sentinel(COMMITTED_SENTINEL - 1));
    assert!(!is_reset_sentinel(0));
}

#[test]
fn the_clock_gives_milliseconds_that_fit() {
    assert_eq!(unix_ms(None), 0);
    assert_eq!(unix_ms(Some(12)), 12);
    assert_eq!(unix_ms(Some(u128::MAX)), i64::MAX);
}

#[test]
fn a_request_needs_the_version_that_carries_its_fields() {
    for (isolation, timestamps, expected) in [
        (IsolationLevel::ReadCommitted, false, 2),
        (IsolationLevel::ReadCommitted, true, 2),
        (IsolationLevel::ReadUncommitted, true, 1),
        (IsolationLevel::ReadUncommitted, false, 0),
    ] {
        let request = build_offsets_request(&SortedMap::new(), 0, isolation);
        assert_eq!(
            with_min_version(request, isolation, timestamps).min_version,
            expected
        );
    }
}
