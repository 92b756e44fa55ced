//! Offset fetches and commits.
use krabka_client_consumer::collections::{SortedMap, SortedSet};
use krabka_client_consumer::offset_wire::{
    build_commit_topics, build_offset_fetch, classify_offset_fetch, id_to_name,
    is_retriable_error, parse_committed_offsets, parse_offset_fetch, OffsetAndMetadata,
    OffsetCommitPartition, OffsetCommitTopic, OffsetFetchAction, OffsetFetchGroup,
    OffsetFetchPartition, OffsetFetchRequestGroup, OffsetFetchRequestTopic, OffsetFetchResponse,
    OffsetFetchTopic, TopicNameOffsetFetch, UNSTABLE_OFFSET_COMMIT,
};
use krabka_client_consumer::wire::Uuid;
use OffsetFetchAction::{
    Complete, Fatal, FindCoordinator, GroupAuthorizationFailed, Retry, RetryUnknownTopic,
    TopicAuthorizationFailed,
};

fn id(n: u8) -> Uuid {
    Uuid(u128::from(n))
}

#[test]
fn build_offset_fetch_populates_legacy_and_groups() {
    let by_topic = SortedMap::from_entries(vec![("t".to_string(), vec![0, 1])]);
    let req = build_offset_fetch("g", &by_topic);
    let topic = || OffsetFetchRequestTopic {
        name: "t".to_string(),
        topic_id: Uuid(0),
        partition_indexes: vec![0, 1],
    };
    assert_eq!(
        req,
        TopicNameOffsetFetch {
            max_version: 9,
            group_id: "g".to_string(),
            topics: vec![topic()],
            groups: vec![OffsetFetchRequestGroup {
                group_id: "g".to_string(),
                member_id: None,
                member_epoch: -1,
                topics: vec![topic()],
            }],
            require_stable: true,
        }
    );
}

fn row(partition_index: i32, committed_offset: i64, error_code: i16) -> OffsetFetchPartition {
    OffsetFetchPartition {
        partition_index,
        committed_offset,
        committed_leader_epoch: -1,
        metadata: None,
        error_code,
    }
}

/// The topic name of `n` in the `grouped` rows.
fn topic_name(n: u8) -> String {
    match n {
        1 => "orders".into(),
        2 => "payments".into(),
        _ => "shipments".into(),
    }
}

/// A response for group `g` in the shape with groups.
fn grouped(group_error: i16, rows: &[(u8, i16)]) -> OffsetFetchResponse {
    OffsetFetchResponse {
        topics: Vec::new(),
        error_code: 0,
        groups: vec![OffsetFetchGroup {
            group_id: "g".into(),
            error_code: group_error,
            topics: rows
                .iter()
                .map(|(topic, error_code)| OffsetFetchTopic {
                    name: topic_name(*topic),
                    partitions: vec![row(0, -1, *error_code)],
                })
                .collect(),
        }],
    }
}

/// A response in the shape without groups.
fn legacy(group_error: i16, rows: &[(&str, i16)]) -> OffsetFetchResponse {
    OffsetFetchResponse {
        error_code: group_error,
        topics: rows
            .iter()
            .map(|(name, error_code)| OffsetFetchTopic {
                name: (*name).into(),
                partitions: vec![row(0, -1, *error_code)],
            })
            .collect(),
        groups: Vec::new(),
    }
}

#[test]
fn classify_offset_fetch_maps_codes_as_kafka_does() {
    let topics = |names: &[&str]| {
        TopicAuthorizationFailed(SortedSet::from_items(
            names.iter().map(|name| (*name).to_string()).collect(),
        ))
    };
    for (name, response, expected) in [
        ("no error", grouped(0, &[(1, 0), (2, 0)]), Complete),
        ("no rows", grouped(0, &[]), Complete),
        ("coordinator load in progress", grouped(14, &[]), Retry(14)),
        (
            "coordinator not available",
            grouped(15, &[]),
            FindCoordinator(15),
        ),
        ("not coordinator", grouped(16, &[]), FindCoordinator(16)),
        ("request timed out", grouped(7, &[]), Retry(7)),
        ("network exception", grouped(13, &[]), Retry(13)),
        (
            "group authorization failed",
            grouped(30, &[]),
            GroupAuthorizationFailed,
        ),
        ("unknown member id", grouped(25, &[]), Fatal(25)),
        ("stale member epoch", grouped(113, &[]), Fatal(113)),
        ("group id not found", grouped(69, &[]), Fatal(69)),
        ("unknown server error", grouped(-1, &[]), Fatal(-1)),
        (
            "a group code hides the partition codes",
            grouped(14, &[(1, 29)]),
            Retry(14),
        ),
        (
            "unknown topic or partition",
            grouped(0, &[(1, 0), (2, 3)]),
            RetryUnknownTopic(3),
        ),
        (
            "unknown topic id",
            grouped(0, &[(1, 100)]),
            RetryUnknownTopic(100),
        ),
        (
            "topic authorization failed names each topic",
            grouped(0, &[(1, 29), (2, 29), (3, 29)]),
            topics(&["orders", "payments", "shipments"]),
        ),
        (
            "unstable offset commit",
            grouped(0, &[(1, 88)]),
            Retry(UNSTABLE_OFFSET_COMMIT),
        ),
        (
            "not leader or follower is unexpected",
            grouped(0, &[(1, 6)]),
            Fatal(6),
        ),
        (
            "unknown member id on a partition is unexpected",
            grouped(0, &[(1, 25)]),
            Fatal(25),
        ),
        (
            "topic authorization comes before unstable offsets",
            grouped(0, &[(1, 88), (2, 29)]),
            topics(&["payments"]),
        ),
        (
            "unstable offsets come before unknown topics",
            grouped(0, &[(1, 100), (2, 88)]),
            Retry(UNSTABLE_OFFSET_COMMIT),
        ),
        (
            "an unexpected code comes before collected codes",
            grouped(0, &[(1, 29), (2, 6)]),
            Fatal(6),
        ),
        (
            "the first unexpected code wins",
            grouped(0, &[(1, 6), (2, 25)]),
            Fatal(6),
        ),
        (
            "legacy group code",
            legacy(16, &[("orders", 0)]),
            FindCoordinator(16),
        ),
        (
            "legacy topic authorization failed",
            legacy(0, &[("orders", 29)]),
            topics(&["orders"]),
        ),
        (
            "legacy unknown topic or partition",
            legacy(0, &[("orders", 3)]),
            RetryUnknownTopic(3),
        ),
    ] {
        assert_eq!(classify_offset_fetch(&response), expected, "case {name}");
    }
}

#[test]
fn is_retriable_error_matches_kafka_retriable_exceptions() {
    let retriable = (-1..=140)
        .filter(|code| is_retriable_error(*code))
        .collect::<Vec<i16>>();
    assert_eq!(
        retriable,
        vec![
            2, 3, 5, 6, 7, 9, 13, 14, 15, 16, 19, 20, 41, 51, 56, 70, 71, 72, 74, 75, 78, 80, 83,
            84, 88, 89, 100, 103, 106, 122, 123, 133,
        ]
    );
}

#[test]
fn parse_offset_fetch_reads_groups_with_name() {
    let resp = OffsetFetchResponse {
        topics: Vec::new(),
        error_code: 0,
        groups: vec![OffsetFetchGroup {
            group_id: "g".into(),
            topics: vec![OffsetFetchTopic {
                name: "t".into(),
                partitions: vec![row(3, 42, 0)],
            }],
            error_code: 0,
        }],
    };
    assert_eq!(
        parse_offset_fetch(&resp),
        vec![("t".to_string(), 3, 42, -1)]
    );
}

#[test]
fn parse_offset_fetch_falls_back_to_legacy_topics() {
    let resp = OffsetFetchResponse {
        topics: vec![OffsetFetchTopic {
            name: "legacy".into(),
            partitions: vec![row(1, 11, 0)],
        }],
        error_code: 0,
        groups: Vec::new(),
    };
    assert_eq!(
        parse_offset_fetch(&resp),
        vec![("legacy".to_string(), 1, 11, -1)]
    );
}

#[test]
fn build_commit_topics_tags_topic_id() {
    let offsets = SortedMap::from_entries(vec![(("t".to_string(), 3), (100, 5))]);
    let ids = SortedMap::from_entries(vec![("t".to_string(), id(7))]);
    let topics = build_commit_topics(offsets, &ids);
    assert_eq!(
        topics,
        vec![OffsetCommitTopic {
            name: "t".to_string(),
            topic_id: id(7),
            partitions: vec![OffsetCommitPartition {
                partition_index: 3,
                committed_offset: 100,
                committed_leader_epoch: 5,
                committed_metadata: Some(String::new()),
            }],
        }]
    );

    // Without an id the topic has the id of none.
    let o2 = SortedMap::from_entries(vec![(("u".to_string(), 0), (1, -1))]);
    let t2 = build_commit_topics(o2, &SortedMap::new());
    assert_eq!(t2[0].topic_id, Uuid(0));
}

#[test]
fn commit_topics_name_each_topic_once_in_order() {
    let offsets = SortedMap::from_entries(vec![
        (("b".to_string(), 1), (7, 0)),
        (("a".to_string(), 2), (5, 1)),
        (("b".to_string(), 0), (6, 0)),
    ]);
    let rows: Vec<(String, Vec<(i32, i64)>)> = build_commit_topics(offsets, &SortedMap::new())
        .into_iter()
        .map(|topic| {
            let partitions = topic
                .partitions
                .iter()
                .map(|p| (p.partition_index, p.committed_offset))
                .collect();
            (topic.name, partitions)
        })
        .collect();
    assert_eq!(
        rows,
        vec![
            ("a".to_string(), vec![(2, 5)]),
            ("b".to_string(), vec![(0, 6), (1, 7)]),
        ]
    );
}

#[test]
fn id_to_name_inverts_the_map() {
    let ids = SortedMap::from_entries(vec![("t".to_string(), id(7))]);
    let inv = id_to_name(&ids);
    assert_eq!(inv.get(&id(7)), Some(&"t".to_string()));
}

#[test]
fn committed_offsets_leave_out_errors_and_missing_commits() {
    let partition = |index, offset, epoch, metadata: &str, code| OffsetFetchPartition {
        partition_index: index,
        committed_offset: offset,
        committed_leader_epoch: epoch,
        metadata: Some(metadata.to_string()),
        error_code: code,
    };
    let resp = OffsetFetchResponse {
        topics: vec![OffsetFetchTopic {
            name: "orders".into(),
            partitions: vec![
                partition(0, 10, 3, "note", 0),
                partition(1, -1, -1, "", 0),
                partition(2, 4, 1, "", 3),
            ],
        }],
        error_code: 0,
        groups: Vec::new(),
    };
    let committed = parse_committed_offsets(&resp);
    assert_eq!(
        committed.get(&("orders".to_string(), 0)),
        Some(&Some(OffsetAndMetadata {
            offset: 10,
            leader_epoch: Some(3),
            metadata: "note".into(),
        }))
    );
    assert_eq!(committed.get(&("orders".to_string(), 1)), Some(&None));
    assert_eq!(committed.get(&("orders".to_string(), 2)), Some(&None));
    assert_eq!(committed.get(&("orders".to_string(), 3)), None);
}
