//! The group member: its requests, joins, heartbeats and retries.
use bytes::Bytes;
use krabka_client_consumer::assignment::Assignment;
use krabka_client_consumer::collections::{SortedMap, SortedSet};
use krabka_client_consumer::config::{
    AutoOffsetReset, GroupProtocol, IsolationLevel, RebalanceProtocol,
};
use krabka_client_consumer::consumer::{Consumer, ConsumerSettings};
use krabka_client_consumer::coordinator::{
    subscription_metadata_refresh_due, TaskEvent, TaskStep,
};
use krabka_client_consumer::error::{ClientError, ConsumerError};
use krabka_client_consumer::group_wire::{
    build_find_coordinator_request, build_heartbeat_request, build_leave_group_request,
    build_sync_group_assignment, build_sync_group_request, coordinator_error_code,
    coordinator_node_id, find_coordinator, heartbeat_outcome, heartbeat_rejoin_reason,
    rebalance_failure_reason, should_send_leave_group, truncate_reason, Coordinator,
    FindCoordinatorRequest, FindCoordinatorResponse, GroupMembershipOperation, HeartbeatOutcome,
    HeartbeatRequest, JoinGroupRequest, JoinGroupRequestProtocol, JoinRequestFields,
    LeaveGroupRequest, MemberIdentity, SyncGroupRequest, CLOSE_LEAVE_REASON,
};
use krabka_client_consumer::join::{
    commit_consumed_before_join, commit_needs_refind, heartbeat_result_outcome,
    leader_assignments, leader_input, AutoCommitOutcome, CallWait, CommitStep, HeartbeatFollowUp,
    JoinGroupResponse, JoinGroupResponseMember, JoinStep, ListenerStep, CALLBACK_TIMEOUT,
};
use krabka_client_consumer::membership::{
    note_poll, update_ownership, GroupMember, PollTimer, RejoinRequest,
};
use krabka_client_consumer::metadata::{MetadataPartition, MetadataResponse, MetadataTopic};
use krabka_client_consumer::offset_wire::{
    parse_offset_fetch, OffsetFetchGroup, OffsetFetchPartition, OffsetFetchResponse,
    OffsetFetchTopic, NOT_COORDINATOR,
};
use krabka_client_consumer::position_update::{reset_starting_offset, starting_offset};
use krabka_client_consumer::rebalance_listener::{
    run_pending_listener_calls, ConsumerRebalanceListener, RebalanceListenerError,
};
use krabka_client_consumer::rejoin::{
    rejoin_group, rejoin_group_again, should_prime_missing_partition, ListenerCallKind,
    RebalanceStep,
};
use krabka_client_consumer::retry::{
    is_retriable_coordinator_code, next_backoff, retry_deadline_elapsed, CoordinatorRetry,
    CoordinatorRetryPolicy, OffsetFetchStep, RetryStep,
};
use krabka_client_consumer::subscription::{Subscription, TopicPattern};
use krabka_client_consumer::topic_counts::{
    learn_topic_ids, merge_counts, subscribed_partition_counts, subscribed_topics_grew,
};
use krabka_client_consumer::wire::Uuid;

const MILLI: u64 = 1_000_000;
const SECOND: u64 = 1000 * MILLI;

fn p(topic: &str, partition: i32) -> (String, i32) {
    (topic.to_owned(), partition)
}

fn consumer(rebalance_protocol: RebalanceProtocol) -> Consumer {
    let mut consumer = Consumer::new(
        ConsumerSettings {
            group_id: "group-a".into(),
            group_membership: true,
            group_protocol: GroupProtocol::Classic,
            rebalance_protocol,
            auto_offset_reset: AutoOffsetReset::Earliest,
            isolation_level: IsolationLevel::ReadUncommitted,
            max_poll_records: 500,
            fetch_max_wait_ms: 500,
            fetch_min_bytes: 1,
            fetch_max_bytes: 1,
            fetch_partition_max_bytes: 1,
            client_rack: None,
            metadata_max_age: 0,
            initial_backoff: 100 * MILLI,
            max_backoff: SECOND,
            default_api_timeout: SECOND,
            allow_auto_create_topics: true,
        },
        Subscription::topics(vec!["orders".into()], true),
    );
    consumer.assigned = Assignment::from_list(vec![p("orders", 0)]);
    consumer.ownership_ids = SortedMap::from_entries(vec![(p("orders", 0), 1)]);
    consumer.next_offsets = SortedMap::from_entries(vec![(p("orders", 0), 5)]);
    consumer.commit_identity.generation = 1;
    consumer.commit_identity.member_id = "member-a".into();
    consumer
}

fn member() -> GroupMember {
    GroupMember {
        group_instance_id: Some("instance-a".into()),
        member_id: "member-a".into(),
        generation_id: 1,
        joined_topics: vec!["orders".into()],
        seen_unsubscribes: 0,
        next_ownership_id: 2,
        join_prepared: false,
        rejoin_reason: String::new(),
        rejoin: RejoinRequest::NotNeeded,
        lost_partitions: Assignment::new(),
        poll_timer: PollTimer::new(300 * SECOND, 0),
        poll_timeout_in_callback: false,
        has_listener: true,
        known_counts: SortedMap::new(),
        last_metadata_check: 0,
        metadata_refresh_interval: 300 * SECOND,
        session_timeout_ms: 45_000,
        rebalance_timeout_ms: 60_000,
    }
}

fn eager() -> Consumer {
    consumer(RebalanceProtocol::Eager)
}

#[test]
fn an_enforced_rebalance_is_due_after_a_poll_that_came_before_the_task_saw_it() {
    let mut pending = false;
    let mut request = RejoinRequest::NotNeeded;
    // The application polled after the call at count 5.
    let polls = note_poll(5);
    request.request_after_poll(5, &mut pending);
    assert_eq!((request.due(polls), pending), (true, true));
    assert!(!RejoinRequest::AfterPoll(6).due(polls));
    request.complete(&mut pending);
    assert_eq!((request, pending), (RejoinRequest::NotNeeded, false));
}

#[test]
fn rejoin_errors_reach_poll_only_when_fatal() {
    for (name, error, expected) in [
        (
            "group authorization failed",
            ConsumerError::GroupAuthorizationFailed("group-a".into()),
            true,
        ),
        (
            "topic authorization failed",
            ConsumerError::TopicAuthorizationFailed(SortedSet::from_items(vec![
                "orders".to_string()
            ])),
            true,
        ),
        (
            "offset fetch failed",
            ConsumerError::OffsetFetchFailed(6),
            true,
        ),
        (
            "retriable code past the deadline",
            ConsumerError::Server(14),
            false,
        ),
        (
            "coordinator unavailable",
            ConsumerError::CoordinatorUnavailable,
            false,
        ),
    ] {
        let mut consumer = eager();
        consumer.report_rejoin_error(error);
        let first = consumer.take_poll_error().is_some();
        let second = consumer.take_poll_error().is_some();
        assert_eq!((first, second), (expected, false), "case {name}");
    }
}

#[test]
fn find_coordinator_request_populates_legacy_and_batched_group_keys() {
    let req = build_find_coordinator_request("group-a".into());
    assert_eq!(
        req,
        FindCoordinatorRequest {
            key: "group-a".into(),
            key_type: 0,
            coordinator_keys: vec!["group-a".into()],
        }
    );
}

fn counts(entries: &[(&str, i32)]) -> SortedMap<String, i32> {
    SortedMap::from_entries(
        entries
            .iter()
            .map(|(topic, count)| ((*topic).to_string(), *count))
            .collect(),
    )
}

#[test]
fn subscribed_topics_grew_detects_appearance_and_partition_growth() {
    let empty = counts(&[]);
    let one = counts(&[("logs", 1)]);
    let three = counts(&[("logs", 3)]);
    for (name, known, current, expected) in [
        ("topic appears", &empty, &one, true),
        ("partition count grows", &one, &three, true),
        ("steady state", &one, &one, false),
        ("partition count shrinks", &three, &one, false),
        ("topic disappears", &one, &empty, false),
    ] {
        assert_eq!(
            subscribed_topics_grew(known, current),
            expected,
            "case {name}"
        );
    }
}

#[test]
fn merge_counts_advances_monotonically_and_ignores_transient_under_reports() {
    let one = counts(&[("logs", 1)]);
    let three = counts(&[("logs", 3)]);
    let five = counts(&[("logs", 5)]);
    let logs = "logs".to_string();

    let mut known = counts(&[]);
    merge_counts(&mut known, &one);
    assert_eq!(known.get(&logs), Some(&1));

    merge_counts(&mut known, &three);
    assert_eq!(
        (known.get(&logs), subscribed_topics_grew(&known, &three)),
        (Some(&3), false)
    );

    merge_counts(&mut known, &one);
    assert_eq!(
        (known.get(&logs), subscribed_topics_grew(&known, &three)),
        (Some(&3), false)
    );

    merge_counts(&mut known, &counts(&[]));
    assert_eq!(known.get(&logs), Some(&3));

    merge_counts(&mut known, &five);
    assert_eq!(known.get(&logs), Some(&5));
}

#[test]
fn retry_deadline_elapsed_uses_elapsed_timeout_boundary() {
    assert!(!retry_deadline_elapsed(7, 7, MILLI));
    assert!(retry_deadline_elapsed(7, 7 + MILLI, MILLI));
}

#[test]
fn subscription_metadata_refresh_due_uses_configured_inclusive_boundary() {
    let interval = 37 * MILLI;
    assert!(!subscription_metadata_refresh_due(0, 36 * MILLI, interval));
    assert!(subscription_metadata_refresh_due(0, 37 * MILLI, interval));
}

#[test]
fn next_backoff_doubles_until_cap() {
    for (name, backoff, max_backoff, expected) in [
        ("doubling below cap", 100 * MILLI, SECOND, 200 * MILLI),
        ("doubling reaches cap", 800 * MILLI, SECOND, SECOND),
        ("already capped", SECOND, SECOND, SECOND),
    ] {
        assert_eq!(next_backoff(backoff, max_backoff), expected, "case {name}");
    }
}

#[test]
fn leave_group_request_populates_legacy_and_batched_member_fields() {
    let req = build_leave_group_request(
        "group-a".into(),
        "member-a".into(),
        Some(CLOSE_LEAVE_REASON),
    );
    assert_eq!(
        req,
        LeaveGroupRequest {
            group_id: "group-a".into(),
            member_id: "member-a".into(),
            members: vec![MemberIdentity {
                member_id: "member-a".into(),
                group_instance_id: None,
                reason: Some("the consumer is being closed".into()),
            }],
        }
    );
}

#[test]
fn leader_runs_the_selected_assignor_over_all_member_topics() {
    let topic = |name: &str, partitions: i32| MetadataTopic {
        error_code: 0,
        name: Some(name.into()),
        topic_id: Uuid(0),
        is_internal: false,
        partitions: (0..partitions)
            .map(|partition_index| MetadataPartition {
                error_code: 0,
                partition_index,
                leader_id: 1,
                leader_epoch: 0,
                replica_nodes: vec![],
                isr_nodes: vec![],
                offline_replicas: vec![],
            })
            .collect(),
    };
    let metadata = MetadataResponse {
        brokers: vec![],
        topics: vec![topic("a", 2), topic("b", 2), topic("c", 1)],
    };
    let join_member = |id: &str| JoinGroupResponseMember {
        member_id: id.into(),
        group_instance_id: None,
        metadata: Bytes::new(),
    };
    let response = |protocol: &str| JoinGroupResponse {
        error_code: 0,
        generation_id: 1,
        protocol_name: Some(protocol.into()),
        leader: "m1".into(),
        member_id: "m1".into(),
        members: vec![join_member("m1"), join_member("m2")],
    };
    let member_topics = vec![
        vec!["a".to_string()],
        vec!["a".to_string(), "b".to_string()],
    ];
    let offered = vec!["range".to_string(), "roundrobin".to_string()];
    for (protocol, index) in [("roundrobin", 1), ("range", 0)] {
        let input = leader_input(&offered, &response(protocol), &member_topics, &metadata).unwrap();
        assert_eq!(input.protocol, index);
        assert_eq!(input.topic_partitions, counts(&[("a", 2), ("b", 2)]));
        // What either protocol assigns over these counts.
        let assigned = SortedMap::from_entries(vec![
            ("m2".to_string(), vec![p("a", 1), p("b", 0), p("b", 1)]),
            ("m1".to_string(), vec![p("a", 0)]),
        ]);
        let sent: Vec<_> = leader_assignments(assigned)
            .into_iter()
            .map(|assignment| (assignment.member_id, assignment.partitions))
            .collect();
        assert_eq!(
            sent,
            vec![
                ("m1".to_owned(), vec![p("a", 0)]),
                ("m2".to_owned(), vec![p("a", 1), p("b", 0), p("b", 1)]),
            ]
        );
    }
    assert_eq!(
        leader_input(&offered, &response("sticky"), &member_topics, &metadata)
            .map_err(|error| error.message()),
        Err("illegal state: Coordinator selected invalid assignment protocol: sticky".to_owned())
    );
}

#[test]
fn join_group_request_preserves_group_member_timeouts_protocol_and_reason() {
    let fields = JoinRequestFields {
        group_id: "group-a".into(),
        group_instance_id: Some("instance-a".into()),
        session_timeout_ms: 10_000,
        rebalance_timeout_ms: 30_000,
        protocols: vec![("range".into(), vec![1, 2, 3].into())],
        reason: "group is already rebalancing".into(),
    };
    assert_eq!(
        fields.request("member-a".into()),
        JoinGroupRequest {
            group_id: "group-a".into(),
            session_timeout_ms: 10_000,
            rebalance_timeout_ms: 30_000,
            member_id: "member-a".into(),
            group_instance_id: Some("instance-a".into()),
            protocol_type: "consumer".into(),
            protocols: vec![JoinGroupRequestProtocol {
                name: "range".into(),
                metadata: vec![1, 2, 3].into(),
            }],
            reason: Some("group is already rebalancing".into()),
        }
    );
}

#[test]
fn sync_group_request_preserves_member_generation_protocol_and_assignments() {
    let assignment = || {
        build_sync_group_assignment(
            "member-a".into(),
            vec![("topic-a".to_string(), 0), ("topic-a".to_string(), 1)],
        )
    };
    assert_eq!(
        (
            assignment().member_id.as_str(),
            assignment().partitions.clone()
        ),
        (
            "member-a",
            vec![("topic-a".to_string(), 0), ("topic-a".to_string(), 1)],
        )
    );
    let req = build_sync_group_request(
        "group-a".into(),
        7,
        "member-a".into(),
        Some("instance-a".into()),
        "range".into(),
        vec![assignment()],
    );
    assert_eq!(
        req,
        SyncGroupRequest {
            group_id: "group-a".into(),
            generation_id: 7,
            member_id: "member-a".into(),
            group_instance_id: Some("instance-a".into()),
            protocol_type: Some("consumer".into()),
            protocol_name: Some("range".into()),
            assignments: vec![assignment()],
        }
    );
}

#[test]
fn heartbeat_request_preserves_group_generation_and_member() {
    let req = build_heartbeat_request(
        "group-a".into(),
        42,
        "member-a".into(),
        Some("instance-a".into()),
    );
    assert_eq!(
        req,
        HeartbeatRequest {
            group_id: "group-a".into(),
            generation_id: 42,
            member_id: "member-a".into(),
            group_instance_id: Some("instance-a".into()),
        }
    );
}

#[test]
fn prime_offset_helpers_preserve_committed_and_reset_boundaries() {
    for (name, committed, reset, expected) in [
        ("committed positive", 12, AutoOffsetReset::Earliest, 12),
        ("committed zero", 0, AutoOffsetReset::Latest, 0),
        ("missing earliest", -1, AutoOffsetReset::Earliest, 0),
        ("missing latest", -1, AutoOffsetReset::Latest, i64::MAX),
        ("missing none", -1, AutoOffsetReset::NoReset, i64::MAX),
    ] {
        assert_eq!(starting_offset(committed, reset), expected, "case {name}");
    }
    for (name, reset, expected) in [
        ("earliest", AutoOffsetReset::Earliest, 0),
        ("latest", AutoOffsetReset::Latest, i64::MAX),
        ("none", AutoOffsetReset::NoReset, i64::MAX),
    ] {
        assert_eq!(reset_starting_offset(reset), expected, "case {name}");
    }
    for (name, has_position, expected) in [
        ("missing position", false, true),
        ("existing position", true, false),
    ] {
        assert_eq!(
            should_prime_missing_partition(has_position),
            expected,
            "case {name}"
        );
    }
}

#[test]
fn heartbeat_outcome_classifies_success_rejoin_and_transient_errors() {
    for (name, error_code, expected) in [
        ("success", 0, HeartbeatOutcome::Alive),
        (
            "rebalance in progress",
            27,
            HeartbeatOutcome::NeedRejoin(27),
        ),
        ("illegal generation", 22, HeartbeatOutcome::NeedRejoin(22)),
        ("unknown member", 25, HeartbeatOutcome::RejoinFromScratch),
        ("fenced instance id", 82, HeartbeatOutcome::Fenced),
        ("loading coordinator", 14, HeartbeatOutcome::Transient),
        ("unknown transient", 99, HeartbeatOutcome::Transient),
    ] {
        assert_eq!(heartbeat_outcome(error_code), expected, "case {name}");
    }
}

#[test]
fn parses_legacy_and_batched_coordinator_shapes() {
    for (name, resp, expected) in [
        (
            "batched success",
            FindCoordinatorResponse {
                node_id: -1,
                error_code: 99,
                coordinators: vec![Coordinator {
                    key: "g".into(),
                    node_id: 7,
                    host: "h".into(),
                    port: 9092,
                    error_code: 0,
                }],
            },
            (7, 0, false),
        ),
        (
            "legacy success",
            FindCoordinatorResponse {
                node_id: 3,
                error_code: 0,
                coordinators: vec![],
            },
            (3, 0, false),
        ),
        (
            "batched not coordinator",
            FindCoordinatorResponse {
                node_id: 1,
                error_code: 0,
                coordinators: vec![Coordinator {
                    key: "g".into(),
                    node_id: -1,
                    host: String::new(),
                    port: 0,
                    error_code: NOT_COORDINATOR,
                }],
            },
            (-1, NOT_COORDINATOR, true),
        ),
    ] {
        let code = coordinator_error_code(&resp);
        assert_eq!(
            (
                coordinator_node_id(&resp),
                code,
                is_retriable_coordinator_code(code)
            ),
            expected,
            "case {name}"
        );
        let dialable = SortedSet::from_items(vec![expected.0]);
        assert_eq!(
            find_coordinator(&resp, &dialable),
            if code == 0 {
                Ok(expected.0)
            } else {
                Err(ConsumerError::Server(code))
            },
            "case {name}"
        );
        assert_eq!(
            find_coordinator(&resp, &SortedSet::from_items(vec![99])),
            if code == 0 {
                Err(ConsumerError::CoordinatorUnavailable)
            } else {
                Err(ConsumerError::Server(code))
            },
            "case {name} without an address"
        );
    }
}

#[test]
fn cooperative_ownership_preserves_retained_and_rotates_reassigned_partitions() {
    let p0 = ("topic".to_string(), 0);
    let p1 = ("topic".to_string(), 1);
    let mut ownership = SortedMap::from_entries(vec![(p0.clone(), 7), (p1.clone(), 8)]);
    let mut next_id = 9;
    update_ownership(&mut ownership, &vec![p0.clone()], true, &mut next_id);
    assert_eq!(ownership, SortedMap::from_entries(vec![(p0.clone(), 7)]));
    update_ownership(
        &mut ownership,
        &vec![p0.clone(), p1.clone()],
        true,
        &mut next_id,
    );
    assert_eq!(ownership, SortedMap::from_entries(vec![(p0, 7), (p1, 9)]));
}

#[test]
fn eager_assignment_rotates_even_retained_partition_ownership() {
    let p0 = ("topic".to_string(), 0);
    let mut ownership = SortedMap::from_entries(vec![(p0.clone(), 7)]);
    let mut next_id = 8;
    update_ownership(&mut ownership, &vec![p0.clone()], false, &mut next_id);
    assert_eq!(ownership, SortedMap::from_entries(vec![(p0, 8)]));
}

// The retries of requests to the coordinator.

fn retry(timeout: u64) -> CoordinatorRetry {
    CoordinatorRetry::new(
        CoordinatorRetryPolicy {
            timeout,
            initial_backoff: 100 * MILLI,
            max_backoff: SECOND,
        },
        0,
    )
}

/// Tries until the end, with a clock that moves by the waits alone. The result
/// comes with the number of tries and of dropped connections.
fn tries(
    mut retry: CoordinatorRetry,
    refind: bool,
    mut send: impl FnMut(usize) -> Result<i16, ConsumerError>,
) -> (Result<i16, ConsumerError>, usize, usize) {
    let mut now = 0;
    let mut calls = 0;
    let mut evicted = 0;
    loop {
        let result = send(calls);
        calls += 1;
        let code = *result.as_ref().unwrap_or(&0);
        let step = if refind {
            retry.with_coordinator_refind(result, code, now)
        } else {
            retry.with_coordinator_retry(result, code, now)
        };
        match step {
            RetryStep::Done(result) => return (result, calls, evicted),
            RetryStep::Again { wait, evict } => {
                now += wait;
                evicted += usize::from(evict);
            }
        }
    }
}

fn refused() -> ConsumerError {
    ConsumerError::Client(ClientError::Connect("127.0.0.1:9092: refused".into()))
}

#[test]
fn retries_until_coordinator_finishes_loading() {
    assert_eq!(
        tries(retry(30 * SECOND), false, |n| Ok(if n < 3 {
            14
        } else {
            0
        })),
        (Ok(0), 4, 0)
    );
}

#[test]
fn configured_coordinator_retry_policy_controls_backoff_and_timeout() {
    let policy = CoordinatorRetryPolicy {
        timeout: 35 * MILLI,
        initial_backoff: 5 * MILLI,
        max_backoff: 10 * MILLI,
    };
    assert_eq!(
        tries(CoordinatorRetry::new(policy, 0), false, |_| Ok(15)),
        (Ok(15), 5, 0)
    );
}

#[test]
fn surfaces_last_response_after_deadline() {
    assert_eq!(tries(retry(SECOND), false, |_| Ok(15)).0, Ok(15));
}

#[test]
fn non_retriable_code_returns_immediately() {
    assert_eq!(
        tries(retry(30 * SECOND), false, |_| Ok(25)),
        (Ok(25), 1, 0)
    );
}

#[test]
fn disconnect_past_deadline_surfaces_coordinator_unavailable() {
    assert_eq!(
        tries(retry(SECOND), false, |_| Err(ConsumerError::Client(
            ClientError::Disconnected
        )))
        .0,
        Err(ConsumerError::CoordinatorUnavailable)
    );
}

#[test]
fn connect_past_deadline_surfaces_coordinator_unavailable() {
    let (result, calls, evicted) = tries(retry(MILLI), false, |_| Err(refused()));
    assert_eq!(result, Err(ConsumerError::CoordinatorUnavailable));
    assert!(calls > 1);
    assert_eq!(evicted, calls - 1);
}

#[test]
fn returns_immediately_on_success_without_refind() {
    assert_eq!(tries(retry(30 * SECOND), true, |_| Ok(0)), (Ok(0), 1, 0));
}

#[test]
fn non_retriable_code_returns_without_refind() {
    assert_eq!(tries(retry(30 * SECOND), true, |_| Ok(25)), (Ok(25), 1, 0));
}

#[test]
fn connect_error_refinds_until_deadline() {
    let (result, calls, _) = tries(retry(MILLI), true, |_| Err(refused()));
    assert_eq!(result, Err(ConsumerError::CoordinatorUnavailable));
    assert!(calls > 1);
}

#[test]
fn other_errors_are_returned_at_once() {
    let failed = || ConsumerError::Client(ClientError::Other("x".into()));
    assert_eq!(
        tries(retry(SECOND), false, |_| Err(failed())),
        (Err(failed()), 1, 0)
    );
    assert_eq!(
        tries(retry(SECOND), true, |_| Err(ConsumerError::NotSubscribed)),
        (Err(ConsumerError::NotSubscribed), 1, 0)
    );
}

/// A scripted answer to an offset fetch of two topics: the group error code,
/// and for partition 0 of each topic its error code and committed offset.
type Answer = (i16, Vec<(&'static str, i16, i64)>);

fn offset_fetch_response(answer: &Answer) -> OffsetFetchResponse {
    OffsetFetchResponse {
        topics: vec![],
        error_code: 0,
        groups: vec![OffsetFetchGroup {
            group_id: "group-a".into(),
            error_code: answer.0,
            topics: answer
                .1
                .iter()
                .map(|(topic, error_code, committed_offset)| OffsetFetchTopic {
                    name: (*topic).into(),
                    partitions: vec![OffsetFetchPartition {
                        partition_index: 0,
                        committed_offset: *committed_offset,
                        committed_leader_epoch: -1,
                        metadata: None,
                        error_code: *error_code,
                    }],
                })
                .collect(),
        }],
    }
}

type Offsets = Vec<(String, i32, i64, i32)>;

/// The result, the requests sent, and the coordinators searched for.
fn run_offset_fetch(
    answers: Vec<Answer>,
    timeout: u64,
) -> (Result<Offsets, ConsumerError>, usize, usize) {
    let mut retry = CoordinatorRetry::new(
        CoordinatorRetryPolicy {
            timeout,
            initial_backoff: MILLI,
            max_backoff: MILLI,
        },
        0,
    );
    let (mut now, mut sent, mut found) = (0, 0, 0);
    loop {
        let answer = &answers[sent.min(answers.len() - 1)];
        sent += 1;
        match retry.send_offset_fetch(offset_fetch_response(answer), "group-a", now) {
            OffsetFetchStep::Done(result) => {
                return (result.map(|r| parse_offset_fetch(&r)), sent, found)
            }
            OffsetFetchStep::Again { wait, refind } => {
                now += wait;
                found += usize::from(refind);
            }
        }
    }
}

#[test]
fn offset_fetch_error_codes_map_to_kafka_consumer_actions() {
    const LONG: u64 = 5 * SECOND;
    const NOW: u64 = 0;
    let committed = |orders: i64, payments: i64| {
        Ok(vec![
            ("orders".to_string(), 0, orders, -1),
            ("payments".to_string(), 0, payments, -1),
        ])
    };
    let answer = |code: i16, rows: &[(&'static str, i16, i64)]| (code, rows.to_vec());
    let ok = || answer(0, &[("orders", 0, 42), ("payments", 0, 7)]);
    let partition_error = |orders: i16, payments: i16| {
        answer(0, &[("orders", orders, -1), ("payments", payments, -1)])
    };
    let topics = |names: &[&str]| {
        Err(ConsumerError::TopicAuthorizationFailed(
            SortedSet::from_items(names.iter().map(|n| (*n).to_string()).collect()),
        ))
    };
    let failed = |code: i16| Err(ConsumerError::OffsetFetchFailed(code));
    let server = |code: i16| Err(ConsumerError::Server(code));
    for (name, answers, timeout, expected) in [
        ("no error", vec![ok()], LONG, (committed(42, 7), 1, 0)),
        (
            "coordinator load in progress retries on the same coordinator",
            vec![answer(14, &[]), ok()],
            LONG,
            (committed(42, 7), 2, 0),
        ),
        (
            "coordinator not available finds the coordinator and retries",
            vec![answer(15, &[]), ok()],
            LONG,
            (committed(42, 7), 2, 1),
        ),
        (
            "not coordinator finds the coordinator and retries",
            vec![answer(16, &[]), ok()],
            LONG,
            (committed(42, 7), 2, 1),
        ),
        (
            "another retriable group code retries",
            vec![answer(7, &[]), ok()],
            LONG,
            (committed(42, 7), 2, 0),
        ),
        (
            "a retriable group code past the deadline fails",
            vec![answer(14, &[])],
            NOW,
            (server(14), 1, 0),
        ),
        (
            "not coordinator past the deadline fails",
            vec![answer(16, &[])],
            NOW,
            (server(16), 1, 0),
        ),
        (
            "group authorization failed is fatal",
            vec![answer(30, &[])],
            LONG,
            (
                Err(ConsumerError::GroupAuthorizationFailed(
                    "group-a".to_string(),
                )),
                1,
                0,
            ),
        ),
        (
            "unknown member id is fatal",
            vec![answer(25, &[])],
            LONG,
            (failed(25), 1, 0),
        ),
        (
            "stale member epoch is fatal without a member epoch",
            vec![answer(113, &[])],
            LONG,
            (failed(113), 1, 0),
        ),
        (
            "another group code is fatal",
            vec![answer(69, &[])],
            LONG,
            (failed(69), 1, 0),
        ),
        (
            "a group code hides the partition codes",
            vec![answer(14, &[("orders", 29, -1)]), ok()],
            LONG,
            (committed(42, 7), 2, 0),
        ),
        (
            "unknown topic or partition then committed offsets",
            vec![partition_error(3, 0), ok()],
            LONG,
            (committed(42, 7), 2, 0),
        ),
        (
            "unknown topic id then committed offsets",
            vec![partition_error(0, 100), ok()],
            LONG,
            (committed(42, 7), 2, 0),
        ),
        (
            "unknown topic id past the deadline gives no committed offset",
            vec![partition_error(100, 0)],
            NOW,
            (committed(-1, -1), 1, 0),
        ),
        (
            "topic authorization failed names every unauthorized topic",
            vec![partition_error(29, 29)],
            LONG,
            (topics(&["orders", "payments"]), 1, 0),
        ),
        (
            "unstable offset commit retries",
            vec![partition_error(88, 0), ok()],
            LONG,
            (committed(42, 7), 2, 0),
        ),
        (
            "unstable offset commit past the deadline fails",
            vec![partition_error(88, 0)],
            NOW,
            (server(88), 1, 0),
        ),
        (
            "not leader or follower is fatal",
            vec![partition_error(6, 0)],
            LONG,
            (failed(6), 1, 0),
        ),
        (
            "topic authorization comes before unstable offsets",
            vec![partition_error(88, 29)],
            LONG,
            (topics(&["payments"]), 1, 0),
        ),
        (
            "unstable offsets come before unknown topics",
            vec![partition_error(100, 88)],
            NOW,
            (server(88), 1, 0),
        ),
        (
            "an unexpected partition code comes before unknown topics",
            vec![partition_error(100, 6)],
            LONG,
            (failed(6), 1, 0),
        ),
    ] {
        assert_eq!(run_offset_fetch(answers, timeout), expected, "case {name}");
    }
}

// The work of the member.

#[test]
fn coordinator_task_removes_a_fenced_static_member_until_the_next_poll() {
    let fenced = "fenced group.instance.id instance-a: another consumer with the same group.instance.id joined the group";
    for (name, heartbeat, polls, owned, generation, commit_member_id, rejoin_on_poll, error, next) in [
        ("success", 0, false, 1, 1, "member-a", false, None, TaskStep::Wait),
        (
            "heartbeat fenced instance id",
            82,
            true,
            0,
            -1,
            "",
            true,
            Some(fenced),
            TaskStep::WaitForPollAfterError,
        ),
        (
            "rebalance in progress",
            27,
            false,
            1,
            1,
            "member-a",
            false,
            None,
            TaskStep::Wait,
        ),
        (
            "rebalance in progress and the application polls",
            27,
            true,
            1,
            1,
            "member-a",
            false,
            None,
            TaskStep::Rejoin,
        ),
        (
            "unknown member id",
            25,
            false,
            0,
            -1,
            "",
            false,
            None,
            TaskStep::Wait,
        ),
        (
            "coordinator not available",
            15,
            false,
            1,
            1,
            "member-a",
            false,
            None,
            TaskStep::Wait,
        ),
    ] {
        let mut consumer = eager();
        let mut member = member();
        let count = 3;
        assert_eq!(
            member.run(&mut consumer, TaskEvent::Tick, count, false, SECOND),
            TaskStep::Heartbeat
        );
        let (outcome, follow_up) = heartbeat_result_outcome(&mut consumer, Ok(heartbeat));
        assert_eq!(
            follow_up,
            if heartbeat == 15 {
                HeartbeatFollowUp::Refind
            } else {
                HeartbeatFollowUp::Nothing
            },
            "case {name}"
        );
        let mut step = member.heartbeat_once(&mut consumer, outcome, count);
        if polls && step == TaskStep::Wait {
            step = member.run(&mut consumer, TaskEvent::Poll, note_poll(count), true, SECOND);
        }
        assert_eq!(step, next, "case {name}");
        assert_eq!(consumer.assigned.len(), owned, "case {name}");
        assert_eq!(consumer.commit_identity.generation, generation, "case {name}");
        assert_eq!(consumer.commit_identity.member_id, commit_member_id);
        assert_eq!(
            consumer.commit_identity.rejoin_on_poll, rejoin_on_poll,
            "case {name}"
        );
        assert_eq!(
            consumer.take_poll_error().map(|e| e.message()).as_deref(),
            error,
            "case {name}"
        );
    }
}

#[test]
fn a_fenced_join_waits_for_the_poll_after_the_error() {
    let mut consumer = eager();
    let mut member = member();
    let fenced = match member.perform_join(&joined(82, ""), true) {
        JoinStep::Fail(e) => e,
        other => panic!("{other:?}"),
    };
    assert_eq!(
        member.rejoined(&mut consumer, Err(fenced), 3, 0),
        TaskStep::WaitForPollAfterError
    );
    assert!(!GroupMember::wait_for_poll_after_error(&consumer));
    assert!(consumer.poll().is_err());
    assert!(GroupMember::wait_for_poll_after_error(&consumer));
    member.polled_after_error(&mut consumer, true, SECOND);
    assert_eq!(member.rejoin, RejoinRequest::Now);
    assert_eq!(
        member.rejoin_reason,
        "rebalance failed due to FencedInstanceIdException"
    );
    assert_eq!(member.poll_timer.deadline, 301 * SECOND);
    member.polled_after_error(&mut consumer, false, SECOND);
    assert_eq!(
        member.rejoin_reason,
        "encountered FENCED_INSTANCE_ID from HEARTBEAT response"
    );
    // The lost partition is given to the listener before the next join.
    let call = member.join_prepare(&consumer).unwrap();
    assert_eq!(call.kind, ListenerCallKind::Lost);
    assert_eq!(call.partitions, vec![p("orders", 0)]);
    assert_eq!(member.join_prepare(&consumer), None);
}

#[test]
fn the_poll_timer_ends_a_membership_without_polls() {
    for (name, instance, leaves) in [("dynamic", None, true), ("static", Some("a"), false)] {
        let mut consumer = eager();
        let mut member = member();
        member.group_instance_id = instance.map(str::to_owned);
        // A poll before the deadline starts the timer again.
        assert_eq!(
            member.run(&mut consumer, TaskEvent::PollTimeout, 1, true, 299 * SECOND),
            TaskStep::Wait
        );
        let step = member.run(&mut consumer, TaskEvent::PollTimeout, 1, false, 599 * SECOND);
        let request = match step {
            TaskStep::Leave(request) => request,
            other => panic!("{other:?}"),
        };
        assert_eq!(request.is_some(), leaves, "case {name}");
        if let Some(request) = request {
            assert_eq!(request.member_id, "member-a");
            assert_eq!(
                request.members[0].reason.as_deref(),
                Some("consumer poll timeout has expired.")
            );
        }
        assert!(consumer.assigned.is_empty());
        assert!(consumer.rebalance_pending);
        assert!(consumer.commit_identity.rejoin_on_poll);
        assert_eq!(member.rejoin_reason, "consumer pro-actively leaving the group");
        assert_eq!(member.lost_partitions, Assignment::from_list(vec![p("orders", 0)]));
        // The next poll joins again.
        assert_eq!(
            member.run(&mut consumer, TaskEvent::Tick, 1, false, 600 * SECOND),
            TaskStep::Wait
        );
        assert_eq!(
            member.run(&mut consumer, TaskEvent::Poll, 2, true, 600 * SECOND),
            TaskStep::Rejoin
        );
    }
}

#[test]
fn the_metadata_of_subscribed_topics_is_checked_each_interval() {
    let mut consumer = eager();
    let mut member = member();
    member.poll_timer = PollTimer::new(900 * SECOND, 0);
    member.known_counts = counts(&[("orders", 1)]);
    assert_eq!(
        member.run(&mut consumer, TaskEvent::Tick, 1, false, 300 * SECOND),
        TaskStep::CheckMetadata
    );
    assert_eq!(member.next_work(TaskEvent::Tick, 1), TaskStep::Heartbeat);
    assert_eq!(
        member.run(&mut consumer, TaskEvent::Tick, 1, false, 301 * SECOND),
        TaskStep::Heartbeat
    );
    member.metadata_checked(&mut consumer, false, Some(&counts(&[("orders", 1)])), 1);
    assert_eq!(member.rejoin, RejoinRequest::NotNeeded);
    member.metadata_checked(&mut consumer, false, Some(&counts(&[("orders", 2)])), 1);
    assert_eq!(member.rejoin, RejoinRequest::AfterPoll(1));
    assert_eq!(member.rejoin_reason, "cached metadata has changed");
    // The counts advance with the join.
    assert_eq!(member.known_counts, counts(&[("orders", 1)]));
    assert_eq!(
        member.rejoined(&mut consumer, Ok(counts(&[("orders", 2)])), 2, 301 * SECOND),
        TaskStep::Wait
    );
    assert_eq!(member.known_counts, counts(&[("orders", 2)]));
    assert_eq!(member.rejoin, RejoinRequest::NotNeeded);
    assert!(!consumer.rebalance_pending);
}

#[test]
fn a_failed_join_is_tried_again_with_its_reason() {
    let mut consumer = eager();
    let mut member = member();
    member.enforced_rebalance(&mut consumer, "x".into(), 4);
    assert!(consumer.rebalance_pending);
    assert_eq!(
        member.rejoined(&mut consumer, Err(ConsumerError::Server(16)), 5, 0),
        TaskStep::Wait
    );
    assert_eq!(member.rejoin, RejoinRequest::AfterPoll(4));
    assert_eq!(
        member.rejoin_reason,
        "rebalance failed due to NotCoordinatorException"
    );
    assert_eq!(consumer.poll_error, None);
    assert_eq!(
        member.rejoined(
            &mut consumer,
            Err(ConsumerError::GroupAuthorizationFailed("group-a".into())),
            5,
            0
        ),
        TaskStep::Wait
    );
    assert!(consumer.poll_error.is_some());
}

#[test]
fn reasons_name_the_error() {
    assert_eq!(heartbeat_rejoin_reason(27), "group is already rebalancing");
    assert_eq!(
        heartbeat_rejoin_reason(22),
        "encountered ILLEGAL_GENERATION from HEARTBEAT response"
    );
    for (error, name) in [
        (ConsumerError::Server(25), "UnknownMemberIdException"),
        (
            ConsumerError::CoordinatorUnavailable,
            "CoordinatorNotAvailableException",
        ),
        (
            ConsumerError::Client(ClientError::Disconnected),
            "DisconnectException",
        ),
        (ConsumerError::Wakeup, "KafkaException"),
    ] {
        assert_eq!(
            rebalance_failure_reason(&error),
            format!("rebalance failed due to {name}")
        );
    }
    let long = "\u{e9}".repeat(300);
    assert_eq!(truncate_reason(&long), "\u{e9}".repeat(255));
    assert_eq!(truncate_reason("short"), "short");
}

#[test]
fn only_a_dynamic_member_leaves_by_default() {
    let instance = Some("instance-a".to_string());
    for (id, instance, operation, expected) in [
        ("m", &None, GroupMembershipOperation::Default, true),
        ("m", &instance, GroupMembershipOperation::Default, false),
        ("m", &instance, GroupMembershipOperation::LeaveGroup, true),
        ("m", &None, GroupMembershipOperation::RemainInGroup, false),
        ("", &None, GroupMembershipOperation::LeaveGroup, false),
    ] {
        assert_eq!(should_send_leave_group(id, instance, operation), expected);
    }
    assert!(member()
        .close(&eager(), GroupMembershipOperation::Default)
        .is_none());
    assert!(member()
        .close(&eager(), GroupMembershipOperation::LeaveGroup)
        .is_some());
}

#[test]
fn a_join_takes_the_member_id_of_the_coordinator() {
    let mut member = member();
    member.member_id = String::new();
    assert_eq!(
        member.perform_join(&joined(79, "member-c"), true),
        JoinStep::JoinAgain
    );
    assert_eq!(member.member_id, "member-c");
    assert_eq!(
        member.rejoin_reason,
        "need to re-join with the given member-id: member-c"
    );
    assert_eq!(
        member.perform_join(&joined(79, ""), true),
        JoinStep::Fail(ConsumerError::RebalanceFailed(
            "broker did not assign a member_id".into()
        ))
    );
    assert_eq!(
        member.perform_join(&joined(79, "member-c"), false),
        JoinStep::Fail(ConsumerError::Server(79))
    );
    assert_eq!(
        member.perform_join(&joined(0, "member-b"), false),
        JoinStep::Joined
    );
    assert!(member.joined(&joined(0, "member-b")));
    assert_eq!(member.member_id, "member-b");
    assert_eq!(
        member.join_and_sync(27, vec![]),
        Err(ConsumerError::Server(27))
    );
    assert_ne!(member.rejoin_reason, "");
    assert_eq!(
        member.join_and_sync(0, vec![p("orders", 1)]),
        Ok(vec![p("orders", 1)])
    );
    assert_eq!(member.rejoin_reason, "");
}

#[test]
fn a_join_says_what_the_member_owns() {
    let member = member();
    let ownership = member.join_ownership(&eager());
    assert_eq!(ownership.owned, vec![]);
    assert_eq!(ownership.last_assignment, Some(vec![p("orders", 0)]));
    let ownership = member.join_ownership(&consumer(RebalanceProtocol::Cooperative));
    assert_eq!(ownership.owned, vec![p("orders", 0)]);
}

#[test]
fn a_join_revokes_before_it_starts() {
    let mut first = member();
    let call = first.join_prepare(&eager()).unwrap();
    assert_eq!(
        (call.kind, call.partitions, call.keep),
        (ListenerCallKind::Revoked, vec![p("orders", 0)], None)
    );
    let mut consumer = consumer(RebalanceProtocol::Cooperative);
    let mut second = member();
    assert_eq!(second.join_prepare(&consumer), None);
    // A topic that is no longer subscribed.
    consumer.assigned = Assignment::from_list(vec![p("orders", 0), p("payments", 0)]);
    let mut third = member();
    let call = third.join_prepare(&consumer).unwrap();
    assert_eq!(
        (call.kind, &call.partitions),
        (ListenerCallKind::Revoked, &vec![p("payments", 0)])
    );
    third.prepared(&mut consumer, &call);
    assert_eq!(consumer.assigned, Assignment::from_list(vec![p("orders", 0)]));
    assert_eq!(consumer.ownership_ids.get(&p("orders", 0)), Some(&1));
}

#[test]
fn a_listener_call_is_sent_again_after_a_dropped_poll() {
    for (name, wait, heartbeat, expected) in [
        ("ran", CallWait::Ran, None, ListenerStep::Done),
        (
            "dropped",
            CallWait::Dropped(7),
            Some(HeartbeatOutcome::NeedRejoin(27)),
            ListenerStep::Resend,
        ),
        (
            "unknown member",
            CallWait::Dropped(7),
            Some(HeartbeatOutcome::RejoinFromScratch),
            ListenerStep::Done,
        ),
        (
            "fenced",
            CallWait::Ran,
            Some(HeartbeatOutcome::Fenced),
            ListenerStep::Fail(ConsumerError::FencedInstanceId("instance-a".into())),
        ),
        (
            "poll timeout",
            CallWait::PollTimeout,
            None,
            ListenerStep::Fail(ConsumerError::RebalanceFailed(CALLBACK_TIMEOUT.into())),
        ),
    ] {
        let mut consumer = eager();
        let mut member = member();
        assert_eq!(
            member.call_listener(&mut consumer, wait, heartbeat, SECOND),
            expected,
            "case {name}"
        );
        assert_eq!(member.poll_timeout_in_callback, name == "poll timeout");
        assert_eq!(
            member.poll_timer.deadline,
            match wait {
                CallWait::Ran => 301 * SECOND,
                CallWait::Dropped(deadline) => deadline,
                CallWait::PollTimeout => 300 * SECOND,
            }
        );
        assert_eq!(consumer.assigned.is_empty(), name == "unknown member");
        if name == "poll timeout" {
            // The end of the join leaves the group.
            let failed = Err(ConsumerError::RebalanceFailed(CALLBACK_TIMEOUT.into()));
            assert!(matches!(
                member.rejoined(&mut consumer, failed, 9, SECOND),
                TaskStep::Leave(None)
            ));
            assert!(!member.poll_timeout_in_callback);
            assert_eq!(member.rejoin, RejoinRequest::AfterPoll(9));
        }
    }
    assert_eq!(member().wait_for_listener_call(4, 4, SECOND), None);
    assert_eq!(
        member().wait_for_listener_call(4, 5, SECOND),
        Some(301 * SECOND)
    );
}

#[test]
fn the_commit_before_a_join_is_tried_until_its_deadline() {
    let retriable = |moved| AutoCommitOutcome::Retriable { moved };
    assert_eq!(
        commit_consumed_before_join(retriable(false), 5, 10, 3),
        CommitStep::Again { wait: 3 }
    );
    assert_eq!(
        commit_consumed_before_join(retriable(false), 8, 10, 3),
        CommitStep::Again { wait: 2 }
    );
    assert_eq!(
        commit_consumed_before_join(retriable(false), 10, 10, 3),
        CommitStep::Join
    );
    for outcome in [AutoCommitOutcome::Committed, AutoCommitOutcome::Failed] {
        assert_eq!(
            commit_consumed_before_join(outcome, 0, 10, 3),
            CommitStep::Join
        );
        assert!(!commit_needs_refind(outcome));
    }
    assert!(commit_needs_refind(retriable(true)));
    assert!(!commit_needs_refind(retriable(false)));
}

#[test]
fn a_heartbeat_error_of_the_connection_refinds_or_reaches_poll() {
    let mut consumer = eager();
    assert_eq!(
        heartbeat_result_outcome(&mut consumer, Err(ClientError::Disconnected)),
        (HeartbeatOutcome::Transient, HeartbeatFollowUp::EvictAndRefind)
    );
    assert_eq!(
        heartbeat_result_outcome(&mut consumer, Err(ClientError::Other("x".into()))),
        (HeartbeatOutcome::Transient, HeartbeatFollowUp::Nothing)
    );
    assert_eq!(consumer.poll_error, None);
}

/// Runs the steps of a rebalance against answers with the given offsets.
fn run_steps(
    member: &mut GroupMember,
    consumer: &mut Consumer,
    steps: &[RebalanceStep],
    committed: &OffsetFetchResponse,
) -> Vec<(ListenerCallKind, Vec<(String, i32)>)> {
    let mut calls = Vec::new();
    for step in steps {
        match step {
            RebalanceStep::Prime(partitions) => consumer.prime_offsets(partitions, committed),
            RebalanceStep::Listener { kind, partitions } => {
                if *kind == ListenerCallKind::Assigned {
                    for partition in partitions {
                        assert!(consumer.assigned_callback_pending.contains(partition));
                    }
                }
                calls.push((*kind, partitions.clone()));
            }
            step => member.perform_step(consumer, step),
        }
        for i in 0..consumer.assigned.len() {
            assert!(consumer.next_offsets.contains_key(consumer.assigned.at(i)));
        }
    }
    assert!(consumer.assigned_callback_pending.is_empty());
    calls
}

fn committed(rows: &[(i32, i64)]) -> OffsetFetchResponse {
    OffsetFetchResponse {
        topics: vec![OffsetFetchTopic {
            name: "orders".into(),
            partitions: rows
                .iter()
                .map(|(partition_index, committed_offset)| OffsetFetchPartition {
                    partition_index: *partition_index,
                    committed_offset: *committed_offset,
                    committed_leader_epoch: 4,
                    metadata: None,
                    error_code: 0,
                })
                .collect(),
        }],
        error_code: 0,
        groups: vec![],
    }
}

#[test]
fn an_eager_rebalance_installs_the_assignment_in_one_round() {
    let mut consumer = eager();
    let mut member = member();
    let assignment = vec![p("orders", 2), p("orders", 1)];
    let steps = rejoin_group(RebalanceProtocol::Eager, &consumer.assigned, &assignment, 2);
    let calls = run_steps(&mut member, &mut consumer, &steps, &committed(&[(1, 10)]));
    assert_eq!(
        calls,
        vec![(
            ListenerCallKind::Assigned,
            vec![p("orders", 2), p("orders", 1)]
        )]
    );
    assert_eq!(consumer.assigned, Assignment::from_list(assignment));
    assert_eq!(
        consumer.next_offsets,
        SortedMap::from_entries(vec![(p("orders", 1), 10), (p("orders", 2), 0)])
    );
    assert_eq!(
        consumer.ownership_ids,
        SortedMap::from_entries(vec![(p("orders", 2), 2), (p("orders", 1), 3)])
    );
    assert_eq!(consumer.commit_identity.generation, 2);
    assert_eq!(member.generation_id, 2);
}

#[test]
fn a_cooperative_rebalance_gives_up_partitions_and_joins_again() {
    let mut consumer = consumer(RebalanceProtocol::Cooperative);
    consumer.assigned = Assignment::from_list(vec![p("orders", 0), p("orders", 1)]);
    consumer.ownership_ids =
        SortedMap::from_entries(vec![(p("orders", 0), 0), (p("orders", 1), 1)]);
    consumer.next_offsets =
        SortedMap::from_entries(vec![(p("orders", 0), 5), (p("orders", 1), 6)]);
    let mut member = member();
    let steps = rejoin_group(
        RebalanceProtocol::Cooperative,
        &consumer.assigned,
        &vec![p("orders", 1)],
        2,
    );
    assert!(matches!(steps.last(), Some(RebalanceStep::JoinAgain)));
    let calls = run_steps(&mut member, &mut consumer, &steps, &committed(&[]));
    assert_eq!(
        calls,
        vec![
            (ListenerCallKind::Revoked, vec![p("orders", 0)]),
            (ListenerCallKind::Assigned, vec![]),
        ]
    );
    assert_eq!(
        consumer.next_offsets,
        SortedMap::from_entries(vec![(p("orders", 1), 6)])
    );
    assert_eq!(member.rejoin_reason, "need to revoke partitions and re-join");

    let steps = rejoin_group_again(
        &consumer.assigned,
        &vec![p("orders", 1), p("orders", 3)],
        3,
    );
    let calls = run_steps(&mut member, &mut consumer, &steps, &committed(&[(3, 9)]));
    assert_eq!(
        calls,
        vec![(ListenerCallKind::Assigned, vec![p("orders", 3)])]
    );
    assert_eq!(
        consumer.next_offsets,
        SortedMap::from_entries(vec![(p("orders", 1), 6), (p("orders", 3), 9)])
    );
    assert_eq!(
        consumer.ownership_ids,
        SortedMap::from_entries(vec![(p("orders", 1), 1), (p("orders", 3), 2)])
    );
}

#[test]
fn a_failed_rebalance_leaves_no_gate() {
    let mut consumer = consumer(RebalanceProtocol::Cooperative);
    let mut member = member();
    let assignment = vec![p("orders", 0), p("orders", 1)];
    let steps = rejoin_group(
        RebalanceProtocol::Cooperative,
        &consumer.assigned,
        &assignment,
        2,
    );
    for step in &steps[..3] {
        member.perform_step(&mut consumer, step);
    }
    assert_eq!(
        consumer.assigned_callback_pending,
        SortedSet::from_items(vec![p("orders", 1)])
    );
    GroupMember::abandon_steps(&mut consumer, &steps, 3);
    assert!(consumer.assigned_callback_pending.is_empty());
}

#[test]
fn an_unsubscribe_takes_the_member_out_of_the_group() {
    let mut consumer = eager();
    let mut member = member();
    member.group_instance_id = None;
    assert_eq!(
        member.handle_subscription_change(&mut consumer),
        (None, true)
    );
    consumer.subscription.unsubscribes = 1;
    consumer.subscription.topics = vec![];
    let (request, subscribed) = member.handle_subscription_change(&mut consumer);
    assert!(!subscribed);
    assert_eq!(
        request.unwrap().members[0].reason.as_deref(),
        Some("the consumer unsubscribed from all topics")
    );
    assert_eq!(member.member_id, "");
    assert_eq!(member.rejoin, RejoinRequest::NotNeeded);
    assert!(consumer.assigned.is_empty());
    assert_eq!(
        member.handle_subscription_change(&mut consumer),
        (None, false)
    );
}

#[test]
fn a_changed_subscription_asks_for_a_join() {
    let mut consumer = eager();
    let mut member = member();
    member.subscription_matched(&mut consumer, 1);
    assert_eq!(member.rejoin, RejoinRequest::NotNeeded);
    consumer.subscription.topics = vec!["orders".into(), "payments".into()];
    member.subscription_matched(&mut consumer, 1);
    assert_eq!(member.rejoin, RejoinRequest::AfterPoll(1));
    assert_eq!(
        member.rejoin_reason,
        "the subscription has changed from [orders] to [orders, payments] since the last group join"
    );
    let fields = member.join_fields(&consumer, vec![("range".into(), Bytes::new())]);
    assert_eq!(fields.session_timeout_ms, 45_000);
    assert_eq!(fields.reason, member.rejoin_reason);
    assert_eq!(member.joined_topics, consumer.subscription.topics);
}

#[test]
fn a_pattern_takes_its_topics_from_the_metadata() {
    let topic = |name: &str, id: u128, partitions: usize, is_internal: bool| MetadataTopic {
        error_code: 0,
        name: Some(name.into()),
        topic_id: Uuid(id),
        is_internal,
        partitions: (0..partitions)
            .map(|i| MetadataPartition {
                error_code: 0,
                partition_index: i as i32,
                leader_id: 1,
                leader_epoch: 0,
                replica_nodes: vec![],
                isr_nodes: vec![],
                offline_replicas: vec![],
            })
            .collect(),
    };
    let metadata = MetadataResponse {
        brokers: vec![],
        topics: vec![
            topic("orders-b", 2, 3, false),
            topic("orders-a", 1, 2, false),
            topic("orders-internal", 3, 1, true),
            topic("payments", 4, 1, false),
        ],
    };
    let mut consumer = eager();
    consumer
        .subscribe_pattern(TopicPattern::new(|name: &str| name.starts_with("orders")))
        .unwrap();
    let (pattern, version) = consumer.pattern_request().unwrap();
    assert!(!consumer.refresh_pattern_topics(pattern.clone(), version + 1, &metadata));
    assert!(consumer.subscription.topics.is_empty());
    assert!(consumer.refresh_pattern_topics(pattern.clone(), version, &metadata));
    assert_eq!(consumer.subscription.topics, vec!["orders-a", "orders-b"]);
    assert_eq!(consumer.metadata_topics, vec!["orders-a", "orders-b"]);
    assert!(!consumer.refresh_pattern_topics(pattern, version, &metadata));
    assert_eq!(
        subscribed_partition_counts(&metadata, &consumer.subscription),
        counts(&[("orders-a", 2), ("orders-b", 3)])
    );
    learn_topic_ids(&mut consumer.topic_ids, &metadata, &consumer.subscription);
    assert_eq!(
        consumer.topic_ids,
        SortedMap::from_entries(vec![
            ("orders-a".to_string(), Uuid(1)),
            ("orders-b".to_string(), Uuid(2)),
        ])
    );
}

struct Recorder(Vec<(&'static str, Vec<(String, i32)>)>);

impl ConsumerRebalanceListener for Recorder {
    fn on_partitions_revoked(
        &mut self,
        _consumer: &Consumer,
        partitions: &Vec<(String, i32)>,
    ) -> Result<(), RebalanceListenerError> {
        self.0.push(("revoked", partitions.clone()));
        Ok(())
    }

    fn on_partitions_assigned(
        &mut self,
        _consumer: &Consumer,
        partitions: &Vec<(String, i32)>,
    ) -> Result<(), RebalanceListenerError> {
        self.0.push(("assigned", partitions.clone()));
        Err("no room".into())
    }
}

#[test]
fn the_listener_gets_sorted_partitions() {
    let consumer = eager();
    let mut listener = Some(Recorder(Vec::new()));
    let unsorted = vec![p("b", 1), p("a", 2), p("b", 0), p("a", 2)];
    let sorted = vec![p("a", 2), p("a", 2), p("b", 0), p("b", 1)];
    let results = vec![
        consumer.run_listener(&mut listener, ListenerCallKind::Revoked, &unsorted),
        consumer.run_listener(&mut listener, ListenerCallKind::Assigned, &unsorted),
        consumer.run_listener(&mut listener, ListenerCallKind::Lost, &unsorted),
    ];
    // The listener is still set after its error.
    assert_eq!(
        listener.unwrap().0,
        vec![
            ("revoked", sorted.clone()),
            ("assigned", sorted.clone()),
            ("revoked", sorted),
        ]
    );
    assert_eq!(
        run_pending_listener_calls(results),
        Err(ConsumerError::RebalanceListenerFailed("no room".into()))
    );
}

#[test]
fn without_a_listener_nothing_is_called() {
    let mut listener: Option<Recorder> = None;
    assert_eq!(
        eager().run_listener(&mut listener, ListenerCallKind::Assigned, &vec![p("a", 0)]),
        Ok(())
    );
    assert!(listener.is_none());
}

#[test]
fn a_member_hands_on_its_assignment_as_it_was_listed() {
    let list = || vec![p("orders", 2), p("orders", 0), p("orders", 2)];
    let mut consumer = consumer(RebalanceProtocol::Cooperative);
    let mut member = member();
    member.publish_assignment(&mut consumer, &list(), false, 3);
    assert_eq!(consumer.assigned.list(), list());
    assert_eq!(consumer.assigned.len(), 2);
    let ownership = member.join_ownership(&consumer);
    assert_eq!(ownership.owned, list());
    assert_eq!(ownership.last_assignment, Some(list()));
    consumer.settings.rebalance_protocol = RebalanceProtocol::Eager;
    assert_eq!(member.join_ownership(&consumer).owned, vec![]);
    assert_eq!(member.join_prepare(&consumer).unwrap().partitions, list());

    // The second round names what left and what came, as the lists have it.
    let steps = rejoin_group_again(&consumer.assigned, &vec![p("orders", 0), p("a", 1)], 4);
    let calls: Vec<_> = steps
        .iter()
        .filter_map(|step| match step {
            RebalanceStep::Listener { kind, partitions } => Some((*kind, partitions.clone())),
            _ => None,
        })
        .collect();
    assert_eq!(
        calls,
        vec![
            (
                ListenerCallKind::Revoked,
                vec![p("orders", 2), p("orders", 2)]
            ),
            (ListenerCallKind::Assigned, vec![p("a", 1)]),
        ]
    );
}

#[test]
fn lost_partitions_keep_the_order_of_their_loss() {
    let mut consumer = eager();
    let mut member = member();
    for list in [
        vec![p("orders", 3), p("orders", 1)],
        vec![p("orders", 1), p("orders", 0), p("orders", 3)],
    ] {
        consumer.assigned = Assignment::from_list(list);
        member.forget_member(&mut consumer);
    }
    let lost = vec![p("orders", 3), p("orders", 1), p("orders", 0)];
    assert_eq!(member.lost_partitions.list(), lost);
    let call = member.join_prepare(&consumer).unwrap();
    assert_eq!((call.kind, call.partitions), (ListenerCallKind::Lost, lost));
    assert!(member.lost_partitions.is_empty());
}

#[test]
fn an_asked_rejoin_waits_over_events_at_its_poll_count() {
    let mut consumer = eager();
    let mut member = member();
    member.heartbeat_once(&mut consumer, HeartbeatOutcome::NeedRejoin(27), 3);
    for event in [TaskEvent::Tick, TaskEvent::Poll, TaskEvent::Tick] {
        let step = member.run(&mut consumer, event, 3, false, SECOND);
        assert_ne!(step, TaskStep::Rejoin);
        assert_eq!(member.generation_id, 1);
        assert_eq!(consumer.assigned.list(), vec![p("orders", 0)]);
    }
    assert_eq!(
        member.run(&mut consumer, TaskEvent::Poll, 4, true, SECOND),
        TaskStep::Rejoin
    );
}

#[test]
fn counts_are_not_needed_when_a_pattern_asks_for_a_join() {
    let mut consumer = eager();
    let member = member();
    assert!(member.needs_counts(&consumer, false));
    assert!(member.needs_counts(&consumer, true));
    consumer.subscription.topics = vec!["payments".into()];
    assert!(member.needs_counts(&consumer, false));
    assert!(!member.needs_counts(&consumer, true));
}

fn joined(error_code: i16, member_id: &str) -> JoinGroupResponse {
    JoinGroupResponse {
        error_code,
        generation_id: 2,
        protocol_name: Some("range".into()),
        leader: "member-b".into(),
        member_id: member_id.into(),
        members: vec![],
    }
}
