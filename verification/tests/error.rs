//! The messages of errors.
use krabka_client_consumer::collections::SortedSet;
use krabka_client_consumer::error::{ClientError, ConsumerError};

#[test]
fn display_messages() {
    for (_name, error, expected) in [
        (
            "not subscribed",
            ConsumerError::NotSubscribed,
            "not subscribed to any topic",
        ),
        ("server", ConsumerError::Server(25), "broker error_code 25"),
        (
            "invalid config",
            ConsumerError::InvalidConfig("group_id required".into()),
            "invalid configuration: group_id required",
        ),
        (
            "group authorization failed",
            ConsumerError::GroupAuthorizationFailed("workers".into()),
            "not authorized to access group: workers",
        ),
        (
            "topic authorization failed",
            ConsumerError::TopicAuthorizationFailed(SortedSet::from_items(vec![
                "orders".to_string(),
                "payments".to_string(),
            ])),
            "not authorized to access topics: [orders, payments]",
        ),
        (
            "offset fetch failed",
            ConsumerError::OffsetFetchFailed(6),
            "unexpected error in offset fetch response: error_code 6",
        ),
        (
            "fenced instance id",
            ConsumerError::FencedInstanceId("instance-a".into()),
            "fenced group.instance.id instance-a: another consumer with the same group.instance.id joined the group",
        ),
        (
            "commit failed",
            ConsumerError::CommitFailed,
            "offset commit failed: the consumer is not part of an active group; it is likely that the consumer was kicked out of the group",
        ),
        (
            "rebalance in progress",
            ConsumerError::RebalanceInProgress("group-a".into()),
            "offset commit cannot be completed since the consumer is undergoing a rebalance for group group-a: call poll() and retry",
        ),
        (
            "no current assignment",
            ConsumerError::NoCurrentAssignment {
                topic: "t".into(),
                partition: 9,
            },
            "no current assignment for partition t-9",
        ),
        (
            "retriable commit failed",
            ConsumerError::RetriableCommitFailed(Box::new(ConsumerError::Server(15))),
            "offset commit failed with a retriable exception: broker error_code 15",
        ),
        (
            "log truncation",
            ConsumerError::LogTruncation {
                topic: "t".into(),
                partition: 3,
                fetch_offset: 100,
                safe_offset: 42,
            },
            "log truncation detected on t-3: fetch offset 100 is past the leader's log; safe offset 42",
        ),
        (
            "no offset for partition",
            ConsumerError::NoOffsetForPartition(SortedSet::from_items(vec![
                ("orders".to_string(), 0),
                ("orders".to_string(), 1),
            ])),
            "undefined offset with no reset policy for partitions: [orders-0, orders-1]",
        ),
    ] {
        assert_eq!(error.message(), expected);
    }
}

#[test]
fn messages_of_the_other_errors() {
    for (error, expected) in [
        (
            ConsumerError::Client(ClientError::Disconnected),
            "client: disconnected",
        ),
        (
            ConsumerError::Client(ClientError::Server { error_code: -1 }),
            "client: server error_code -1",
        ),
        (ConsumerError::Protocol("short".into()), "protocol: short"),
        (
            ConsumerError::StartupAfterJoin(Box::new(ConsumerError::Wakeup)),
            "startup failed after joining group: the consumer was woken up",
        ),
        (
            ConsumerError::InvalidOffset(i64::MIN),
            "invalid seek offset -9223372036854775808: must be non-negative",
        ),
        (
            ConsumerError::InvalidTopic("a b".into()),
            "topic 'a b' is invalid",
        ),
        (
            ConsumerError::timeout("too late".into()),
            "timeout: too late",
        ),
        (
            ConsumerError::CommitInvalid,
            "commit conflict: rejoined since this poll",
        ),
        (
            ConsumerError::CoordinatorUnavailable,
            "coordinator unavailable",
        ),
    ] {
        assert_eq!(error.message(), expected);
    }
}

#[test]
fn only_offset_fetch_errors_are_fatal_ones() {
    assert!(ConsumerError::OffsetFetchFailed(6).is_fatal_offset_fetch_error());
    assert!(ConsumerError::GroupAuthorizationFailed("g".into()).is_fatal_offset_fetch_error());
    assert!(!ConsumerError::Server(14).is_fatal_offset_fetch_error());
}

#[test]
fn only_refused_credentials_are_an_authentication_failure() {
    assert!(ClientError::Sasl("refused".into(), true).is_authentication_failure());
    assert!(!ClientError::Sasl("reset".into(), false).is_authentication_failure());
    assert!(!ClientError::Disconnected.is_authentication_failure());
}
