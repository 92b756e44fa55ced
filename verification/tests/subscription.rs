//! Subscriptions and topic patterns.
use krabka_client_consumer::metadata::{MetadataResponse, MetadataTopic};
use krabka_client_consumer::subscription::{
    sorted, subscription_changed_reason, Subscription, TopicPattern,
};
use krabka_client_consumer::wire::Uuid;

fn topic(name: Option<&str>, is_internal: bool) -> MetadataTopic {
    MetadataTopic {
        error_code: 0,
        name: name.map(str::to_owned),
        topic_id: Uuid(0),
        is_internal,
        partitions: Vec::new(),
    }
}

#[test]
fn pattern_topics_are_stored_only_for_the_matched_version() {
    let matched = vec!["orders-eu".to_owned()];
    let pattern = || Subscription {
        pattern: Some(TopicPattern::new(|topic: &str| topic.starts_with("orders"))),
        version: 3,
        ..Subscription::topics(Vec::new(), true)
    };
    for (name, mut subscription, version, expected) in [
        ("same version", pattern(), 3, (true, matched.clone())),
        ("a newer change", pattern(), 2, (false, vec![])),
        (
            "a topic subscription now",
            Subscription {
                version: 3,
                ..Subscription::topics(vec!["payments".to_owned()], true)
            },
            3,
            (false, vec!["payments".to_owned()]),
        ),
    ] {
        let stored = subscription.store_pattern_topics(version, &matched);
        assert_eq!((stored, subscription.topics), expected, "case {name}");
    }
}

#[test]
fn a_pattern_matches_the_topics_of_the_metadata() {
    let metadata = MetadataResponse {
        brokers: Vec::new(),
        topics: vec![
            topic(Some("orders-eu"), false),
            topic(Some("orders-us"), false),
            topic(Some("payments"), false),
            topic(Some("orders-internal"), true),
        ],
    };
    let orders = TopicPattern::new(|topic: &str| topic.starts_with("orders"));
    for (name, exclude_internal, expected) in [
        ("exclude internal", true, vec!["orders-eu", "orders-us"]),
        (
            "include internal",
            false,
            vec!["orders-eu", "orders-internal", "orders-us"],
        ),
    ] {
        let subscription = Subscription {
            pattern: Some(orders.clone()),
            ..Subscription::topics(Vec::new(), exclude_internal)
        };
        assert_eq!(
            subscription.matching_topics(&metadata),
            Some(expected.into_iter().map(str::to_owned).collect::<Vec<_>>()),
            "case {name}"
        );
    }
}

#[test]
fn a_pattern_gives_the_answer_of_its_matcher() {
    let pattern = TopicPattern::new(|topic: &str| topic.len() == 2);
    assert!(pattern.matches("ab"));
    assert!(!pattern.matches("abc"));
}

#[test]
fn a_topic_without_a_name_matches_nothing() {
    let subscription = Subscription {
        pattern: Some(TopicPattern::new(|_: &str| true)),
        ..Subscription::topics(Vec::new(), true)
    };
    let metadata = MetadataResponse {
        brokers: Vec::new(),
        topics: vec![topic(None, false)],
    };
    assert_eq!(subscription.matching_topics(&metadata), Some(Vec::new()));
    assert_eq!(
        Subscription::topics(Vec::new(), true).matching_topics(&metadata),
        None
    );
}

#[test]
fn topics_are_sorted_and_distinct() {
    let topics = ["b", "a", "b", ""].map(str::to_owned).to_vec();
    assert_eq!(sorted(topics), ["", "a", "b"].map(str::to_owned).to_vec());
    let subscription = Subscription::topics(vec!["b".to_owned(), "a".to_owned()], true);
    assert!(subscription.contains("a"));
    assert!(!subscription.contains("c"));
    assert!(!subscription.is_none());
    assert!(Subscription::topics(Vec::new(), true).is_none());
}

#[test]
fn assigned_topics_are_stored_for_a_regular_expression_only() {
    let assigned = vec!["b".to_owned(), "a".to_owned(), "b".to_owned()];
    let mut topics = Subscription::topics(vec!["x".to_owned()], true);
    assert!(!topics.store_assigned_topics(&assigned));
    assert_eq!(topics.topics, vec!["x".to_owned()]);
    let mut regex = Subscription {
        regex: Some("a|b".to_owned()),
        ..Subscription::topics(Vec::new(), true)
    };
    assert!(regex.store_assigned_topics(&assigned));
    assert_eq!(regex.topics, vec!["a".to_owned(), "b".to_owned()]);
    assert!(!regex.store_assigned_topics(&assigned));
}

#[test]
fn the_reason_of_a_changed_subscription_names_both() {
    assert_eq!(
        subscription_changed_reason(
            &vec!["a".to_owned(), "b".to_owned()],
            &vec!["c".to_owned()]
        ),
        "the subscription has changed from [a, b] to [c] since the last group join"
    );
}
