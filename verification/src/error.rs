//! The errors of the consumer and their messages.
use vstd::prelude::*;

use crate::collections::SortedSet;
use crate::text::{concat2, concat3, decimal, decimal_text, join, joined, lemma_views_push, views};
use crate::wire::TopicPartition;

verus! {

/// An error of the connection to a broker.
#[derive(Debug, PartialEq, Eq)]
#[non_exhaustive]
pub enum ClientError {
    /// No connection to the broker.
    Connect(String),
    /// The TLS handshake failed.
    Tls(String),
    /// The SASL exchange failed; the flag says whether the broker refused the
    /// credentials.
    Sasl(String, bool),
    /// The connection closed.
    Disconnected,
    /// The broker did not answer in time.
    Timeout(String),
    /// The connection failed while a request was under way.
    Io(String),
    /// The broker answered a request of the connection with an error code.
    Server { error_code: i16 },
    /// No version of the request is known to both sides.
    IncompatibleVersion {
        api_key: i16,
        broker_min: i16,
        broker_max: i16,
        client_min: i16,
        client_max: i16,
    },
    /// Another error of the connection.
    Other(String),
}

/// Errors of a consumer.
#[derive(Debug, PartialEq, Eq)]
#[non_exhaustive]
pub enum ConsumerError {
    /// The connection to a broker failed.
    Client(ClientError),
    /// A message could not be encoded or decoded.
    Protocol(String),
    RebalanceFailed(String),
    /// A rebalance listener callback failed.
    RebalanceListenerFailed(String),
    /// A builder setting is not valid.
    InvalidConfig(String),
    StartupAfterJoin(Box<ConsumerError>),
    NotSubscribed,
    IllegalState(String),
    /// An argument of a call is not valid.
    InvalidArgument(String),
    /// The broker answered that the topic is not valid.
    InvalidTopic(String),
    /// A wakeup ended the call.
    Wakeup,
    /// The call needs a group, and the consumer has no group id.
    InvalidGroupId,
    /// A call did not complete before its timeout. `cause` is the last
    /// retriable error when a retry loop ran out of time; it is `None` when
    /// the call ran out of time while it waited.
    Timeout { message: String, cause: Option<Box<ConsumerError>> },
    InvalidOffset(i64),
    /// The call names a partition that the consumer does not own.
    NoCurrentAssignment { topic: String, partition: i32 },
    /// An asynchronous commit failed with a retriable error. A later commit
    /// can succeed.
    RetriableCommitFailed(Box<ConsumerError>),
    CommitInvalid,
    CoordinatorUnavailable,
    LogTruncation { topic: String, partition: i32, fetch_offset: i64, safe_offset: i64 },
    Server(i16),
    /// The coordinator refused access to the group.
    GroupAuthorizationFailed(String),
    /// The coordinator refused access to partitions of these topics.
    TopicAuthorizationFailed(SortedSet<String>),
    /// An offset fetch answered an error code that is not retried.
    OffsetFetchFailed(i16),
    /// Another consumer joined with the same `group.instance.id`.
    FencedInstanceId(String),
    /// The consumer is not part of an active group.
    CommitFailed,
    /// The group is undergoing a rebalance: call `poll` and commit again.
    RebalanceInProgress(String),
    /// A partition has no committed offset, and there is no reset policy.
    NoOffsetForPartition(SortedSet<TopicPartition>),
}

/// The text of a topic partition in a message.
pub open spec fn partition_name(topic: Seq<char>, partition: int) -> Seq<char> {
    topic + "-"@ + decimal(partition)
}

/// The text of a topic partition.
pub fn partition_text(topic: &str, partition: i32) -> (r: String)
    ensures
        r@ == partition_name(topic@, partition as int),
{
    concat3(topic, "-", decimal_text(partition as i64).as_str())
}

impl ClientError {
    /// The message of the error.
    pub open spec fn text(self) -> Seq<char> {
        match self {
            ClientError::Connect(m) => "connect: "@ + m@,
            ClientError::Tls(m) => "tls: "@ + m@,
            ClientError::Sasl(m, _) => "sasl: "@ + m@,
            ClientError::Disconnected => "disconnected"@,
            ClientError::Timeout(m) => "timeout: "@ + m@,
            ClientError::Io(m) => "io: "@ + m@,
            ClientError::Server { error_code } => "server error_code "@ + decimal(
                error_code as int,
            ),
            ClientError::IncompatibleVersion { api_key, .. } => "incompatible version of api "@
                + decimal(api_key as int),
            ClientError::Other(m) => m@,
        }
    }

    /// The message of the error.
    pub fn message(&self) -> (r: String)
        ensures
            r@ == self.text(),
    {
        match self {
            ClientError::Connect(m) => concat2("connect: ", m.as_str()),
            ClientError::Tls(m) => concat2("tls: ", m.as_str()),
            ClientError::Sasl(m, _) => concat2("sasl: ", m.as_str()),
            ClientError::Disconnected => "disconnected".to_owned(),
            ClientError::Timeout(m) => concat2("timeout: ", m.as_str()),
            ClientError::Io(m) => concat2("io: ", m.as_str()),
            ClientError::Server { error_code } => concat2(
                "server error_code ",
                decimal_text(*error_code as i64).as_str(),
            ),
            ClientError::IncompatibleVersion { api_key, .. } => concat2(
                "incompatible version of api ",
                decimal_text(*api_key as i64).as_str(),
            ),
            ClientError::Other(m) => m.clone(),
        }
    }

    /// Whether the broker refused the credentials of the client.
    pub fn is_authentication_failure(&self) -> (r: bool)
        ensures
            r == (self matches ClientError::Sasl(_, refused) && *refused),
    {
        match self {
            ClientError::Sasl(_, refused) => *refused,
            _ => false,
        }
    }
}

/// The names of partitions, in order.
pub open spec fn partition_names(keys: Seq<(Seq<char>, i32)>) -> Seq<Seq<char>> {
    Seq::new(keys.len(), |i: int| partition_name(keys[i].0, keys[i].1 as int))
}

fn topic_list(topics: &SortedSet<String>) -> (r: String)
    ensures
        r@ == joined(topics.items(), ", "@),
{
    let n = topics.len();
    let mut names: Vec<String> = Vec::new();
    let mut i: usize = 0;
    while i < n
        invariant
            n == topics.items().len(),
            i <= n,
            views(names@) =~= topics.items().take(i as int),
        decreases n - i,
    {
        let name = topics.at(i).clone();
        proof {
            lemma_views_push(names@, name);
        }
        names.push(name);
        i = i + 1;
    }
    assert(topics.items().take(n as int) =~= topics.items());
    join(&names, ", ")
}

fn partition_list(keys: &SortedSet<TopicPartition>) -> (r: String)
    ensures
        r@ == joined(partition_names(keys.items()), ", "@),
{
    let n = keys.len();
    let mut names: Vec<String> = Vec::new();
    let mut i: usize = 0;
    while i < n
        invariant
            n == keys.items().len(),
            i <= n,
            views(names@) =~= partition_names(keys.items()).take(i as int),
        decreases n - i,
    {
        let key = keys.at(i);
        let name = partition_text(key.0.as_str(), key.1);
        proof {
            lemma_views_push(names@, name);
        }
        names.push(name);
        i = i + 1;
    }
    assert(partition_names(keys.items()).take(n as int) =~= partition_names(keys.items()));
    join(&names, ", ")
}

impl ConsumerError {
    /// The message of the error.
    pub open spec fn text(self) -> Seq<char>
        decreases self,
    {
        match self {
            ConsumerError::Client(e) => "client: "@ + e.text(),
            ConsumerError::Protocol(m) => "protocol: "@ + m@,
            ConsumerError::RebalanceFailed(m) => "rebalance failed: "@ + m@,
            ConsumerError::RebalanceListenerFailed(m) => "rebalance listener failed: "@ + m@,
            ConsumerError::InvalidConfig(m) => "invalid configuration: "@ + m@,
            ConsumerError::StartupAfterJoin(e) => "startup failed after joining group: "@
                + e.text(),
            ConsumerError::NotSubscribed => "not subscribed to any topic"@,
            ConsumerError::IllegalState(m) => "illegal state: "@ + m@,
            ConsumerError::InvalidArgument(m) => "invalid argument: "@ + m@,
            ConsumerError::InvalidTopic(m) => "topic '"@ + m@ + "' is invalid"@,
            ConsumerError::Wakeup => "the consumer was woken up"@,
            ConsumerError::InvalidGroupId =>
                "To use the group management or offset commit APIs, you must provide a valid group.id in the consumer configuration."@,
            ConsumerError::Timeout { message, .. } => "timeout: "@ + message@,
            ConsumerError::InvalidOffset(offset) => "invalid seek offset "@ + decimal(
                offset as int,
            ) + ": must be non-negative"@,
            ConsumerError::NoCurrentAssignment { topic, partition } =>
                "no current assignment for partition "@ + partition_name(topic@, partition as int),
            ConsumerError::RetriableCommitFailed(e) =>
                "offset commit failed with a retriable exception: "@ + e.text(),
            ConsumerError::CommitInvalid => "commit conflict: rejoined since this poll"@,
            ConsumerError::CoordinatorUnavailable => "coordinator unavailable"@,
            ConsumerError::LogTruncation { topic, partition, fetch_offset, safe_offset } =>
                "log truncation detected on "@ + partition_name(topic@, partition as int) + (
                ": fetch offset "@ + decimal(fetch_offset as int) + (
                " is past the leader's log; safe offset "@ + decimal(safe_offset as int))),
            ConsumerError::Server(code) => "broker error_code "@ + decimal(code as int),
            ConsumerError::GroupAuthorizationFailed(group) => "not authorized to access group: "@
                + group@,
            ConsumerError::TopicAuthorizationFailed(topics) =>
                "not authorized to access topics: ["@ + joined(topics.items(), ", "@) + "]"@,
            ConsumerError::OffsetFetchFailed(code) =>
                "unexpected error in offset fetch response: error_code "@ + decimal(code as int),
            ConsumerError::FencedInstanceId(id) => "fenced group.instance.id "@ + id@
                + ": another consumer with the same group.instance.id joined the group"@,
            ConsumerError::CommitFailed =>
                "offset commit failed: the consumer is not part of an active group; it is likely that the consumer was kicked out of the group"@,
            ConsumerError::RebalanceInProgress(group) =>
                "offset commit cannot be completed since the consumer is undergoing a rebalance for group "@
                + group@ + ": call poll() and retry"@,
            ConsumerError::NoOffsetForPartition(keys) =>
                "undefined offset with no reset policy for partitions: ["@ + joined(
                partition_names(keys.items()),
                ", "@,
            ) + "]"@,
        }
    }

    /// The message of the error.
    pub fn message(&self) -> (r: String)
        ensures
            r@ == self.text(),
        decreases self,
    {
        match self {
            ConsumerError::Client(e) => concat2("client: ", e.message().as_str()),
            ConsumerError::Protocol(m) => concat2("protocol: ", m.as_str()),
            ConsumerError::RebalanceFailed(m) => concat2("rebalance failed: ", m.as_str()),
            ConsumerError::RebalanceListenerFailed(m) => concat2(
                "rebalance listener failed: ",
                m.as_str(),
            ),
            ConsumerError::InvalidConfig(m) => concat2("invalid configuration: ", m.as_str()),
            ConsumerError::StartupAfterJoin(e) => concat2(
                "startup failed after joining group: ",
                e.message().as_str(),
            ),
            ConsumerError::NotSubscribed => "not subscribed to any topic".to_owned(),
            ConsumerError::IllegalState(m) => concat2("illegal state: ", m.as_str()),
            ConsumerError::InvalidArgument(m) => concat2("invalid argument: ", m.as_str()),
            ConsumerError::InvalidTopic(m) => concat3("topic '", m.as_str(), "' is invalid"),
            ConsumerError::Wakeup => "the consumer was woken up".to_owned(),
            ConsumerError::InvalidGroupId =>
                "To use the group management or offset commit APIs, you must provide a valid group.id in the consumer configuration.".to_owned(),
            ConsumerError::Timeout { message, .. } => concat2("timeout: ", message.as_str()),
            ConsumerError::InvalidOffset(offset) => concat3(
                "invalid seek offset ",
                decimal_text(*offset).as_str(),
                ": must be non-negative",
            ),
            ConsumerError::NoCurrentAssignment { topic, partition } => concat2(
                "no current assignment for partition ",
                partition_text(topic.as_str(), *partition).as_str(),
            ),
            ConsumerError::RetriableCommitFailed(e) => concat2(
                "offset commit failed with a retriable exception: ",
                e.message().as_str(),
            ),
            ConsumerError::CommitInvalid => "commit conflict: rejoined since this poll".to_owned(),
            ConsumerError::CoordinatorUnavailable => "coordinator unavailable".to_owned(),
            ConsumerError::LogTruncation { topic, partition, fetch_offset, safe_offset } => {
                let safe = concat2(
                    " is past the leader's log; safe offset ",
                    decimal_text(*safe_offset).as_str(),
                );
                let rest = concat3(
                    ": fetch offset ",
                    decimal_text(*fetch_offset).as_str(),
                    safe.as_str(),
                );
                concat3(
                    "log truncation detected on ",
                    partition_text(topic.as_str(), *partition).as_str(),
                    rest.as_str(),
                )
            },
            ConsumerError::Server(code) => concat2(
                "broker error_code ",
                decimal_text(*code as i64).as_str(),
            ),
            ConsumerError::GroupAuthorizationFailed(group) => concat2(
                "not authorized to access group: ",
                group.as_str(),
            ),
            ConsumerError::TopicAuthorizationFailed(topics) => concat3(
                "not authorized to access topics: [",
                topic_list(topics).as_str(),
                "]",
            ),
            ConsumerError::OffsetFetchFailed(code) => concat2(
                "unexpected error in offset fetch response: error_code ",
                decimal_text(*code as i64).as_str(),
            ),
            ConsumerError::FencedInstanceId(id) => concat3(
                "fenced group.instance.id ",
                id.as_str(),
                ": another consumer with the same group.instance.id joined the group",
            ),
            ConsumerError::CommitFailed =>
                "offset commit failed: the consumer is not part of an active group; it is likely that the consumer was kicked out of the group".to_owned(),
            ConsumerError::RebalanceInProgress(group) => concat3(
                "offset commit cannot be completed since the consumer is undergoing a rebalance for group ",
                group.as_str(),
                ": call poll() and retry",
            ),
            ConsumerError::NoOffsetForPartition(keys) => concat3(
                "undefined offset with no reset policy for partitions: [",
                partition_list(keys).as_str(),
                "]",
            ),
        }
    }

    /// A [`ConsumerError::Timeout`] with no cause.
    pub fn timeout(message: String) -> (r: Self)
        ensures
            r == (ConsumerError::Timeout { message, cause: None }),
    {
        ConsumerError::Timeout { message, cause: None }
    }

    /// Whether the error ends an offset fetch, so that the application must
    /// see it.
    pub open spec fn fatal_offset_fetch_error(self) -> bool {
        self is GroupAuthorizationFailed || self is TopicAuthorizationFailed || self
            is OffsetFetchFailed
    }

    /// Whether this is an offset fetch error that is not retried, so the
    /// application must see it.
    pub fn is_fatal_offset_fetch_error(&self) -> (r: bool)
        ensures
            r == self.fatal_offset_fetch_error(),
    {
        matches!(
            self,
            ConsumerError::GroupAuthorizationFailed(_)
                | ConsumerError::TopicAuthorizationFailed(_)
                | ConsumerError::OffsetFetchFailed(_)
        )
    }
}

} // verus!
