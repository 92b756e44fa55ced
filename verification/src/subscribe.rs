//! The calls that change the subscription of a consumer.
//!
//! A subscription is to topics, to a pattern or to a regular expression, and a
//! consumer with a manual assignment has none: the four exclude each other.
use vstd::prelude::*;

use crate::assignment::Assignment;
use crate::collections::{ascending, SortedMap, SortedSet};
use crate::config::GroupProtocol;
use crate::consumer::Consumer;
use crate::error::ConsumerError;
use crate::fetch_buffer::{lemma_of_topics_belongs, of_topics, BufferedModel, FetchBuffer};
use crate::position::PartitionPosition;
use crate::subscription::{copy_texts, same_texts, sorted, text_set, Subscription, TopicPattern};
use crate::text::views;
use crate::wire::PartitionKey;

verus! {

/// The message of a subscription beside a manual assignment.
pub const MUTUALLY_EXCLUSIVE: &'static str =
    "Subscription to topics, partitions and pattern are mutually exclusive";

/// The message of an empty topic name.
pub const EMPTY_TOPIC: &'static str =
    "Topic collection to subscribe to cannot contain null or empty topic";

/// The message of an empty regular expression.
pub const EMPTY_REGEX: &'static str = "Topic pattern to subscribe to cannot be empty";

/// The message of a regular expression under the classic group protocol.
pub const RE2J_NEEDS_CONSUMER_PROTOCOL: &'static str =
    "a subscription to a regular expression needs the consumer group protocol";

/// What a call of `subscribe` asks for.
#[derive(Clone, Copy, Debug, PartialEq, Eq, Structural)]
pub enum SubscribeStep {
    /// The consumer has the new subscription.
    Subscribed,
    /// The list was empty: go on as for `unsubscribe`.
    Unsubscribe,
}

/// Whether a list of topics has an empty name.
pub open spec fn has_empty(topics: Seq<String>) -> bool {
    exists|i: int| 0 <= i < topics.len() && (#[trigger] topics[i])@.len() == 0
}

impl Consumer {
    /// Whether the error is the one of a call that needs a subscription: no
    /// group membership, or a manual assignment.
    pub open spec fn subscribe_error(self, e: ConsumerError) -> bool {
        if !(self.has_group() && self.settings.group_membership) {
            self.membership_error(e)
        } else {
            e matches ConsumerError::IllegalState(m) && m@ == MUTUALLY_EXCLUSIVE@
        }
    }

    /// Whether the consumer can subscribe.
    pub open spec fn can_subscribe(self) -> bool {
        self.has_group() && self.settings.group_membership && !self.subscription.manual_assignment
    }

    /// Whether `after` is the consumer with a subscription to `topics` in place of
    /// the one it had, without the buffered data of other topics.
    pub open spec fn subscribed_to(self, topics: Seq<String>, after: Consumer) -> bool {
        &&& ascending::<String>(views(after.subscription.topics@))
        &&& text_set(after.subscription.topics@) == text_set(topics)
        &&& after.subscription == (Subscription {
            topics: after.subscription.topics,
            pattern: None,
            regex: None,
            version: (self.subscription.version + 1) as u64,
            ..self.subscription
        })
        &&& views(after.metadata_topics@) == views(topics)
        &&& after.fetch_buffer@ == of_topics(self.fetch_buffer@, text_set(topics))
        &&& after == (Consumer {
            subscription: after.subscription,
            metadata_topics: after.metadata_topics,
            fetch_buffer: after.fetch_buffer,
            ..self
        })
    }

    /// Whether `result` are the subscribed topics.
    pub open spec fn subscription_is(self, result: Seq<Seq<char>>) -> bool {
        result == views(self.subscription.topics@)
    }

    fn require_subscribable(&self) -> (r: Result<(), ConsumerError>)
        ensures
            r is Ok <==> self.can_subscribe(),
            r matches Err(e) ==> self.subscribe_error(e),
    {
        match self.require_group_membership() {
            Ok(_) => {},
            Err(e) => {
                return Err(e);
            },
        }
        if self.subscription.manual_assignment {
            return Err(ConsumerError::IllegalState(MUTUALLY_EXCLUSIVE.to_owned()));
        }
        Ok(())
    }

    /// Subscribe to `topics`, in place of the current subscription.
    ///
    /// The next `poll` joins the group again with the new topics. The buffered
    /// data of other topics is dropped. An empty list asks for an
    /// [`unsubscribe`](Self::unsubscribe).
    pub fn subscribe(&mut self, topics: Vec<String>) -> (r: Result<SubscribeStep, ConsumerError>)
        requires
            old(self).wf(),
            old(self).subscription.version < u64::MAX,
        ensures
            final(self).wf(),
            if has_empty(topics@) {
                &&& r matches Err(ConsumerError::InvalidArgument(m)) && m@ == EMPTY_TOPIC@
                &&& *final(self) == *old(self)
            } else if topics@.len() == 0 {
                r == Ok::<SubscribeStep, ConsumerError>(SubscribeStep::Unsubscribe)
                    && *final(self) == *old(self)
            } else if !old(self).can_subscribe() {
                r is Err && old(self).subscribe_error(r->Err_0) && *final(self) == *old(self)
            } else {
                &&& r == Ok::<SubscribeStep, ConsumerError>(SubscribeStep::Subscribed)
                &&& old(self).subscribed_to(topics@, *final(self))
            },
    {
        let mut i: usize = 0;
        while i < topics.len()
            invariant
                i <= topics@.len(),
                forall|j: int| 0 <= j < i ==> (#[trigger] topics@[j])@.len() > 0,
                *self == *old(self),
                self.wf(),
            decreases topics.len() - i,
        {
            if topics[i].as_str().is_empty() {
                assert(topics@[i as int]@.len() == 0);
                return Err(ConsumerError::InvalidArgument(EMPTY_TOPIC.to_owned()));
            }
            i = i + 1;
        }
        if topics.is_empty() {
            return Ok(SubscribeStep::Unsubscribe);
        }
        match self.require_subscribable() {
            Ok(_) => {},
            Err(e) => {
                return Err(e);
            },
        }
        self.metadata_topics = copy_texts(&topics);
        let names = sorted(topics);
        let copied = copy_texts(&names);
        let ghost listed = copied@;
        let set: SortedSet<String> = SortedSet::from_items(copied);
        proof {
            assert forall|t: Seq<char>| set@.contains(t) <==> #[trigger] text_set(
                names@,
            ).contains(t) by {
                lemma_of_text_set(listed, t);
            }
            assert(set@ =~= text_set(names@));
        }
        proof {
            lemma_of_topics_belongs(self.fetch_buffer@, set@);
        }
        self.fetch_buffer.retain_topics(&set);
        self.subscription.topics = names;
        self.subscription.pattern = None;
        self.subscription.regex = None;
        self.subscription.version = self.subscription.version + 1;
        Ok(SubscribeStep::Subscribed)
    }

    /// Subscribe to the topics that `pattern` matches, in place of the current
    /// subscription. The buffered data is dropped.
    ///
    /// The pattern is matched against all topics of the cluster, and the next
    /// `poll` joins the group again when the matched topics change.
    pub fn subscribe_pattern(&mut self, pattern: TopicPattern) -> (r: Result<(), ConsumerError>)
        requires
            old(self).wf(),
            old(self).subscription.version < u64::MAX,
        ensures
            final(self).wf(),
            if !old(self).can_subscribe() {
                r is Err && old(self).subscribe_error(r->Err_0) && *final(self) == *old(self)
            } else {
                &&& r is Ok
                &&& final(self).subscription.topics@.len() == 0
                &&& final(self).subscription == (Subscription {
                    topics: final(self).subscription.topics,
                    pattern: Some(pattern),
                    regex: None,
                    version: (old(self).subscription.version + 1) as u64,
                    ..old(self).subscription
                })
                &&& final(self).fetch_buffer@ == Seq::<BufferedModel>::empty()
                &&& *final(self) == (Consumer {
                    subscription: final(self).subscription,
                    fetch_buffer: final(self).fetch_buffer,
                    ..*old(self)
                })
            },
    {
        match self.require_subscribable() {
            Ok(_) => {},
            Err(e) => {
                return Err(e);
            },
        }
        self.fetch_buffer = FetchBuffer::new();
        self.subscription.topics = Vec::new();
        self.subscription.pattern = Some(pattern);
        self.subscription.regex = None;
        self.subscription.version = self.subscription.version + 1;
        Ok(())
    }

    /// Subscribe to the topics that the regular expression `regex` matches, in
    /// place of the current subscription. The buffered data is dropped.
    ///
    /// The group coordinator matches the expression. The topics of the last
    /// assignment stay until the next one replaces them, so `poll` keeps the
    /// metadata of the partitions that the member still owns.
    pub fn subscribe_regex(&mut self, regex: &str) -> (r: Result<(), ConsumerError>)
        requires
            old(self).wf(),
            old(self).subscription.version < u64::MAX,
        ensures
            final(self).wf(),
            if regex@.len() == 0 {
                &&& r matches Err(ConsumerError::InvalidArgument(m)) && m@ == EMPTY_REGEX@
                &&& *final(self) == *old(self)
            } else if !(old(self).has_group() && old(self).settings.group_membership) {
                r is Err && old(self).membership_error(r->Err_0) && *final(self) == *old(self)
            } else if old(self).settings.group_protocol != GroupProtocol::Consumer {
                &&& r matches Err(ConsumerError::IllegalState(m)) && m@
                    == RE2J_NEEDS_CONSUMER_PROTOCOL@
                &&& *final(self) == *old(self)
            } else if old(self).subscription.manual_assignment {
                &&& r matches Err(ConsumerError::IllegalState(m)) && m@ == MUTUALLY_EXCLUSIVE@
                &&& *final(self) == *old(self)
            } else {
                &&& r is Ok
                &&& (final(self).subscription.regex matches Some(text) && text@ == regex@)
                &&& final(self).subscription == (Subscription {
                    pattern: None,
                    regex: final(self).subscription.regex,
                    version: (old(self).subscription.version + 1) as u64,
                    ..old(self).subscription
                })
                &&& final(self).fetch_buffer@ == Seq::<BufferedModel>::empty()
                &&& *final(self) == (Consumer {
                    subscription: final(self).subscription,
                    fetch_buffer: final(self).fetch_buffer,
                    ..*old(self)
                })
            },
    {
        if regex.is_empty() {
            return Err(ConsumerError::InvalidArgument(EMPTY_REGEX.to_owned()));
        }
        match self.require_group_membership() {
            Ok(_) => {},
            Err(e) => {
                return Err(e);
            },
        }
        if self.settings.group_protocol != GroupProtocol::Consumer {
            return Err(ConsumerError::IllegalState(RE2J_NEEDS_CONSUMER_PROTOCOL.to_owned()));
        }
        if self.subscription.manual_assignment {
            return Err(ConsumerError::IllegalState(MUTUALLY_EXCLUSIVE.to_owned()));
        }
        self.fetch_buffer = FetchBuffer::new();
        self.subscription.pattern = None;
        self.subscription.regex = Some(regex.to_owned());
        self.subscription.version = self.subscription.version + 1;
        Ok(())
    }

    /// Give up the subscription and the assigned partitions.
    ///
    /// `listener_result` is the result of the listener callback, which gets the
    /// owned partitions first. The consumer unsubscribes also when the callback
    /// failed, and the failure comes back.
    pub fn unsubscribe(&mut self, listener_result: Result<(), ConsumerError>) -> (r: Result<
        (),
        ConsumerError,
    >)
        requires
            old(self).subscription.version < u64::MAX,
            old(self).subscription.unsubscribes < u64::MAX,
        ensures
            r == listener_result,
            final(self).wf(),
            final(self).fetch_buffer@ == Seq::<BufferedModel>::empty(),
            final(self).assigned.listed() == Seq::<PartitionKey>::empty(),
            final(self).assigned@ == Set::<PartitionKey>::empty(),
            final(self).ownership_ids@ == Map::<PartitionKey, u64>::empty(),
            final(self).next_offsets@ == Map::<PartitionKey, i64>::empty(),
            final(self).positions@ == Map::<PartitionKey, PartitionPosition>::empty(),
            final(self).end_offsets@ == Map::<PartitionKey, i64>::empty(),
            final(self).subscription.none(),
            !final(self).subscription.manual_assignment,
            final(self).subscription == (Subscription {
                topics: final(self).subscription.topics,
                pattern: None,
                regex: None,
                manual_assignment: false,
                unsubscribes: (old(self).subscription.unsubscribes + 1) as u64,
                version: (old(self).subscription.version + 1) as u64,
                ..old(self).subscription
            }),
            *final(self) == (Consumer {
                fetch_buffer: final(self).fetch_buffer,
                assigned: final(self).assigned,
                ownership_ids: final(self).ownership_ids,
                next_offsets: final(self).next_offsets,
                positions: final(self).positions,
                end_offsets: final(self).end_offsets,
                subscription: final(self).subscription,
                ..*old(self)
            }),
    {
        self.fetch_buffer = FetchBuffer::new();
        self.assigned = Assignment::new();
        self.ownership_ids = SortedMap::new();
        self.next_offsets = SortedMap::new();
        self.positions = SortedMap::new();
        self.end_offsets = SortedMap::new();
        self.subscription.topics = Vec::new();
        self.subscription.pattern = None;
        self.subscription.regex = None;
        self.subscription.manual_assignment = false;
        self.subscription.unsubscribes = self.subscription.unsubscribes + 1;
        self.subscription.version = self.subscription.version + 1;
        listener_result
    }

    /// The subscribed topics. For a pattern subscription, the topics that
    /// matched the last metadata.
    pub fn subscription(&self) -> (r: Vec<String>)
        ensures
            self.subscription_is(views(r@)),
    {
        copy_texts(&self.subscription.topics)
    }

    /// Name the subscribed topics in the metadata requests of this consumer, so
    /// that `poll` learns the leaders of a topic that a pattern added.
    pub fn sync_metadata_topics(&mut self)
        ensures
            views(final(self).metadata_topics@) == if old(self).subscription.none() {
                views(old(self).metadata_topics@)
            } else {
                views(old(self).subscription.topics@)
            },
            *final(self) == (Consumer {
                metadata_topics: final(self).metadata_topics,
                ..*old(self)
            }),
    {
        if !self.subscription.is_none() && !same_texts(
            &self.metadata_topics,
            &self.subscription.topics,
        ) {
            self.metadata_topics = copy_texts(&self.subscription.topics);
        }
    }
}

/// After `subscribe`, `subscription` returns the topics it was given, sorted and
/// each once, whatever was subscribed before.
pub proof fn law_subscription_returns_the_sorted_topics(
    before: Consumer,
    topics: Seq<String>,
    after: Consumer,
    result: Seq<Seq<char>>,
)
    requires
        before.subscribed_to(topics, after),
        after.subscription_is(result),
    ensures
        ascending::<String>(result),
        result.no_duplicates(),
        result.to_set() == text_set(topics),
{
    crate::collections::lemma_ascending_distinct::<String>(result);
}

proof fn lemma_of_text_set(texts: Seq<String>, t: Seq<char>)
    ensures
        text_set(texts).contains(t) <==> exists|i: int|
            0 <= i < texts.len() && (#[trigger] texts[i])@ == t,
{
    if text_set(texts).contains(t) {
        let i = choose|i: int| 0 <= i < views(texts).len() && views(texts)[i] == t;
        assert(texts[i]@ == t);
    }
    if exists|i: int| 0 <= i < texts.len() && (#[trigger] texts[i])@ == t {
        let i = choose|i: int| 0 <= i < texts.len() && (#[trigger] texts[i])@ == t;
        assert(views(texts)[i] == t);
    }
}

} // verus!
