//! The way of fetches: which partitions go to which broker, the requests, and
//! the answers.
use vstd::prelude::*;

use crate::collections::{kept, lemma_take_next, SortedMap, SortedSet};
use crate::consumer::{CompletedFetch, Consumer, FetchResult, Fetches, InFlightFetch, Nanos};
use crate::consumer::ConsumerSettings;
use crate::error::{ClientError, ConsumerError};
use crate::fetch::{
    asks_for, build_fetch_request, fetch_rows, lemma_fetch_row, resolve_name, resolved_name,
    session_fields, session_partition, session_rows, topics_forget, topics_hold, FetchRequest,
    FetchResponse, FetchSpec, FetchableTopicResponse, PartitionData,
};
use crate::fetch_answer::fetch_floor;
use crate::fetch_buffer::buffered_keys;
use crate::fetch_session::{
    FetchMetadata, FetchSession, SessionPartition, SessionRequest, INITIAL_EPOCH,
    INVALID_SESSION_ID,
};
use crate::grouping::{listed_for, no_empty_broker, push_for, ByBroker};
use crate::list_offsets::{
    fetch_leader_id, is_reset_sentinel, is_transient_transport_error, key_views, leader_of,
    reset_sentinel, should_use_bootstrap_leader, transient_transport_error, BOOTSTRAP_LEADER,
    OFFSET_OUT_OF_RANGE,
};
use crate::offset_wire::{topic_id_of, topic_id_or_zero};
use crate::partition_state::pauses_in_effect;
use crate::position::{position_of, position_or_default};
use crate::subscription::text_set;
use crate::wire::{copy_key, PartitionKey, TopicPartition, Uuid};

verus! {

/// The preferred replicas of partitions, each with the end of the preference.
pub type ReplicaMap = Map<PartitionKey, (i32, Nanos)>;

/// Whether a preference is no longer followed: it expired, or the replica is
/// not a known broker.
pub open spec fn preference_ends(
    replicas: ReplicaMap,
    known: Set<i32>,
    now: Nanos,
    key: PartitionKey,
) -> bool {
    replicas.contains_key(key) && (now > replicas[key].1 || !known.contains(replicas[key].0))
}

/// Whether a preference that did not expire names an unknown broker.
pub open spec fn replica_unknown(
    replicas: ReplicaMap,
    known: Set<i32>,
    now: Nanos,
    key: PartitionKey,
) -> bool {
    replicas.contains_key(key) && now <= replicas[key].1 && !known.contains(replicas[key].0)
}

impl Consumer {
    /// Whether the records of a topic are wanted: with a topic subscription,
    /// only those of the subscribed topics.
    pub open spec fn wants_topic(self, topic: Seq<char>) -> bool {
        self.subscription.manual_assignment || self.subscription.pattern is Some || text_set(
            self.subscription.topics@,
        ).contains(topic)
    }

    /// Whether an owned partition can be fetched: its assign callback ran, its
    /// topic is wanted, its position is valid, it is not paused, and none of
    /// its data waits in the buffer.
    pub open spec fn fetchable(self, key: PartitionKey) -> bool {
        &&& !self.assigned_callback_pending@.contains(key)
        &&& self.wants_topic(key.0)
        &&& !(self.positions@.contains_key(key) && self.positions@[key].awaiting_validation)
        &&& !reset_sentinel(fetch_floor(self.next_offsets@, key))
        &&& !pauses_in_effect(self.paused_partitions@, self.ownership_ids@).contains_key(key)
        &&& !buffered_keys(self.fetch_buffer@).contains(key)
    }

    /// The broker that a partition is fetched from: its preferred replica while
    /// the preference holds, its leader otherwise.
    pub open spec fn read_from(self, key: PartitionKey, now: Nanos) -> i32 {
        let replicas = self.fetches.preferred_read_replicas@;
        if replicas.contains_key(key) && !preference_ends(
            replicas,
            self.known_brokers@,
            now,
            key,
        ) {
            replicas[key].0
        } else {
            leader_of(self.positions@, self.known_brokers@, key)
        }
    }

    /// The request fields of a partition.
    pub open spec fn fetch_spec(self, key: PartitionKey) -> FetchSpec {
        let position = position_of(self.positions@, key);
        (
            key.1,
            fetch_floor(self.next_offsets@, key),
            position.leader_epoch,
            position.offset_epoch,
        )
    }

    /// The partitions of `keys` that a broker is asked for on a topic, in
    /// order. A broker with a fetch in flight is asked for none.
    pub open spec fn fetch_specs(
        self,
        keys: Seq<PartitionKey>,
        now: Nanos,
        broker: i32,
        topic: Seq<char>,
    ) -> Seq<FetchSpec>
        decreases keys.len(),
    {
        if keys.len() == 0 {
            seq![]
        } else {
            let before = self.fetch_specs(keys.drop_last(), now, broker, topic);
            let key = keys.last();
            if key.0 == topic && self.fetchable(key) && self.read_from(key, now) == broker
                && !self.fetches.in_flight@.contains_key(broker) {
                before.push(self.fetch_spec(key))
            } else {
                before
            }
        }
    }

    /// Whether `grouped` are the partitions to fetch by broker, those of a broker
    /// and topic in the order of the assignment, and `after` is
    /// the consumer without the preferences that ended. The flag says that a
    /// preference named an unknown broker.
    pub open spec fn fetches_grouped(
        self,
        now: Nanos,
        grouped: ByBroker<FetchSpec>,
        refresh: bool,
        after: Consumer,
    ) -> bool {
        &&& no_empty_broker(grouped@)
        &&& forall|b: i32, t: Seq<char>| #[trigger]
            listed_for(grouped@, b, t) == self.fetch_specs(self.assigned.listed(), now, b, t)
        &&& refresh <==> exists|k: PartitionKey| #[trigger]
            self.assigned@.contains(k) && self.fetchable(k) && replica_unknown(
                self.fetches.preferred_read_replicas@,
                self.known_brokers@,
                now,
                k,
            )
        &&& after.fetches.preferred_read_replicas@ == kept(
            self.fetches.preferred_read_replicas@,
            |k: PartitionKey, v: (i32, Nanos)|
                !(self.assigned@.contains(k) && self.fetchable(k) && preference_ends(
                    self.fetches.preferred_read_replicas@,
                    self.known_brokers@,
                    now,
                    k,
                )),
        )
        &&& after.paused_partitions@ == pauses_in_effect(
            self.paused_partitions@,
            self.ownership_ids@,
        )
        &&& after == (Consumer {
            paused_partitions: after.paused_partitions,
            fetches: Fetches {
                preferred_read_replicas: after.fetches.preferred_read_replicas,
                ..self.fetches
            },
            ..self
        })
    }

    /// Group the partitions to fetch by the broker to ask. Preferences that
    /// ended are dropped; the flag says that one named an unknown broker, so
    /// the metadata must be refreshed.
    pub fn group_fetches(&mut self, now: Nanos) -> (r: (ByBroker<FetchSpec>, bool))
        ensures
            old(self).fetches_grouped(now, r.0, r.1, *final(self)),
    {
        let ghost before = *self;
        let paused = self.paused_of();
        let buffered = self.fetch_buffer.buffered_partitions();
        let mut grouped: ByBroker<FetchSpec> = SortedMap::new();
        let mut refresh = false;
        let list = self.assigned.list();
        let n = list.len();
        let ghost items = self.assigned.listed();
        let ghost replicas = self.fetches.preferred_read_replicas@;
        let ghost known = self.known_brokers@;
        let mut i: usize = 0;
        assert(self.fetches.preferred_read_replicas@ =~= kept(
            replicas,
            |k: PartitionKey, v: (i32, Nanos)|
                !(items.take(0).contains(k) && before.fetchable(k) && preference_ends(
                    replicas,
                    known,
                    now,
                    k,
                )),
        ));
        while i < n
            invariant
                i <= n,
                n == items.len(),
                items == before.assigned.listed(),
                items == key_views(list@),
                n == list@.len(),
                replicas == before.fetches.preferred_read_replicas@,
                known == before.known_brokers@,
                paused@ == pauses_in_effect(
                    before.paused_partitions@,
                    before.ownership_ids@,
                ).dom(),
                buffered@ == buffered_keys(before.fetch_buffer@),
                no_empty_broker(grouped@),
                forall|b: i32, t: Seq<char>| #[trigger]
                    listed_for(grouped@, b, t) == before.fetch_specs(
                        items.take(i as int),
                        now,
                        b,
                        t,
                    ),
                refresh <==> exists|j: int|
                    0 <= j < i && before.fetchable(#[trigger] items[j]) && replica_unknown(
                        replicas,
                        known,
                        now,
                        items[j],
                    ),
                self.fetches.preferred_read_replicas@ == kept(
                    replicas,
                    |k: PartitionKey, v: (i32, Nanos)|
                        !(items.take(i as int).contains(k) && before.fetchable(k)
                            && preference_ends(replicas, known, now, k)),
                ),
                *self == (Consumer {
                    paused_partitions: self.paused_partitions,
                    fetches: Fetches {
                        preferred_read_replicas: self.fetches.preferred_read_replicas,
                        ..before.fetches
                    },
                    ..before
                }),
                self.paused_partitions@ == pauses_in_effect(
                    before.paused_partitions@,
                    before.ownership_ids@,
                ),
            decreases n - i,
        {
            let key = copy_key(&list[i]);
            let ghost k0 = items[i as int];
            proof {
                lemma_take_next(items, i as int);
                assert(items.take(i + 1).drop_last() =~= items.take(i as int));
                if items.take(i as int).contains(k0) {
                    let j = choose|j: int|
                        0 <= j < items.take(i as int).len() && items.take(i as int)[j] == k0;
                    assert(items[j] == k0);
                    if before.fetchable(k0) && replica_unknown(replicas, known, now, k0) {
                        assert(refresh);
                    }
                }
                assert forall|b: i32, t: Seq<char>| #[trigger]
                    before.fetch_specs(items.take(i + 1), now, b, t) == if k0.0 == t
                        && before.fetchable(k0) && before.read_from(k0, now) == b
                        && !before.fetches.in_flight@.contains_key(b) {
                        before.fetch_specs(items.take(i as int), now, b, t).push(
                            before.fetch_spec(k0),
                        )
                    } else {
                        before.fetch_specs(items.take(i as int), now, b, t)
                    } by {
                    assert(items.take(i + 1).last() == k0);
                }
            }
            let next: i64 = match self.next_offsets.get(&key) {
                Some(offset) => *offset,
                None => 0,
            };
            let position = position_or_default(&self.positions, &key);
            let wanted = self.subscription.manual_assignment || self.subscription.pattern.is_some()
                || self.subscription.contains(key.0.as_str());
            let awaiting_validation = match self.positions.get(&key) {
                Some(position) => position.awaiting_validation,
                None => false,
            };
            let fetch = !self.assigned_callback_pending.contains(&key) && wanted
                && !awaiting_validation && !is_reset_sentinel(next) && !paused.contains(&key)
                && !buffered.contains(&key);
            assert(fetch == before.fetchable(k0));
            if !fetch {
                proof {
                    assert(self.fetches.preferred_read_replicas@ =~= kept(
                        replicas,
                        |k: PartitionKey, v: (i32, Nanos)|
                            !(items.take(i + 1).contains(k) && before.fetchable(k)
                                && preference_ends(replicas, known, now, k)),
                    ));
                }
                i = i + 1;
                continue ;
            }
            let mut leader = fetch_leader_id(
                position.leader_id,
                self.known_brokers.contains(&position.leader_id),
            );
            let preferred = match self.fetches.preferred_read_replicas.get(&key) {
                Some(entry) => Some(*entry),
                None => None,
            };
            if let Some((replica, expires)) = preferred {
                if now > expires {
                    self.fetches.preferred_read_replicas.remove(&key);
                } else if self.known_brokers.contains(&replica) {
                    leader = replica;
                } else {
                    self.fetches.preferred_read_replicas.remove(&key);
                    refresh = true;
                }
            }
            assert(leader == before.read_from(k0, now));
            proof {
                assert(self.fetches.preferred_read_replicas@ =~= kept(
                    replicas,
                    |k: PartitionKey, v: (i32, Nanos)|
                        !(items.take(i + 1).contains(k) && before.fetchable(k) && preference_ends(
                            replicas,
                            known,
                            now,
                            k,
                        )),
                ));
            }
            if !self.fetches.in_flight.contains_key(&leader) {
                push_for(
                    &mut grouped,
                    leader,
                    &key.0,
                    (key.1, next, position.leader_epoch, position.offset_epoch),
                );
            }
            i = i + 1;
        }
        proof {
            assert(items.take(i as int) =~= items);
            assert forall|k: PartitionKey| items.contains(k) <==> #[trigger]
                before.assigned@.contains(k) by {}
            assert(self.fetches.preferred_read_replicas@ =~= kept(
                replicas,
                |k: PartitionKey, v: (i32, Nanos)|
                    !(before.assigned@.contains(k) && before.fetchable(k) && preference_ends(
                        replicas,
                        known,
                        now,
                        k,
                    )),
            ));
            if exists|k: PartitionKey| #[trigger]
                before.assigned@.contains(k) && before.fetchable(k) && replica_unknown(
                    replicas,
                    known,
                    now,
                    k,
                ) {
                let k = choose|k: PartitionKey| #[trigger]
                    before.assigned@.contains(k) && before.fetchable(k) && replica_unknown(
                        replicas,
                        known,
                        now,
                        k,
                    );
                assert(items.contains(k));
                let j = choose|j: int| 0 <= j < items.len() && items[j] == k;
                assert(before.fetchable(items[j]));
            }
            if refresh {
                let j = choose|j: int|
                    0 <= j < i && before.fetchable(#[trigger] items[j]) && replica_unknown(
                        replicas,
                        known,
                        now,
                        items[j],
                    );
                assert(items.contains(items[j]));
                assert(before.assigned@.contains(items[j]));
            }
        }
        (grouped, refresh)
    }
}

/// The last entry of a partition in `specs`.
pub open spec fn last_spec(specs: Seq<FetchSpec>, partition: i32) -> Option<FetchSpec>
    decreases specs.len(),
{
    if specs.len() == 0 {
        None
    } else if specs.last().0 == partition {
        Some(specs.last())
    } else {
        last_spec(specs.drop_last(), partition)
    }
}

proof fn lemma_last_spec(specs: Seq<FetchSpec>, partition: i32)
    requires
        last_spec(specs, partition) is Some,
    ensures
        exists|j: int| 0 <= j < specs.len() && (#[trigger] specs[j]).0 == partition,
    decreases specs.len(),
{
    if specs.last().0 == partition {
        assert(specs[specs.len() - 1].0 == partition);
    } else {
        lemma_last_spec(specs.drop_last(), partition);
        let front = specs.drop_last();
        let j = choose|j: int| 0 <= j < front.len() && (#[trigger] front[j]).0 == partition;
        assert(specs[j].0 == partition);
    }
}

proof fn lemma_fetch_specs(
    consumer: Consumer,
    keys: Seq<PartitionKey>,
    now: Nanos,
    broker: i32,
    topic: Seq<char>,
)
    ensures
        forall|j: int|
            0 <= j < consumer.fetch_specs(keys, now, broker, topic).len() ==> consumer.fetchable(
                (topic, (#[trigger] consumer.fetch_specs(keys, now, broker, topic)[j]).0),
            ),
    decreases keys.len(),
{
    if keys.len() > 0 {
        lemma_fetch_specs(consumer, keys.drop_last(), now, broker, topic);
    }
}

/// A partition that a request of a fetch asks for is one that can be fetched.
pub proof fn lemma_asked_is_fetchable(
    consumer: Consumer,
    now: Nanos,
    grouped: ByBroker<FetchSpec>,
    refresh: bool,
    ready: Consumer,
    sent: Seq<(i32, FetchRequest)>,
    after: Consumer,
    i: int,
    key: PartitionKey,
)
    requires
        consumer.fetches_grouped(now, grouped, refresh, ready),
        ready.fetches_sent(grouped, sent, after),
        0 <= i < sent.len(),
        asks_for(sent[i].1, key),
    ensures
        consumer.fetchable(key),
{
    let broker = sent[i].0;
    let request = sent[i].1;
    let wanted = ready.wanted_at(grouped, broker);
    assert(requests(ready.fetches.sessions@, ready.settings, broker, wanted, request));
    let (had, session) = choose|had: FetchSession, session: SessionRequest|
        is_session(had, ready.fetches.sessions@, broker) && #[trigger] had.builds(wanted, session)
            && session.partitions.keys_listed() && carries(request, ready.settings, session);
    let (t, p) = choose|t: int, p: int|
        0 <= t < request.topics@.len() && 0 <= p < request.topics@[t].partitions@.len()
            && request.topics@[t].topic@ == key.0 && (
        #[trigger] request.topics@[t].partitions@[p]).partition == key.1;
    lemma_fetch_row(request.topics@, t, p);
    let rows = fetch_rows(request.topics@);
    let r = choose|r: int| 0 <= r < rows.len() && (#[trigger] rows[r]).0 == key;
    assert(session_rows(session.partitions.entries())[r].0 == key);
    assert(session.partitions.keys()[r] == key);
    assert(session.partitions.keys().contains(key));
    assert(session.partitions@.contains_key(key));
    assert(wanted.contains_key(key));
    let by_topic = grouped@[broker]@;
    lemma_last_spec(by_topic[key.0]@, key.1);
    let asked = idle(grouped.keys(), ready.fetches.in_flight@.dom());
    lemma_idle(grouped.keys(), ready.fetches.in_flight@.dom());
    assert(Seq::new(sent.len(), |i: int| sent[i].0)[i] == broker);
    assert(asked.contains(broker));
    assert(grouped@.contains_key(broker));
    let specs = listed_for(grouped@, broker, key.0);
    assert(specs == by_topic[key.0]@);
    assert(specs == consumer.fetch_specs(consumer.assigned.listed(), now, broker, key.0));
    lemma_fetch_specs(consumer, consumer.assigned.listed(), now, broker, key.0);
    let j = choose|j: int| 0 <= j < specs.len() && (#[trigger] specs[j]).0 == key.1;
    assert(consumer.fetchable((key.0, specs[j].0)));
}

/// The partitions of one broker with their session fields.
pub open spec fn wanted_of(
    by_topic: Map<Seq<char>, Vec<FetchSpec>>,
    ids: Map<Seq<char>, Uuid>,
    partition_max: i32,
) -> Map<PartitionKey, SessionPartition> {
    Map::new(
        |k: PartitionKey| by_topic.contains_key(k.0) && last_spec(by_topic[k.0]@, k.1) is Some,
        |k: PartitionKey|
            session_fields(
                topic_id_of(ids, k.0),
                last_spec(by_topic[k.0]@, k.1)->Some_0,
                partition_max,
            ),
    )
}

/// The partitions of the topics `done`, and of the first `j` entries of `topic`.
spec fn wanted_so_far(
    by_topic: Map<Seq<char>, Vec<FetchSpec>>,
    ids: Map<Seq<char>, Uuid>,
    partition_max: i32,
    done: Seq<Seq<char>>,
    topic: Seq<char>,
    j: int,
) -> Map<PartitionKey, SessionPartition> {
    Map::new(
        |k: PartitionKey|
            if k.0 == topic {
                last_spec(by_topic[topic]@.take(j), k.1) is Some
            } else {
                done.contains(k.0) && last_spec(by_topic[k.0]@, k.1) is Some
            },
        |k: PartitionKey|
            session_fields(
                topic_id_of(ids, k.0),
                if k.0 == topic {
                    last_spec(by_topic[topic]@.take(j), k.1)->Some_0
                } else {
                    last_spec(by_topic[k.0]@, k.1)->Some_0
                },
                partition_max,
            ),
    )
}

fn wanted_partitions(
    by_topic: &SortedMap<String, Vec<FetchSpec>>,
    topic_ids: &SortedMap<String, Uuid>,
    partition_max: i32,
) -> (r: SortedMap<TopicPartition, SessionPartition>)
    ensures
        r@ == wanted_of(by_topic@, topic_ids@, partition_max),
{
    let mut wanted: SortedMap<TopicPartition, SessionPartition> = SortedMap::new();
    let n = by_topic.len();
    let ghost keys = by_topic.keys();
    let ghost ids = topic_ids@;
    let mut i: usize = 0;
    while i < n
        invariant
            n == keys.len(),
            keys == by_topic.keys(),
            by_topic.keys_listed(),
            ids == topic_ids@,
            i <= n,
            forall|k: PartitionKey| #[trigger]
                wanted@.contains_key(k) <==> keys.take(i as int).contains(k.0) && last_spec(
                    by_topic@[k.0]@,
                    k.1,
                ) is Some,
            forall|k: PartitionKey| #[trigger]
                wanted@.contains_key(k) ==> wanted@[k] == session_fields(
                    topic_id_of(ids, k.0),
                    last_spec(by_topic@[k.0]@, k.1)->Some_0,
                    partition_max,
                ),
        decreases n - i,
    {
        let topic = by_topic.key_at(i);
        let specs = by_topic.value_at(i);
        let topic_id = topic_id_or_zero(topic_ids, topic);
        let ghost done = keys.take(i as int);
        proof {
            assert(!done.contains(topic@)) by {
                if done.contains(topic@) {
                    let j = choose|j: int| 0 <= j < done.len() && done[j] == topic@;
                    assert(keys[j] == keys[i as int]);
                }
            }
            assert(specs@.take(0) =~= seq![]);
            assert(wanted@ =~= wanted_so_far(by_topic@, ids, partition_max, done, topic@, 0));
        }
        let mut j: usize = 0;
        while j < specs.len()
            invariant
                j <= specs@.len(),
                by_topic@.contains_key(topic@),
                *specs == by_topic@[topic@],
                topic_id == topic_id_of(ids, topic@),
                wanted@ == wanted_so_far(
                    by_topic@,
                    ids,
                    partition_max,
                    done,
                    topic@,
                    j as int,
                ),
            decreases specs.len() - j,
        {
            let spec_ = specs[j];
            proof {
                assert(specs@.take(j + 1).drop_last() =~= specs@.take(j as int));
            }
            wanted.insert(
                (topic.clone(), spec_.0),
                session_partition(topic_id, spec_, partition_max),
            );
            assert(wanted@ =~= wanted_so_far(
                by_topic@,
                ids,
                partition_max,
                done,
                topic@,
                j + 1,
            ));
            j = j + 1;
        }
        proof {
            assert(specs@.take(j as int) =~= specs@);
            lemma_take_next(keys, i as int);
        }
        i = i + 1;
    }
    proof {
        assert(keys.take(n as int) =~= keys);
        assert(wanted@ =~= wanted_of(by_topic@, ids, partition_max));
    }
    wanted
}

/// The fetch offsets of wanted partitions.
pub open spec fn requested_of(wanted: Map<PartitionKey, SessionPartition>) -> Map<
    PartitionKey,
    i64,
> {
    wanted.map_values(|p: SessionPartition| p.fetch_offset)
}

/// The wanted partitions that a broker is asked for as their preferred replica.
pub open spec fn replica_keys(
    wanted: Map<PartitionKey, SessionPartition>,
    replicas: ReplicaMap,
    broker: i32,
) -> Set<PartitionKey> {
    Set::new(
        |k: PartitionKey|
            wanted.contains_key(k) && replicas.contains_key(k) && replicas[k].0 == broker,
    )
}

fn in_flight_fetch(
    wanted: &SortedMap<TopicPartition, SessionPartition>,
    replicas: &SortedMap<TopicPartition, (i32, Nanos)>,
    broker: i32,
) -> (r: InFlightFetch)
    ensures
        r.requested@ == requested_of(wanted@),
        r.from_replica@ == replica_keys(wanted@, replicas@, broker),
{
    let mut requested: SortedMap<TopicPartition, i64> = SortedMap::new();
    let mut from_replica: SortedSet<TopicPartition> = SortedSet::new();
    let n = wanted.len();
    let ghost keys = wanted.keys();
    let mut i: usize = 0;
    while i < n
        invariant
            n == keys.len(),
            keys == wanted.keys(),
            wanted.keys_listed(),
            i <= n,
            forall|k: PartitionKey| #[trigger]
                requested@.contains_key(k) <==> keys.take(i as int).contains(k),
            forall|k: PartitionKey| #[trigger]
                requested@.contains_key(k) ==> requested@[k] == wanted@[k].fetch_offset,
            forall|k: PartitionKey| #[trigger]
                from_replica@.contains(k) <==> keys.take(i as int).contains(k)
                    && replicas@.contains_key(k) && replicas@[k].0 == broker,
        decreases n - i,
    {
        let key = wanted.key_at(i);
        proof {
            lemma_take_next(keys, i as int);
        }
        requested.insert(copy_key(key), wanted.value_at(i).fetch_offset);
        if let Some(entry) = replicas.get(key) {
            if entry.0 == broker {
                from_replica.insert(copy_key(key));
            }
        }
        i = i + 1;
    }
    proof {
        assert(keys.take(n as int) =~= keys);
        assert(requested@ =~= requested_of(wanted@));
        assert(from_replica@ =~= replica_keys(wanted@, replicas@, broker));
    }
    InFlightFetch { requested, from_replica }
}

/// Whether `had` is the session of a broker, a fresh one where it has none.
pub open spec fn is_session(
    had: FetchSession,
    sessions: Map<i32, FetchSession>,
    broker: i32,
) -> bool {
    if sessions.contains_key(broker) {
        had == sessions[broker]
    } else {
        had.fresh()
    }
}

/// The rack of the client, empty where it has none.
pub open spec fn rack_of(settings: ConsumerSettings) -> Seq<char> {
    match settings.client_rack {
        Some(rack) => rack@,
        None => seq![],
    }
}

/// Whether a fetch request carries a session request and the settings.
pub open spec fn carries(
    request: FetchRequest,
    settings: ConsumerSettings,
    session: SessionRequest,
) -> bool {
    &&& request.replica_id == -1
    &&& request.max_wait_ms == settings.fetch_max_wait_ms
    &&& request.min_bytes == settings.fetch_min_bytes
    &&& request.max_bytes == settings.fetch_max_bytes
    &&& request.isolation_level == settings.isolation_level.code()
    &&& request.session_id == session.session_id
    &&& request.session_epoch == session.session_epoch
    &&& request.rack_id@ == rack_of(settings)
    &&& topics_hold(request.topics@, session.partitions.entries())
    &&& topics_forget(request.forgotten_topics_data@, session.forgets())
}

/// Whether a request to a broker goes out for the partitions `wanted` in the
/// session that the broker had.
pub open spec fn requests(
    sessions: Map<i32, FetchSession>,
    settings: ConsumerSettings,
    broker: i32,
    wanted: Map<PartitionKey, SessionPartition>,
    request: FetchRequest,
) -> bool {
    exists|had: FetchSession, session: SessionRequest|
        is_session(had, sessions, broker) && #[trigger] had.builds(wanted, session)
            && session.partitions.keys_listed() && carries(request, settings, session)
}

/// Whether the consumer has a fetch of `wanted` in flight at a broker, and the
/// session of the broker holds these partitions and the id and epoch of the
/// request.
pub open spec fn in_flight_at(
    fetches: Fetches,
    replicas: ReplicaMap,
    broker: i32,
    wanted: Map<PartitionKey, SessionPartition>,
    request: FetchRequest,
) -> bool {
    &&& fetches.in_flight@.contains_key(broker)
    &&& fetches.in_flight@[broker].requested@ == requested_of(wanted)
    &&& fetches.in_flight@[broker].from_replica@ == replica_keys(wanted, replicas, broker)
    &&& fetches.sessions@.contains_key(broker)
    &&& fetches.sessions@[broker].partitions@ == wanted
    &&& fetches.sessions@[broker].next.session_id == request.session_id
    &&& fetches.sessions@[broker].next.epoch == request.session_epoch
}

impl Consumer {
    fn start_fetch(&mut self, leader: i32, by_topic: &SortedMap<String, Vec<FetchSpec>>) -> (r:
        FetchRequest)
        ensures
            ({
                let wanted = wanted_of(
                    by_topic@,
                    old(self).topic_ids@,
                    old(self).settings.fetch_partition_max_bytes,
                );
                let replicas = old(self).fetches.preferred_read_replicas@;
                &&& requests(old(self).fetches.sessions@, old(self).settings, leader, wanted, r)
                &&& in_flight_at(final(self).fetches, replicas, leader, wanted, r)
            }),
            final(self).fetches.sessions@ == old(self).fetches.sessions@.insert(
                leader,
                final(self).fetches.sessions@[leader],
            ),
            final(self).fetches.in_flight@ == old(self).fetches.in_flight@.insert(
                leader,
                final(self).fetches.in_flight@[leader],
            ),
            *final(self) == (Consumer {
                fetches: Fetches {
                    sessions: final(self).fetches.sessions,
                    in_flight: final(self).fetches.in_flight,
                    ..old(self).fetches
                },
                ..*old(self)
            }),
    {
        let wanted = wanted_partitions(
            by_topic,
            &self.topic_ids,
            self.settings.fetch_partition_max_bytes,
        );
        let in_flight = in_flight_fetch(&wanted, &self.fetches.preferred_read_replicas, leader);
        let ghost sessions = self.fetches.sessions@;
        let mut session = match self.fetches.sessions.remove(&leader) {
            Some(session) => session,
            None => FetchSession::new(),
        };
        let ghost had = session;
        let session_request = session.build(wanted);
        self.fetches.sessions.insert(leader, session);
        self.fetches.in_flight.insert(leader, in_flight);
        let rack = match &self.settings.client_rack {
            Some(rack) => rack.as_str(),
            None => "",
        };
        let request = build_fetch_request(
            self.settings.fetch_max_wait_ms,
            self.settings.isolation_level,
            self.settings.fetch_min_bytes,
            self.settings.fetch_max_bytes,
            rack,
            session_request,
        );
        proof {
            reveal_strlit("");
            assert(request.rack_id@ =~= rack_of(self.settings));
            assert(self.fetches.sessions@ =~= sessions.insert(
                leader,
                self.fetches.sessions@[leader],
            ));
            assert(is_session(had, sessions, leader));
            assert(had.builds(wanted@, session_request));
            assert(carries(request, self.settings, session_request));
        }
        request
    }
}

/// The brokers of `keys` that have no fetch in flight, in order.
pub open spec fn idle(keys: Seq<i32>, busy: Set<i32>) -> Seq<i32>
    decreases keys.len(),
{
    if keys.len() == 0 {
        seq![]
    } else {
        let before = idle(keys.drop_last(), busy);
        if busy.contains(keys.last()) {
            before
        } else {
            before.push(keys.last())
        }
    }
}

proof fn lemma_idle(keys: Seq<i32>, busy: Set<i32>)
    ensures
        forall|b: i32| #[trigger]
            idle(keys, busy).contains(b) <==> keys.contains(b) && !busy.contains(b),
    decreases keys.len(),
{
    let all = idle(keys, busy);
    if keys.len() > 0 {
        let front = keys.drop_last();
        lemma_idle(front, busy);
        let before = idle(front, busy);
        assert forall|b: i32| #[trigger] all.contains(b) <==> keys.contains(b) && !busy.contains(
            b,
        ) by {
            if all.contains(b) {
                let i = choose|i: int| 0 <= i < all.len() && all[i] == b;
                if i < before.len() {
                    assert(before[i] == b);
                    assert(before.contains(b));
                    let j = choose|j: int| 0 <= j < front.len() && front[j] == b;
                    assert(keys[j] == b);
                } else {
                    assert(keys[keys.len() - 1] == b);
                }
            }
            if keys.contains(b) && !busy.contains(b) {
                let j = choose|j: int| 0 <= j < keys.len() && keys[j] == b;
                if j < front.len() {
                    assert(front[j] == b);
                    assert(before.contains(b));
                    let i = choose|i: int| 0 <= i < before.len() && before[i] == b;
                    assert(all[i] == b);
                } else {
                    assert(all[all.len() - 1] == b);
                }
            }
        }
    }
}

impl Consumer {
    /// The partitions of one broker with their session fields.
    pub open spec fn wanted_at(self, by_leader: ByBroker<FetchSpec>, broker: i32) -> Map<
        PartitionKey,
        SessionPartition,
    > {
        wanted_of(
            by_leader@[broker]@,
            self.topic_ids@,
            self.settings.fetch_partition_max_bytes,
        )
    }

    /// Whether `sent` are the requests to the brokers of `by_leader` that had no
    /// fetch in flight, in order, and `after` has their fetches in flight.
    pub open spec fn fetches_sent(
        self,
        by_leader: ByBroker<FetchSpec>,
        sent: Seq<(i32, FetchRequest)>,
        after: Consumer,
    ) -> bool {
        let asked = idle(by_leader.keys(), self.fetches.in_flight@.dom());
        &&& by_leader.keys_listed()
        &&& Seq::new(sent.len(), |i: int| sent[i].0) == asked
        &&& forall|i: int|
            0 <= i < sent.len() ==> {
                let b = (#[trigger] sent[i]).0;
                let wanted = self.wanted_at(by_leader, b);
                &&& requests(self.fetches.sessions@, self.settings, b, wanted, sent[i].1)
                &&& in_flight_at(
                    after.fetches,
                    self.fetches.preferred_read_replicas@,
                    b,
                    wanted,
                    sent[i].1,
                )
            }
        &&& forall|b: i32|
            !asked.contains(b) ==> {
                &&& (#[trigger] after.fetches.in_flight@.contains_key(b))
                    == self.fetches.in_flight@.contains_key(b)
                &&& after.fetches.sessions@.contains_key(b)
                    == self.fetches.sessions@.contains_key(b)
                &&& after.fetches.in_flight@[b] == self.fetches.in_flight@[b]
                &&& after.fetches.sessions@[b] == self.fetches.sessions@[b]
            }
        &&& after == (Consumer {
            fetches: Fetches {
                sessions: after.fetches.sessions,
                in_flight: after.fetches.in_flight,
                ..self.fetches
            },
            ..self
        })
    }

    /// Start a fetch at each broker in `by_leader` that has none in flight.
    /// The caller sends the requests, to the bootstrap connection for the
    /// broker -1, and hands the results to
    /// [`collect_ready`](Self::collect_ready).
    pub fn send_fetches(&mut self, by_leader: &ByBroker<FetchSpec>) -> (r: Vec<(i32, FetchRequest)>)
        ensures
            old(self).fetches_sent(*by_leader, r@, *final(self)),
    {
        let ghost before = *self;
        let ghost busy = self.fetches.in_flight@.dom();
        let mut out: Vec<(i32, FetchRequest)> = Vec::new();
        let n = by_leader.len();
        let ghost keys = by_leader.keys();
        let ghost replicas = self.fetches.preferred_read_replicas@;
        let mut i: usize = 0;
        assert(Seq::new(out@.len(), |j: int| out@[j].0) =~= seq![]);
        while i < n
            invariant
                i <= n,
                n == keys.len(),
                keys == by_leader.keys(),
                by_leader.keys_listed(),
                before == *old(self),
                busy == before.fetches.in_flight@.dom(),
                replicas == before.fetches.preferred_read_replicas@,
                Seq::new(out@.len(), |j: int| out@[j].0) == idle(keys.take(i as int), busy),
                forall|j: int|
                    0 <= j < out@.len() ==> {
                        let b = (#[trigger] out@[j]).0;
                        let wanted = before.wanted_at(*by_leader, b);
                        &&& requests(
                            before.fetches.sessions@,
                            before.settings,
                            b,
                            wanted,
                            out@[j].1,
                        )
                        &&& in_flight_at(self.fetches, replicas, b, wanted, out@[j].1)
                    },
                forall|b: i32|
                    !idle(keys.take(i as int), busy).contains(b) ==> {
                        &&& (#[trigger] self.fetches.in_flight@.contains_key(b))
                            == before.fetches.in_flight@.contains_key(b)
                        &&& self.fetches.sessions@.contains_key(b)
                            == before.fetches.sessions@.contains_key(b)
                        &&& self.fetches.in_flight@[b] == before.fetches.in_flight@[b]
                        &&& self.fetches.sessions@[b] == before.fetches.sessions@[b]
                    },
                *self == (Consumer {
                    fetches: Fetches {
                        sessions: self.fetches.sessions,
                        in_flight: self.fetches.in_flight,
                        ..before.fetches
                    },
                    ..before
                }),
            decreases n - i,
        {
            let leader = *by_leader.key_at(i);
            let ghost done = idle(keys.take(i as int), busy);
            let ghost next = idle(keys.take(i + 1), busy);
            proof {
                lemma_idle(keys.take(i as int), busy);
                lemma_idle(keys.take(i + 1), busy);
                lemma_take_next(keys, i as int);
                assert(keys.take(i + 1).drop_last() =~= keys.take(i as int));
                assert(!keys.take(i as int).contains(leader)) by {
                    if keys.take(i as int).contains(leader) {
                        let j = choose|j: int|
                            0 <= j < keys.take(i as int).len() && keys.take(i as int)[j] == leader;
                        assert(keys[j] == keys[i as int]);
                    }
                }
                assert(!done.contains(leader));
            }
            if self.fetches.in_flight.contains_key(&leader) {
                i = i + 1;
                continue ;
            }
            let ghost middle = *self;
            let request = self.start_fetch(leader, by_leader.value_at(i));
            let ghost out_had = out@;
            out.push((leader, request));
            proof {
                let wanted = before.wanted_at(*by_leader, leader);
                assert(next == done.push(leader));
                assert(Seq::new(out@.len(), |j: int| out@[j].0) =~= next);
                assert(requests(before.fetches.sessions@, before.settings, leader, wanted, request))
                    by {
                    let (had, session) = choose|had: FetchSession, session: SessionRequest|
                        is_session(had, middle.fetches.sessions@, leader) && #[trigger] had.builds(
                            wanted,
                            session,
                        ) && session.partitions.keys_listed() && carries(
                            request,
                            middle.settings,
                            session,
                        );
                    assert(!done.contains(leader));
                    assert(middle.fetches.in_flight@.contains_key(leader)
                        == before.fetches.in_flight@.contains_key(leader));
                    assert(is_session(had, before.fetches.sessions@, leader));
                    assert(had.builds(wanted, session));
                }
                assert forall|j: int| 0 <= j < out@.len() implies {
                    let b = (#[trigger] out@[j]).0;
                    let wanted = before.wanted_at(*by_leader, b);
                    &&& requests(before.fetches.sessions@, before.settings, b, wanted, out@[j].1)
                    &&& in_flight_at(self.fetches, replicas, b, wanted, out@[j].1)
                } by {
                    if j < out_had.len() {
                        assert(out@[j] == out_had[j]);
                        let b = out@[j].0;
                        assert(Seq::new(out_had.len(), |a: int| out_had[a].0)[j] == b);
                        assert(done.contains(b));
                        assert(in_flight_at(
                            middle.fetches,
                            replicas,
                            b,
                            before.wanted_at(*by_leader, b),
                            out@[j].1,
                        ));
                    }
                }
                assert forall|b: i32| !next.contains(b) implies {
                    &&& (#[trigger] self.fetches.in_flight@.contains_key(b))
                        == before.fetches.in_flight@.contains_key(b)
                    &&& self.fetches.sessions@.contains_key(b)
                        == before.fetches.sessions@.contains_key(b)
                    &&& self.fetches.in_flight@[b] == before.fetches.in_flight@[b]
                    &&& self.fetches.sessions@[b] == before.fetches.sessions@[b]
                } by {
                    assert(next[next.len() - 1] == leader);
                    assert(!done.contains(b));
                    assert(middle.fetches.in_flight@.contains_key(b)
                        == before.fetches.in_flight@.contains_key(b));
                }
            }
            i = i + 1;
        }
        assert(keys.take(n as int) =~= keys);
        out
    }
}

/// The ended fetches that results give, and the fetches that stay in flight: a
/// result ends the fetch of its broker, if there is one.
pub open spec fn ended(
    in_flight: Map<i32, InFlightFetch>,
    results: Seq<(i32, FetchResult)>,
) -> (Map<i32, InFlightFetch>, Seq<CompletedFetch>)
    decreases results.len(),
{
    if results.len() == 0 {
        (in_flight, seq![])
    } else {
        let (left, done) = ended(in_flight, results.drop_last());
        let (broker, result) = results.last();
        if left.contains_key(broker) {
            (
                left.remove(broker),
                done.push(
                    CompletedFetch {
                        leader: broker,
                        requested: left[broker].requested,
                        from_replica: left[broker].from_replica,
                        result,
                    },
                ),
            )
        } else {
            (left, done)
        }
    }
}

impl Consumer {
    /// Take the results of fetches. A fetch whose result is here is no longer
    /// in flight, and waits to be processed.
    pub fn collect_ready(&mut self, results: Vec<(i32, FetchResult)>)
        ensures
            ({
                let (left, done) = ended(old(self).fetches.in_flight@, results@);
                &&& final(self).fetches.in_flight@ == left
                &&& final(self).fetches.ready@ == old(self).fetches.ready@ + done
            }),
            *final(self) == (Consumer {
                fetches: Fetches {
                    in_flight: final(self).fetches.in_flight,
                    ready: final(self).fetches.ready,
                    ..old(self).fetches
                },
                ..*old(self)
            }),
    {
        let ghost all = results@;
        let ghost flying = self.fetches.in_flight@;
        let ghost ready = self.fetches.ready@;
        assert(ready + ended(flying, all.take(0)).1 =~= ready);
        for result in iter: results
            invariant
                iter.seq() == all,
                flying == old(self).fetches.in_flight@,
                ready == old(self).fetches.ready@,
                self.fetches.in_flight@ == ended(flying, all.take(iter.index() as int)).0,
                self.fetches.ready@ == ready + ended(flying, all.take(iter.index() as int)).1,
                *self == (Consumer {
                    fetches: Fetches {
                        in_flight: self.fetches.in_flight,
                        ready: self.fetches.ready,
                        ..old(self).fetches
                    },
                    ..*old(self)
                }),
        {
            let ghost i = iter.index() as int;
            let ghost had = self.fetches.ready@;
            proof {
                assert(all.take(i + 1).drop_last() =~= all.take(i));
                assert(all.take(i + 1).last() == result);
            }
            let (leader, outcome) = result;
            if let Some(fetch) = self.fetches.in_flight.remove(&leader) {
                self.fetches.ready.push(
                    CompletedFetch {
                        leader,
                        requested: fetch.requested,
                        from_replica: fetch.from_replica,
                        result: outcome,
                    },
                );
            } else {
                assert(self.fetches.in_flight@ =~= ended(flying, all.take(i)).0);
            }
            assert(self.fetches.ready@ =~= ready + ended(flying, all.take(i + 1)).1);
        }
        assert(all.take(all.len() as int) =~= all);
    }
}

/// The model of a fetch session.
pub struct SessionModel {
    pub next: FetchMetadata,
    pub partitions: Map<PartitionKey, SessionPartition>,
}

/// What to do with a connection after a transient error.
#[derive(Clone, Copy, Debug, PartialEq, Eq, Structural)]
pub enum ConnectionAction {
    /// Connect the bootstrap connection anew.
    ReconnectBootstrap,
    /// Drop the connection to a broker.
    EvictBroker(i32),
}

/// What to do with the connection that a request to `broker` failed on.
pub open spec fn connection_action(broker: i32) -> ConnectionAction {
    if broker == BOOTSTRAP_LEADER {
        ConnectionAction::ReconnectBootstrap
    } else {
        ConnectionAction::EvictBroker(broker)
    }
}

/// What to do with the connection that a request to `broker` failed on.
pub fn drop_connection(broker: i32) -> (r: ConnectionAction)
    ensures
        r == connection_action(broker),
{
    if should_use_bootstrap_leader(broker) {
        ConnectionAction::ReconnectBootstrap
    } else {
        ConnectionAction::EvictBroker(broker)
    }
}

/// A broker has at most one fetch in flight: a new one goes only to a broker
/// that had none, and is in flight after.
pub proof fn law_one_fetch_in_flight_per_broker(
    consumer: Consumer,
    by_leader: ByBroker<FetchSpec>,
    sent: Seq<(i32, FetchRequest)>,
    after: Consumer,
)
    requires
        consumer.fetches_sent(by_leader, sent, after),
    ensures
        forall|i: int|
            0 <= i < sent.len() ==> {
                &&& !consumer.fetches.in_flight@.contains_key((#[trigger] sent[i]).0)
                &&& after.fetches.in_flight@.contains_key(sent[i].0)
            },
        forall|b: i32| #[trigger]
            consumer.fetches.in_flight@.contains_key(b) ==> after.fetches.in_flight@.contains_key(b)
                && after.fetches.in_flight@[b] == consumer.fetches.in_flight@[b],
{
    let keys = by_leader.keys();
    let busy = consumer.fetches.in_flight@.dom();
    lemma_idle(keys, busy);
    let asked = idle(keys, busy);
    assert forall|i: int| 0 <= i < sent.len() implies {
        &&& !consumer.fetches.in_flight@.contains_key((#[trigger] sent[i]).0)
        &&& after.fetches.in_flight@.contains_key(sent[i].0)
    } by {
        assert(Seq::new(sent.len(), |i: int| sent[i].0)[i] == sent[i].0);
        assert(asked.contains(sent[i].0));
    }
    assert forall|b: i32| #[trigger]
        consumer.fetches.in_flight@.contains_key(b) implies after.fetches.in_flight@.contains_key(b)
        && after.fetches.in_flight@[b] == consumer.fetches.in_flight@[b] by {
        assert(!asked.contains(b));
    }
}

/// Whether a row says that a preferred replica does not hold the offset.
pub open spec fn replica_out_of_range(
    key: PartitionKey,
    part: PartitionData,
    from_replica: Set<PartitionKey>,
) -> bool {
    part.error_code == OFFSET_OUT_OF_RANGE && from_replica.contains(key)
}

/// Whether the data of a row can be used: the fetch asked for the partition at
/// the position that it still has, and the row is not the out-of-range error
/// of a preferred replica.
pub open spec fn row_usable(
    key: PartitionKey,
    part: PartitionData,
    requested: Map<PartitionKey, i64>,
    from_replica: Set<PartitionKey>,
    offsets: Map<PartitionKey, i64>,
) -> bool {
    !replica_out_of_range(key, part, from_replica) && requested.contains_key(key) && fetch_floor(
        offsets,
        key,
    ) == requested[key]
}

/// The usable rows of a topic, in order.
pub open spec fn usable_rows(
    parts: Seq<PartitionData>,
    name: Seq<char>,
    requested: Map<PartitionKey, i64>,
    from_replica: Set<PartitionKey>,
    offsets: Map<PartitionKey, i64>,
) -> Seq<PartitionData>
    decreases parts.len(),
{
    if parts.len() == 0 {
        seq![]
    } else {
        let before = usable_rows(parts.drop_last(), name, requested, from_replica, offsets);
        let part = parts.last();
        if row_usable((name, part.partition_index), part, requested, from_replica, offsets) {
            before.push(part)
        } else {
            before
        }
    }
}

/// Data that was fetched for a position that has moved since is not used: what
/// is left of an answer was asked for at the present position, and nothing else
/// of it is dropped but the out-of-range errors of preferred replicas.
pub proof fn law_moved_positions_give_no_data(
    parts: Seq<PartitionData>,
    name: Seq<char>,
    requested: Map<PartitionKey, i64>,
    from_replica: Set<PartitionKey>,
    offsets: Map<PartitionKey, i64>,
)
    ensures
        ({
            let rows = usable_rows(parts, name, requested, from_replica, offsets);
            &&& forall|i: int|
                0 <= i < rows.len() ==> {
                    let key = (name, (#[trigger] rows[i]).partition_index);
                    &&& parts.contains(rows[i])
                    &&& requested.contains_key(key)
                    &&& requested[key] == fetch_floor(offsets, key)
                }
            &&& forall|i: int|
                0 <= i < parts.len() && row_usable(
                    (name, (#[trigger] parts[i]).partition_index),
                    parts[i],
                    requested,
                    from_replica,
                    offsets,
                ) ==> rows.contains(parts[i])
        }),
    decreases parts.len(),
{
    if parts.len() > 0 {
        let front = parts.drop_last();
        law_moved_positions_give_no_data(front, name, requested, from_replica, offsets);
        let before = usable_rows(front, name, requested, from_replica, offsets);
        let rows = usable_rows(parts, name, requested, from_replica, offsets);
        assert forall|i: int| 0 <= i < rows.len() implies {
            let key = (name, (#[trigger] rows[i]).partition_index);
            &&& parts.contains(rows[i])
            &&& requested.contains_key(key)
            &&& requested[key] == fetch_floor(offsets, key)
        } by {
            if i < before.len() {
                assert(rows[i] == before[i]);
                assert(front.contains(before[i]));
                let j = choose|j: int| 0 <= j < front.len() && front[j] == before[i];
                assert(parts[j] == rows[i]);
            } else {
                assert(parts[parts.len() - 1] == rows[i]);
            }
        }
        assert forall|i: int|
            0 <= i < parts.len() && row_usable(
                (name, (#[trigger] parts[i]).partition_index),
                parts[i],
                requested,
                from_replica,
                offsets,
            ) implies rows.contains(parts[i]) by {
            if i < front.len() {
                assert(front[i] == parts[i]);
                assert(before.contains(front[i]));
                let j = choose|j: int| 0 <= j < before.len() && before[j] == front[i];
                assert(rows[j] == parts[i]);
            } else {
                assert(rows[rows.len() - 1] == parts[i]);
            }
        }
    }
}

/// The partitions of a topic that a preferred replica does not hold.
pub open spec fn lost_replicas(
    parts: Seq<PartitionData>,
    name: Seq<char>,
    from_replica: Set<PartitionKey>,
) -> Set<PartitionKey>
    decreases parts.len(),
{
    if parts.len() == 0 {
        Set::empty()
    } else {
        let before = lost_replicas(parts.drop_last(), name, from_replica);
        let key = (name, parts.last().partition_index);
        if replica_out_of_range(key, parts.last(), from_replica) {
            before.insert(key)
        } else {
            before
        }
    }
}

/// The model of a topic of an answer.
pub struct TopicAnswer {
    pub topic: Seq<char>,
    pub topic_id: Uuid,
    pub partitions: Seq<PartitionData>,
}

/// The models of the topics of an answer.
pub open spec fn topic_answers(topics: Seq<FetchableTopicResponse>) -> Seq<TopicAnswer> {
    Seq::new(
        topics.len(),
        |i: int|
            TopicAnswer {
                topic: topics[i].topic@,
                topic_id: topics[i].topic_id,
                partitions: topics[i].partitions@,
            },
    )
}

/// The model of an answer.
pub struct AnswerModel {
    pub throttle_time_ms: i32,
    pub error_code: i16,
    pub session_id: i32,
    pub topics: Seq<TopicAnswer>,
}

/// The model of an answer.
pub open spec fn answer_model(response: FetchResponse) -> AnswerModel {
    AnswerModel {
        throttle_time_ms: response.throttle_time_ms,
        error_code: response.error_code,
        session_id: response.session_id,
        topics: topic_answers(response.responses@),
    }
}

/// The models of answers.
pub open spec fn answer_models(responses: Seq<FetchResponse>) -> Seq<AnswerModel> {
    Seq::new(responses.len(), |i: int| answer_model(responses[i]))
}

/// The usable part of an answer.
pub open spec fn usable_answer(
    response: FetchResponse,
    names: Map<u128, String>,
    requested: Map<PartitionKey, i64>,
    from_replica: Set<PartitionKey>,
    offsets: Map<PartitionKey, i64>,
) -> AnswerModel {
    let topics = response.responses@;
    AnswerModel {
        topics: Seq::new(
            topics.len(),
            |i: int|
                TopicAnswer {
                    topic: topics[i].topic@,
                    topic_id: topics[i].topic_id,
                    partitions: usable_rows(
                        topics[i].partitions@,
                        resolved_name(topics[i], names),
                        requested,
                        from_replica,
                        offsets,
                    ),
                },
        ),
        ..answer_model(response)
    }
}

/// The partitions of an answer that a preferred replica does not hold.
pub open spec fn answer_lost_replicas(
    topics: Seq<FetchableTopicResponse>,
    names: Map<u128, String>,
    from_replica: Set<PartitionKey>,
) -> Set<PartitionKey>
    decreases topics.len(),
{
    if topics.len() == 0 {
        Set::empty()
    } else {
        answer_lost_replicas(topics.drop_last(), names, from_replica).union(
            lost_replicas(
                topics.last().partitions@,
                resolved_name(topics.last(), names),
                from_replica,
            ),
        )
    }
}

/// Keeps the usable rows of a topic, and takes the preferences of the others
/// that a replica does not hold away.
fn keep_usable_rows(
    topic: FetchableTopicResponse,
    names: &SortedMap<Uuid, String>,
    requested: &SortedMap<TopicPartition, i64>,
    from_replica: &SortedSet<TopicPartition>,
    offsets: &SortedMap<TopicPartition, i64>,
    replicas: &mut SortedMap<TopicPartition, (i32, Nanos)>,
) -> (r: FetchableTopicResponse)
    ensures
        r.topic@ == topic.topic@,
        r.topic_id == topic.topic_id,
        r.partitions@ == usable_rows(
            topic.partitions@,
            resolved_name(topic, names@),
            requested@,
            from_replica@,
            offsets@,
        ),
        final(replicas)@ == old(replicas)@.remove_keys(
            lost_replicas(topic.partitions@, resolved_name(topic, names@), from_replica@),
        ),
{
    let name = resolve_name(&topic, names);
    let ghost all = topic.partitions@;
    let ghost before = replicas@;
    let mut kept_rows: Vec<PartitionData> = Vec::new();
    assert(before.remove_keys(lost_replicas(all.take(0), name@, from_replica@)) =~= before);
    for part in iter: topic.partitions
        invariant
            iter.seq() == all,
            kept_rows@ == usable_rows(
                all.take(iter.index() as int),
                name@,
                requested@,
                from_replica@,
                offsets@,
            ),
            replicas@ == before.remove_keys(
                lost_replicas(all.take(iter.index() as int), name@, from_replica@),
            ),
    {
        let ghost i = iter.index() as int;
        proof {
            assert(all.take(i + 1).drop_last() =~= all.take(i));
            assert(all.take(i + 1).last() == part);
        }
        let key = (name.clone(), part.partition_index);
        assert(key@ == (name@, part.partition_index));
        let ghost lost = lost_replicas(all.take(i), name@, from_replica@);
        if part.error_code == OFFSET_OUT_OF_RANGE && from_replica.contains(&key) {
            replicas.remove(&key);
            assert(replicas@ =~= before.remove_keys(lost.insert(key@)));
        } else {
            let asked = match requested.get(&key) {
                Some(requested_offset) => {
                    let current: i64 = match offsets.get(&key) {
                        Some(offset) => *offset,
                        None => 0,
                    };
                    current == *requested_offset
                },
                None => false,
            };
            if asked {
                kept_rows.push(part);
            }
        }
    }
    assert(all.take(all.len() as int) =~= all);
    FetchableTopicResponse { topic: topic.topic, topic_id: topic.topic_id, partitions: kept_rows }
}

fn keep_usable_topics(
    response: FetchResponse,
    names: &SortedMap<Uuid, String>,
    requested: &SortedMap<TopicPartition, i64>,
    from_replica: &SortedSet<TopicPartition>,
    offsets: &SortedMap<TopicPartition, i64>,
    replicas: &mut SortedMap<TopicPartition, (i32, Nanos)>,
) -> (r: FetchResponse)
    ensures
        answer_model(r) == usable_answer(
            response,
            names@,
            requested@,
            from_replica@,
            offsets@,
        ),
        final(replicas)@ == old(replicas)@.remove_keys(
            answer_lost_replicas(response.responses@, names@, from_replica@),
        ),
{
    let ghost all = response.responses@;
    let ghost before = replicas@;
    let ghost goal = usable_answer(response, names@, requested@, from_replica@, offsets@).topics;
    let mut topics: Vec<FetchableTopicResponse> = Vec::new();
    assert(before.remove_keys(answer_lost_replicas(all.take(0), names@, from_replica@))
        =~= before);
    for topic in iter: response.responses
        invariant
            iter.seq() == all,
            goal == usable_answer(
                response,
                names@,
                requested@,
                from_replica@,
                offsets@,
            ).topics,
            all == response.responses@,
            topic_answers(topics@) =~= goal.take(iter.index() as int),
            replicas@ == before.remove_keys(
                answer_lost_replicas(all.take(iter.index() as int), names@, from_replica@),
            ),
    {
        let ghost i = iter.index() as int;
        let ghost lost = answer_lost_replicas(all.take(i), names@, from_replica@);
        let ghost had = topics@;
        proof {
            assert(all.take(i + 1).drop_last() =~= all.take(i));
            assert(all.take(i + 1).last() == topic);
        }
        let ghost more = lost_replicas(
            topic.partitions@,
            resolved_name(topic, names@),
            from_replica@,
        );
        let kept_topic = keep_usable_rows(
            topic,
            names,
            requested,
            from_replica,
            offsets,
            replicas,
        );
        topics.push(kept_topic);
        proof {
            assert(replicas@ =~= before.remove_keys(lost.union(more)));
            assert(topic_answers(topics@) =~= topic_answers(had).push(goal[i]));
        }
    }
    proof {
        assert(all.take(all.len() as int) =~= all);
        assert(goal.take(all.len() as int) =~= goal);
    }
    FetchResponse {
        throttle_time_ms: response.throttle_time_ms,
        error_code: response.error_code,
        session_id: response.session_id,
        responses: topics,
    }
}

/// Whether an answer has a partition row.
pub open spec fn has_rows(response: FetchResponse) -> bool {
    exists|i: int|
        0 <= i < response.responses@.len() && (#[trigger] response.responses@[i]).partitions@.len()
            > 0
}

/// The number of partition rows of an answer, as far as it fits.
fn count_rows(response: &FetchResponse) -> (r: usize)
    ensures
        r == 0 <==> !has_rows(*response),
{
    let mut total: usize = 0;
    let mut i: usize = 0;
    while i < response.responses.len()
        invariant
            i <= response.responses@.len(),
            total > 0 <==> exists|j: int|
                0 <= j < i && (#[trigger] response.responses@[j]).partitions@.len() > 0,
        decreases response.responses.len() - i,
    {
        let rows = response.responses[i].partitions.len();
        if total <= usize::MAX - rows {
            total = total + rows;
        }
        i = i + 1;
    }
    total
}

/// What taking ended fetches reads and changes.
pub struct TakeModel {
    pub sessions: Map<i32, SessionModel>,
    pub replicas: ReplicaMap,
    pub responses: Seq<AnswerModel>,
    pub actions: Seq<ConnectionAction>,
    /// The first error that is not transient.
    pub failure: Option<ClientError>,
}

/// The session of a broker, a fresh one where it has none.
pub open spec fn model_at(sessions: Map<i32, SessionModel>, broker: i32) -> SessionModel {
    if sessions.contains_key(broker) {
        sessions[broker]
    } else {
        SessionModel {
            next: FetchMetadata { session_id: INVALID_SESSION_ID, epoch: INITIAL_EPOCH },
            partitions: Map::empty(),
        }
    }
}

/// The sessions after the next request metadata of a broker changed.
pub open spec fn with_next(
    sessions: Map<i32, SessionModel>,
    broker: i32,
    next: FetchMetadata,
) -> Map<i32, SessionModel> {
    sessions.insert(broker, SessionModel { next, ..model_at(sessions, broker) })
}

/// The state after an ended fetch. An answer that the session refuses gives no
/// data, and so does an error, which also ends the preferences of the asked
/// partitions.
pub open spec fn after_fetch(
    m: TakeModel,
    fetch: CompletedFetch,
    names: Map<u128, String>,
    offsets: Map<PartitionKey, i64>,
) -> TakeModel {
    let had = model_at(m.sessions, fetch.leader).next;
    let closed = FetchMetadata { session_id: had.session_id, epoch: INITIAL_EPOCH };
    match fetch.result {
        Some(Ok(response)) => {
            let rows: usize = if has_rows(response) {
                1
            } else {
                0
            };
            let sessions = with_next(
                m.sessions,
                fetch.leader,
                had.metadata_after(
                    response.error_code,
                    response.session_id,
                    rows,
                    response.throttle_time_ms,
                ),
            );
            if had.usable(response.error_code, rows, response.throttle_time_ms) {
                TakeModel {
                    sessions,
                    replicas: m.replicas.remove_keys(
                        answer_lost_replicas(
                            response.responses@,
                            names,
                            fetch.from_replica@,
                        ),
                    ),
                    responses: m.responses.push(
                        usable_answer(
                            response,
                            names,
                            fetch.requested@,
                            fetch.from_replica@,
                            offsets,
                        ),
                    ),
                    ..m
                }
            } else {
                TakeModel { sessions, ..m }
            }
        },
        Some(Err(error)) => {
            let m = TakeModel {
                sessions: with_next(m.sessions, fetch.leader, closed),
                replicas: m.replicas.remove_keys(fetch.requested@.dom()),
                ..m
            };
            if transient_transport_error(error) {
                TakeModel { actions: m.actions.push(connection_action(fetch.leader)), ..m }
            } else if m.failure is None {
                TakeModel { failure: Some(error), ..m }
            } else {
                m
            }
        },
        None => TakeModel { sessions: with_next(m.sessions, fetch.leader, closed), ..m },
    }
}

/// The state after ended fetches, in order.
pub open spec fn after_fetches(
    m: TakeModel,
    fetches: Seq<CompletedFetch>,
    names: Map<u128, String>,
    offsets: Map<PartitionKey, i64>,
) -> TakeModel
    decreases fetches.len(),
{
    if fetches.len() == 0 {
        m
    } else {
        after_fetch(
            after_fetches(m, fetches.drop_last(), names, offsets),
            fetches.last(),
            names,
            offsets,
        )
    }
}

/// The models of sessions.
pub open spec fn session_models(sessions: Map<i32, FetchSession>) -> Map<i32, SessionModel> {
    sessions.map_values(
        |s: FetchSession| SessionModel { next: s.next, partitions: s.partitions@ },
    )
}

/// The responses and connection actions of ended fetches, and the first error
/// that is not transient.
pub struct TakenFetches {
    pub responses: Vec<FetchResponse>,
    pub actions: Vec<ConnectionAction>,
    pub failure: Option<ClientError>,
}

impl Consumer {
    /// The state that taking ended fetches reads and changes.
    pub open spec fn take_model(self, taken: TakenFetches) -> TakeModel {
        TakeModel {
            sessions: session_models(self.fetches.sessions@),
            replicas: self.fetches.preferred_read_replicas@,
            responses: answer_models(taken.responses@),
            actions: taken.actions@,
            failure: taken.failure,
        }
    }

    fn take_fetch(
        &mut self,
        fetch: CompletedFetch,
        names: &SortedMap<Uuid, String>,
        taken: &mut TakenFetches,
    )
        ensures
            final(self).take_model(*final(taken)) == after_fetch(
                old(self).take_model(*old(taken)),
                fetch,
                names@,
                old(self).next_offsets@,
            ),
            *final(self) == (Consumer {
                fetches: Fetches {
                    sessions: final(self).fetches.sessions,
                    preferred_read_replicas: final(self).fetches.preferred_read_replicas,
                    ..old(self).fetches
                },
                ..*old(self)
            }),
    {
        let leader = fetch.leader;
        let ghost m = self.take_model(*taken);
        let ghost sessions = self.fetches.sessions@;
        let mut session = match self.fetches.sessions.remove(&leader) {
            Some(session) => session,
            None => FetchSession::new(),
        };
        let ghost had = session;
        proof {
            assert(model_at(m.sessions, leader) == (SessionModel {
                next: had.next,
                partitions: had.partitions@,
            }));
        }
        match fetch.result {
            Some(Ok(response)) => {
                let rows = count_rows(&response);
                let usable = session.handle_response(
                    response.error_code,
                    response.session_id,
                    rows,
                    response.throttle_time_ms,
                );
                self.fetches.sessions.insert(leader, session);
                proof {
                    assert(session_models(self.fetches.sessions@) =~= with_next(
                        m.sessions,
                        leader,
                        session.next,
                    ));
                }
                if usable {
                    let response = keep_usable_topics(
                        response,
                        names,
                        &fetch.requested,
                        &fetch.from_replica,
                        &self.next_offsets,
                        &mut self.fetches.preferred_read_replicas,
                    );
                    let ghost had_responses = taken.responses@;
                    taken.responses.push(response);
                    assert(answer_models(taken.responses@) =~= answer_models(had_responses).push(
                        answer_model(response),
                    ));
                }
            },
            Some(Err(error)) => {
                session.handle_error();
                self.fetches.sessions.insert(leader, session);
                proof {
                    assert(session_models(self.fetches.sessions@) =~= with_next(
                        m.sessions,
                        leader,
                        session.next,
                    ));
                }
                forget_replicas(&mut self.fetches.preferred_read_replicas, &fetch.requested);
                if is_transient_transport_error(&error) {
                    taken.actions.push(drop_connection(leader));
                } else if taken.failure.is_none() {
                    taken.failure = Some(error);
                }
            },
            None => {
                session.handle_error();
                self.fetches.sessions.insert(leader, session);
                proof {
                    assert(session_models(self.fetches.sessions@) =~= with_next(
                        m.sessions,
                        leader,
                        session.next,
                    ));
                }
            },
        }
    }

    /// Take the answers of the ended fetches, and update the fetch session of
    /// each broker.
    ///
    /// The data of a partition whose fetch position changed after the request
    /// is dropped. An answer that the fetch session refuses gives no data. The
    /// caller performs the connection actions. An error that is not transient
    /// fails the call.
    pub fn take_completed_fetches(&mut self, names: &SortedMap<Uuid, String>) -> (r: (
        Vec<ConnectionAction>,
        Result<Vec<FetchResponse>, ConsumerError>,
    ))
        ensures
            ({
                let start = TakeModel {
                    sessions: session_models(old(self).fetches.sessions@),
                    replicas: old(self).fetches.preferred_read_replicas@,
                    responses: seq![],
                    actions: seq![],
                    failure: None,
                };
                let end = after_fetches(
                    start,
                    old(self).fetches.ready@,
                    names@,
                    old(self).next_offsets@,
                );
                &&& session_models(final(self).fetches.sessions@) == end.sessions
                &&& final(self).fetches.preferred_read_replicas@ == end.replicas
                &&& r.0@ == end.actions
                &&& match end.failure {
                    Some(error) => r.1 == Err::<Vec<FetchResponse>, ConsumerError>(
                        ConsumerError::Client(error),
                    ),
                    None => r.1 is Ok && answer_models(r.1->Ok_0@) == end.responses,
                }
            }),
            final(self).fetches.ready@.len() == 0,
            *final(self) == (Consumer {
                fetches: Fetches {
                    sessions: final(self).fetches.sessions,
                    preferred_read_replicas: final(self).fetches.preferred_read_replicas,
                    ready: final(self).fetches.ready,
                    ..old(self).fetches
                },
                ..*old(self)
            }),
    {
        let mut taken = TakenFetches {
            responses: Vec::new(),
            actions: Vec::new(),
            failure: None,
        };
        let mut ready: Vec<CompletedFetch> = Vec::new();
        std::mem::swap(&mut ready, &mut self.fetches.ready);
        let ghost all = ready@;
        let ghost start = self.take_model(taken);
        let ghost empty = self.fetches.ready;
        assert(answer_models(taken.responses@) =~= seq![]);
        for fetch in iter: ready
            invariant
                iter.seq() == all,
                self.take_model(taken) == after_fetches(
                    start,
                    all.take(iter.index() as int),
                    names@,
                    old(self).next_offsets@,
                ),
                *self == (Consumer {
                    fetches: Fetches {
                        sessions: self.fetches.sessions,
                        preferred_read_replicas: self.fetches.preferred_read_replicas,
                        ready: empty,
                        ..old(self).fetches
                    },
                    ..*old(self)
                }),
        {
            let ghost i = iter.index() as int;
            proof {
                assert(all.take(i + 1).drop_last() =~= all.take(i));
                assert(all.take(i + 1).last() == fetch);
            }
            self.take_fetch(fetch, names, &mut taken);
        }
        assert(all.take(all.len() as int) =~= all);
        match taken.failure {
            Some(error) => (taken.actions, Err(ConsumerError::Client(error))),
            None => (taken.actions, Ok(taken.responses)),
        }
    }
}

/// Ends the preferences of the partitions that a fetch asked for.
fn forget_replicas(
    replicas: &mut SortedMap<TopicPartition, (i32, Nanos)>,
    requested: &SortedMap<TopicPartition, i64>,
)
    ensures
        final(replicas)@ == old(replicas)@.remove_keys(requested@.dom()),
{
    let ghost before = replicas@;
    let ghost keys = requested.keys();
    let n = requested.len();
    let mut i: usize = 0;
    assert(before.remove_keys(keys.take(0).to_set()) =~= before);
    while i < n
        invariant
            n == keys.len(),
            keys == requested.keys(),
            requested.keys_listed(),
            i <= n,
            replicas@ == before.remove_keys(keys.take(i as int).to_set()),
        decreases n - i,
    {
        proof {
            lemma_take_next(keys, i as int);
        }
        replicas.remove(requested.key_at(i));
        assert(replicas@ =~= before.remove_keys(keys.take(i + 1).to_set())) by {
            assert forall|k: PartitionKey| keys.take(i + 1).to_set().contains(k) <==> #[trigger]
                keys.take(i as int).to_set().contains(k) || k == keys[i as int] by {
                assert(keys.take(i + 1).contains(k) <==> keys.take(i as int).contains(k) || k
                    == keys[i as int]);
            }
        }
        i = i + 1;
    }
    proof {
        assert(keys.take(n as int) =~= keys);
        assert(keys.to_set() =~= requested@.dom());
    }
}

} // verus!
