//! Which partitions are fetched from which broker, and what is taken from the
//! answers, stated over the fields of the state and of the answers.
use vstd::prelude::*;

use crate::collections::lemma_pushed;
use crate::consumer::{CompletedFetch, Consumer, FetchResult, InFlightFetch, Nanos};
use crate::error::ClientError;
use crate::fetch::{
    answer_rows, answer_topics_rows, resolved_name, FetchRequest, FetchResponse, FetchSpec,
    FetchableTopicResponse, PartitionData, PartitionRow,
};
use crate::fetch_buffer::{buffered_keys, of_topics, BufferedModel};
use crate::fetch_flow::{
    after_fetch, after_fetches, answer_lost_replicas, connection_action, ended, has_rows, idle,
    last_spec, lost_replicas, replica_unknown, requested_of, usable_answer, usable_rows, wanted_of,
    ConnectionAction, ReplicaMap, SessionModel, TakeModel,
};
use crate::fetch_session::{FetchSession, SessionPartition};
use crate::grouping::{listed_for, ByBroker};
use crate::poll_answers::{after_replica_updates, open_sessions, with_positions};
use crate::subscription::text_set;
use crate::text::views;
use crate::wire::{LeaderEpoch, PartitionKey, Uuid};

verus! {

/// Whether a partition may be fetched now: its callback ran, its topic is still
/// wanted, its position is valid, it is not paused since it was assigned, and
/// nothing of it is buffered.
pub open spec fn may_fetch(consumer: Consumer, key: PartitionKey) -> bool {
    let subscription = consumer.subscription;
    let offsets = consumer.next_offsets@;
    let positions = consumer.positions@;
    let paused = consumer.paused_partitions@;
    let ids = consumer.ownership_ids@;
    &&& !consumer.assigned_callback_pending@.contains(key)
    &&& subscription.manual_assignment || subscription.pattern is Some || exists|i: int|
        0 <= i < subscription.topics@.len() && (#[trigger] subscription.topics@[i])@ == key.0
    &&& positions.contains_key(key) ==> !positions[key].awaiting_validation
    &&& offsets.contains_key(key) ==> offsets[key] < 9223372036854775804i64
    &&& !(paused.contains_key(key) && ids.contains_key(key) && ids[key] == paused[key])
    &&& forall|i: int|
        0 <= i < consumer.fetch_buffer@.len() ==> (#[trigger] consumer.fetch_buffer@[i]).key != key
}

/// The broker that a partition is read from: the replica that the leader named,
/// while that holds and the broker is known; else the leader; else the bootstrap
/// connection, -1.
pub open spec fn broker_of(consumer: Consumer, key: PartitionKey, now: Nanos) -> int {
    let replicas = consumer.fetches.preferred_read_replicas@;
    let known = consumer.known_brokers@;
    let positions = consumer.positions@;
    if replicas.contains_key(key) && now <= replicas[key].1 && known.contains(replicas[key].0) {
        replicas[key].0 as int
    } else if positions.contains_key(key) && positions[key].leader_id >= 0 && known.contains(
        positions[key].leader_id,
    ) {
        positions[key].leader_id as int
    } else {
        -1
    }
}

proof fn lemma_may_fetch(consumer: Consumer, key: PartitionKey, now: Nanos)
    ensures
        consumer.fetchable(key) <==> may_fetch(consumer, key),
        consumer.read_from(key, now) == broker_of(consumer, key, now),
{
    let topics = consumer.subscription.topics@;
    let parts = consumer.fetch_buffer@;
    if text_set(topics).contains(key.0) {
        let i = choose|i: int| 0 <= i < views(topics).len() && views(topics)[i] == key.0;
        assert(topics[i]@ == key.0);
    }
    if exists|i: int| 0 <= i < topics.len() && (#[trigger] topics[i])@ == key.0 {
        let i = choose|i: int| 0 <= i < topics.len() && (#[trigger] topics[i])@ == key.0;
        assert(views(topics)[i] == key.0);
        assert(text_set(topics).contains(key.0));
    }
    if buffered_keys(parts).contains(key) {
        let i = choose|i: int| 0 <= i < parts.len() && (#[trigger] parts[i]).key == key;
        assert(parts[i].key == key);
    }
    assert(consumer.fetchable(key) ==> may_fetch(consumer, key));
    assert(may_fetch(consumer, key) ==> !buffered_keys(parts).contains(key));
}

/// A partition is fetched from a broker exactly where it may be fetched, is read
/// from that broker, and the broker has no fetch under way: from its position, with
/// the epoch of its leader and the epoch of the last record.
pub proof fn law_fetches_ask_the_right_broker(
    a: Seq<PartitionKey>,
    b: Seq<PartitionKey>,
    x: PartitionKey,
    consumer: Consumer,
    now: Nanos,
    broker: i32,
    topic: Seq<char>,
)
    ensures
        consumer.fetch_specs(a + b, now, broker, topic)
            == consumer.fetch_specs(a, now, broker, topic)
            + consumer.fetch_specs(b, now, broker, topic),
        consumer.fetch_specs(seq![x], now, broker, topic) == {
            let offsets = consumer.next_offsets@;
            let positions = consumer.positions@;
            if x.0 == topic && may_fetch(consumer, x) && broker_of(consumer, x, now) == broker
                && !consumer.fetches.in_flight@.contains_key(broker) {
                seq![
                    (
                        x.1,
                        if offsets.contains_key(x) {
                            offsets[x]
                        } else {
                            0
                        },
                        if positions.contains_key(x) {
                            positions[x].leader_epoch
                        } else {
                            LeaderEpoch(-1i32)
                        },
                        if positions.contains_key(x) {
                            positions[x].offset_epoch
                        } else {
                            LeaderEpoch(-1i32)
                        },
                    ),
                ]
            } else {
                seq![]
            }
        },
    decreases b.len(),
{
    lemma_may_fetch(consumer, x, now);
    let none = Seq::<PartitionKey>::empty();
    assert(seq![x].drop_last() =~= none);
    assert(seq![x].last() == x);
    assert(consumer.fetch_specs(none, now, broker, topic) =~= Seq::<FetchSpec>::empty());
    assert(consumer.fetch_specs(seq![x], now, broker, topic) =~= {
        let offsets = consumer.next_offsets@;
        let positions = consumer.positions@;
        if x.0 == topic && may_fetch(consumer, x) && broker_of(consumer, x, now) == broker
            && !consumer.fetches.in_flight@.contains_key(broker) {
            seq![
                (
                    x.1,
                    if offsets.contains_key(x) {
                        offsets[x]
                    } else {
                        0
                    },
                    if positions.contains_key(x) {
                        positions[x].leader_epoch
                    } else {
                        LeaderEpoch(-1i32)
                    },
                    if positions.contains_key(x) {
                        positions[x].offset_epoch
                    } else {
                        LeaderEpoch(-1i32)
                    },
                ),
            ]
        } else {
            seq![]
        }
    });
    if b.len() == 0 {
        assert(a + b =~= a);
        assert(b =~= none);
        assert(consumer.fetch_specs(a, now, broker, topic)
            + consumer.fetch_specs(b, now, broker, topic)
            =~= consumer.fetch_specs(a, now, broker, topic));
    } else {
        law_fetches_ask_the_right_broker(a, b.drop_last(), x, consumer, now, broker, topic);
        assert((a + b).drop_last() =~= a + b.drop_last());
        assert((a + b).last() == b.last());
        assert(consumer.fetch_specs(a + b, now, broker, topic)
            =~= consumer.fetch_specs(a, now, broker, topic)
            + consumer.fetch_specs(b, now, broker, topic));
    }
}

proof fn lemma_last_spec(specs: Seq<FetchSpec>, partition: i32, i: int)
    requires
        0 <= i < specs.len(),
        specs[i].0 == partition,
        forall|j: int| i < j < specs.len() ==> (#[trigger] specs[j]).0 != partition,
    ensures
        last_spec(specs, partition) == Some(specs[i]),
    decreases specs.len(),
{
    let front = specs.drop_last();
    if i < specs.len() - 1 {
        assert(specs[specs.len() - 1] == specs.last());
        assert forall|j: int| i < j < front.len() implies (#[trigger] front[j]).0 != partition by {
            assert(specs[j] == front[j]);
        }
        lemma_last_spec(front, partition, i);
    }
}

proof fn lemma_no_spec(specs: Seq<FetchSpec>, partition: i32)
    ensures
        last_spec(specs, partition) is Some ==> exists|i: int|
            0 <= i < specs.len() && (#[trigger] specs[i]).0 == partition,
    decreases specs.len(),
{
    if specs.len() > 0 {
        lemma_no_spec(specs.drop_last(), partition);
        assert(specs[specs.len() - 1] == specs.last());
        if last_spec(specs, partition) is Some && specs.last().0 != partition {
            let i = choose|i: int|
                0 <= i < specs.drop_last().len() && (#[trigger] specs.drop_last()[i]).0
                    == partition;
            assert(specs[i].0 == partition);
        }
    }
}

/// A session wants the partitions that were listed for its broker and no others:
/// each from its offset, with its epochs, the id of its topic, zero where that is
/// not known, and the configured size. The answer is later compared with that
/// offset.
pub proof fn law_sessions_want_the_listed_partitions(
    by_topic: Map<Seq<char>, Vec<FetchSpec>>,
    ids: Map<Seq<char>, Uuid>,
    partition_max: i32,
    key: PartitionKey,
    i: int,
)
    ensures
        ({
            let wanted = wanted_of(by_topic, ids, partition_max);
            &&& wanted.contains_key(key) ==> by_topic.contains_key(key.0) && exists|j: int|
                0 <= j < by_topic[key.0]@.len() && (#[trigger] by_topic[key.0]@[j]).0 == key.1
            &&& by_topic.contains_key(key.0) && 0 <= i < by_topic[key.0]@.len()
                && by_topic[key.0]@[i].0 == key.1 && (forall|j: int|
                i < j < by_topic[key.0]@.len() ==> (#[trigger] by_topic[key.0]@[j]).0 != key.1)
                ==> {
                let spec = by_topic[key.0]@[i];
                &&& wanted.contains_key(key)
                &&& wanted[key].fetch_offset == spec.1
                &&& wanted[key].current_leader_epoch == spec.2.0
                &&& wanted[key].last_fetched_epoch == spec.3.0
                &&& wanted[key].partition_max_bytes == partition_max
                &&& wanted[key].topic_id.0 == if ids.contains_key(key.0) {
                    ids[key.0].0
                } else {
                    0
                }
                &&& requested_of(wanted).contains_key(key)
                &&& requested_of(wanted)[key] == spec.1
            }
        }),
{
    let specs = by_topic[key.0]@;
    lemma_no_spec(specs, key.1);
    if 0 <= i < specs.len() && specs[i].0 == key.1 && (forall|j: int|
        i < j < specs.len() ==> (#[trigger] specs[j]).0 != key.1) {
        lemma_last_spec(specs, key.1, i);
    }
}

/// The brokers that are asked are those without a fetch under way.
pub proof fn law_busy_brokers_are_not_asked(a: Seq<i32>, b: Seq<i32>, x: i32, busy: Set<i32>)
    ensures
        idle(a + b, busy) == idle(a, busy) + idle(b, busy),
        idle(seq![x], busy) == {
            if busy.contains(x) {
                seq![]
            } else {
                seq![x]
            }
        },
    decreases b.len(),
{
    let none = Seq::<i32>::empty();
    assert(seq![x].drop_last() =~= none);
    assert(seq![x].last() == x);
    assert(idle(none, busy) =~= Seq::<i32>::empty());
    assert(idle(seq![x], busy) =~= {
        if busy.contains(x) {
            seq![]
        } else {
            seq![x]
        }
    });
    if b.len() == 0 {
        assert(a + b =~= a);
        assert(b =~= none);
        assert(idle(a, busy) + idle(b, busy) =~= idle(a, busy));
    } else {
        law_busy_brokers_are_not_asked(a, b.drop_last(), x, busy);
        assert((a + b).drop_last() =~= a + b.drop_last());
        assert((a + b).last() == b.last());
        assert(idle(a + b, busy) =~= idle(a, busy) + idle(b, busy));
    }
}

/// The sessions to close are those with an id.
pub proof fn law_open_sessions_are_closed(
    a: Seq<i32>,
    b: Seq<i32>,
    x: i32,
    sessions: Map<i32, FetchSession>,
)
    ensures
        open_sessions(a + b, sessions) == open_sessions(a, sessions) + open_sessions(b, sessions),
        open_sessions(seq![x], sessions) == {
            if sessions[x].next.session_id != 0 {
                seq![x]
            } else {
                seq![]
            }
        },
    decreases b.len(),
{
    let none = Seq::<i32>::empty();
    assert(seq![x].drop_last() =~= none);
    assert(seq![x].last() == x);
    assert(open_sessions(none, sessions) =~= Seq::<i32>::empty());
    assert(open_sessions(seq![x], sessions) =~= {
        if sessions[x].next.session_id != 0 {
            seq![x]
        } else {
            seq![]
        }
    });
    if b.len() == 0 {
        assert(a + b =~= a);
        assert(b =~= none);
        assert(open_sessions(a, sessions) + open_sessions(b, sessions)
            =~= open_sessions(a, sessions));
    } else {
        law_open_sessions_are_closed(a, b.drop_last(), x, sessions);
        assert((a + b).drop_last() =~= a + b.drop_last());
        assert((a + b).last() == b.last());
        assert(open_sessions(a + b, sessions)
            =~= open_sessions(a, sessions) + open_sessions(b, sessions));
    }
}

/// The buffer keeps the data of the given topics, in its order.
pub proof fn law_buffer_keeps_topics(
    a: Seq<BufferedModel>,
    b: Seq<BufferedModel>,
    x: BufferedModel,
    topics: Set<Seq<char>>,
)
    ensures
        of_topics(a + b, topics) == of_topics(a, topics) + of_topics(b, topics),
        of_topics(seq![x], topics) == {
            if topics.contains(x.key.0) {
                seq![x]
            } else {
                seq![]
            }
        },
    decreases b.len(),
{
    let none = Seq::<BufferedModel>::empty();
    assert(seq![x].drop_last() =~= none);
    assert(seq![x].last() == x);
    assert(of_topics(none, topics) =~= Seq::<BufferedModel>::empty());
    assert(of_topics(seq![x], topics) =~= {
        if topics.contains(x.key.0) {
            seq![x]
        } else {
            seq![]
        }
    });
    if b.len() == 0 {
        assert(a + b =~= a);
        assert(b =~= none);
        assert(of_topics(a, topics) + of_topics(b, topics) =~= of_topics(a, topics));
    } else {
        law_buffer_keeps_topics(a, b.drop_last(), x, topics);
        assert((a + b).drop_last() =~= a + b.drop_last());
        assert((a + b).last() == b.last());
        assert(of_topics(a + b, topics) =~= of_topics(a, topics) + of_topics(b, topics));
    }
}

/// A row counts exactly where the fetch asked for its partition and the position is
/// still the one that it asked from, unless a replica says that the position is out
/// of its range.
pub proof fn law_usable_rows_are_those_asked_for(
    a: Seq<PartitionData>,
    b: Seq<PartitionData>,
    x: PartitionData,
    name: Seq<char>,
    requested: Map<PartitionKey, i64>,
    from_replica: Set<PartitionKey>,
    offsets: Map<PartitionKey, i64>,
)
    ensures
        usable_rows(a + b, name, requested, from_replica, offsets)
            == usable_rows(a, name, requested, from_replica, offsets)
            + usable_rows(b, name, requested, from_replica, offsets),
        usable_rows(seq![x], name, requested, from_replica, offsets) == {
            let key = (name, x.partition_index);
            let at = if offsets.contains_key(key) {
                offsets[key]
            } else {
                0
            };
            if requested.contains_key(key) && requested[key] == at && !(x.error_code == 1
                && from_replica.contains(key)) {
                seq![x]
            } else {
                seq![]
            }
        },
    decreases b.len(),
{
    let none = Seq::<PartitionData>::empty();
    assert(seq![x].drop_last() =~= none);
    assert(seq![x].last() == x);
    assert(usable_rows(none, name, requested, from_replica, offsets)
        =~= Seq::<PartitionData>::empty());
    assert(usable_rows(seq![x], name, requested, from_replica, offsets) =~= {
        let key = (name, x.partition_index);
        let at = if offsets.contains_key(key) {
            offsets[key]
        } else {
            0
        };
        if requested.contains_key(key) && requested[key] == at && !(x.error_code == 1
            && from_replica.contains(key)) {
            seq![x]
        } else {
            seq![]
        }
    });
    if b.len() == 0 {
        assert(a + b =~= a);
        assert(b =~= none);
        assert(usable_rows(a, name, requested, from_replica, offsets)
            + usable_rows(b, name, requested, from_replica, offsets)
            =~= usable_rows(a, name, requested, from_replica, offsets));
    } else {
        law_usable_rows_are_those_asked_for(
            a,
            b.drop_last(),
            x,
            name,
            requested,
            from_replica,
            offsets,
        );
        assert((a + b).drop_last() =~= a + b.drop_last());
        assert((a + b).last() == b.last());
        assert(usable_rows(a + b, name, requested, from_replica, offsets)
            =~= usable_rows(a, name, requested, from_replica, offsets)
            + usable_rows(b, name, requested, from_replica, offsets));
    }
}

/// A replica is given up for a partition exactly where it answers that the position
/// is out of its range.
pub proof fn law_replicas_out_of_range_are_given_up(
    a: Seq<PartitionData>,
    b: Seq<PartitionData>,
    x: PartitionData,
    name: Seq<char>,
    from_replica: Set<PartitionKey>,
)
    ensures
        lost_replicas(a + b, name, from_replica)
            == lost_replicas(a, name, from_replica).union(lost_replicas(b, name, from_replica)),
        lost_replicas(seq![x], name, from_replica) == {
            let key = (name, x.partition_index);
            if x.error_code == 1 && from_replica.contains(key) {
                Set::<PartitionKey>::empty().insert(key)
            } else {
                Set::empty()
            }
        },
    decreases b.len(),
{
    let none = Seq::<PartitionData>::empty();
    assert(seq![x].drop_last() =~= none);
    assert(seq![x].last() == x);
    assert(lost_replicas(none, name, from_replica) =~= Set::<PartitionKey>::empty());
    assert(lost_replicas(seq![x], name, from_replica) =~= {
        let key = (name, x.partition_index);
        if x.error_code == 1 && from_replica.contains(key) {
            Set::<PartitionKey>::empty().insert(key)
        } else {
            Set::empty()
        }
    });
    if b.len() == 0 {
        assert(a + b =~= a);
        assert(b =~= none);
        assert(lost_replicas(a, name, from_replica).union(lost_replicas(b, name, from_replica))
            =~= lost_replicas(a, name, from_replica));
    } else {
        law_replicas_out_of_range_are_given_up(a, b.drop_last(), x, name, from_replica);
        assert((a + b).drop_last() =~= a + b.drop_last());
        assert((a + b).last() == b.last());
        assert(lost_replicas(a + b, name, from_replica)
            =~= lost_replicas(a, name, from_replica).union(lost_replicas(b, name, from_replica)));
    }
}

/// The same for all topics of an answer.
pub proof fn law_replicas_of_an_answer_are_given_up(
    a: Seq<FetchableTopicResponse>,
    b: Seq<FetchableTopicResponse>,
    x: FetchableTopicResponse,
    names: Map<u128, String>,
    from_replica: Set<PartitionKey>,
)
    ensures
        answer_lost_replicas(a + b, names, from_replica)
            == answer_lost_replicas(a, names, from_replica).union(
                answer_lost_replicas(b, names, from_replica),
            ),
        answer_lost_replicas(seq![x], names, from_replica)
            == lost_replicas(x.partitions@, resolved_name(x, names), from_replica),
    decreases b.len(),
{
    let none = Seq::<FetchableTopicResponse>::empty();
    assert(seq![x].drop_last() =~= none);
    assert(seq![x].last() == x);
    assert(answer_lost_replicas(none, names, from_replica) =~= Set::<PartitionKey>::empty());
    assert(answer_lost_replicas(seq![x], names, from_replica)
        =~= lost_replicas(x.partitions@, resolved_name(x, names), from_replica));
    if b.len() == 0 {
        assert(a + b =~= a);
        assert(b =~= none);
        assert(answer_lost_replicas(a, names, from_replica).union(
            answer_lost_replicas(b, names, from_replica),
        ) =~= answer_lost_replicas(a, names, from_replica));
    } else {
        law_replicas_of_an_answer_are_given_up(a, b.drop_last(), x, names, from_replica);
        assert((a + b).drop_last() =~= a + b.drop_last());
        assert((a + b).last() == b.last());
        assert(answer_lost_replicas(a + b, names, from_replica)
            =~= answer_lost_replicas(a, names, from_replica).union(
            answer_lost_replicas(b, names, from_replica),
        ));
    }
}

/// The name of a topic in an answer is its own, or that of its id where it has
/// none.
pub proof fn law_name_of_an_answered_topic(
    topic: FetchableTopicResponse,
    names: Map<u128, String>,
)
    ensures
        topic.topic@.len() > 0 ==> resolved_name(topic, names) == topic.topic@,
        topic.topic@.len() == 0 && names.contains_key(topic.topic_id.0) ==> resolved_name(
            topic,
            names,
        ) == names[topic.topic_id.0]@,
        topic.topic@.len() == 0 && !names.contains_key(topic.topic_id.0) ==> resolved_name(
            topic,
            names,
        ).len() == 0,
{
}

/// The rows of a topic, in their order, are of its name and their own index, and
/// those of its topics follow each other.
pub proof fn law_rows_of_answered_topics(
    a: Seq<FetchableTopicResponse>,
    b: Seq<FetchableTopicResponse>,
    x: FetchableTopicResponse,
    names: Map<u128, String>,
)
    ensures
        answer_topics_rows(a + b, names)
            == answer_topics_rows(a, names) + answer_topics_rows(b, names),
        answer_topics_rows(seq![x], names) == Seq::new(
            x.partitions@.len(),
            |i: int|
                (
                    (resolved_name(x, names), x.partitions@[i].partition_index),
                    x.partitions@[i],
                ),
        ),
    decreases b.len(),
{
    let none = Seq::<FetchableTopicResponse>::empty();
    assert(seq![x].drop_last() =~= none);
    assert(seq![x].last() == x);
    assert(answer_topics_rows(none, names) =~= Seq::<PartitionRow>::empty());
    assert(answer_topics_rows(seq![x], names) =~= Seq::new(
        x.partitions@.len(),
        |i: int|
            ((resolved_name(x, names), x.partitions@[i].partition_index), x.partitions@[i]),
    ));
    if b.len() == 0 {
        assert(a + b =~= a);
        assert(b =~= none);
        assert(answer_topics_rows(a, names) + answer_topics_rows(b, names)
            =~= answer_topics_rows(a, names));
    } else {
        law_rows_of_answered_topics(a, b.drop_last(), x, names);
        assert((a + b).drop_last() =~= a + b.drop_last());
        assert((a + b).last() == b.last());
        assert(answer_topics_rows(a + b, names)
            =~= answer_topics_rows(a, names) + answer_topics_rows(b, names));
    }
}

/// The rows of answers follow each other.
pub proof fn law_rows_of_answers(
    a: Seq<FetchResponse>,
    b: Seq<FetchResponse>,
    x: FetchResponse,
    names: Map<u128, String>,
)
    ensures
        answer_rows(a + b, names) == answer_rows(a, names) + answer_rows(b, names),
        answer_rows(seq![x], names) == answer_topics_rows(x.responses@, names),
    decreases b.len(),
{
    let none = Seq::<FetchResponse>::empty();
    assert(seq![x].drop_last() =~= none);
    assert(seq![x].last() == x);
    assert(answer_rows(none, names) =~= Seq::<PartitionRow>::empty());
    assert(answer_rows(seq![x], names) =~= answer_topics_rows(x.responses@, names));
    if b.len() == 0 {
        assert(a + b =~= a);
        assert(b =~= none);
        assert(answer_rows(a, names) + answer_rows(b, names) =~= answer_rows(a, names));
    } else {
        law_rows_of_answers(a, b.drop_last(), x, names);
        assert((a + b).drop_last() =~= a + b.drop_last());
        assert((a + b).last() == b.last());
        assert(answer_rows(a + b, names) =~= answer_rows(a, names) + answer_rows(b, names));
    }
}

/// Each update of a preferred replica sets it for its partition, until the given
/// time, or takes it away. One that names the same replica again leaves the time
/// as it is. Updates take effect in their order.
pub proof fn law_replica_updates(
    replicas: ReplicaMap,
    a: Seq<(PartitionKey, Option<i32>)>,
    b: Seq<(PartitionKey, Option<i32>)>,
    x: (PartitionKey, Option<i32>),
    expires: Nanos,
)
    ensures
        after_replica_updates(replicas, a + b, expires) == after_replica_updates(
            after_replica_updates(replicas, a, expires),
            b,
            expires,
        ),
        x.1 is None ==> after_replica_updates(replicas, seq![x], expires) == replicas.remove(x.0),
        x.1 is Some && replicas.contains_key(x.0) && replicas[x.0].0 == x.1->Some_0
            ==> after_replica_updates(replicas, seq![x], expires) == replicas,
        x.1 is Some && !(replicas.contains_key(x.0) && replicas[x.0].0 == x.1->Some_0)
            ==> after_replica_updates(replicas, seq![x], expires) == replicas.insert(
            x.0,
            (x.1->Some_0, expires),
        ),
    decreases b.len(),
{
    let none = Seq::<(PartitionKey, Option<i32>)>::empty();
    assert(seq![x].drop_last() =~= none);
    assert(seq![x].last() == x);
    assert(after_replica_updates(replicas, none, expires) == replicas);
    if b.len() == 0 {
        assert(a + b =~= a);
    } else {
        law_replica_updates(replicas, a, b.drop_last(), x, expires);
        assert((a + b).drop_last() =~= a + b.drop_last());
        assert((a + b).last() == b.last());
    }
}

/// A list of positions sets each of them, a later one over an earlier one.
pub proof fn law_positions_are_set(
    offsets: Map<PartitionKey, i64>,
    list: Seq<(PartitionKey, i64)>,
    key: PartitionKey,
    i: int,
)
    ensures
        0 <= i < list.len() && list[i].0 == key && (forall|j: int|
            i < j < list.len() ==> (#[trigger] list[j]).0 != key) ==> with_positions(
            offsets,
            list,
        ).contains_key(key) && with_positions(offsets, list)[key] == list[i].1,
        (forall|j: int| 0 <= j < list.len() ==> (#[trigger] list[j]).0 != key) ==> with_positions(
            offsets,
            list,
        ).contains_key(key) == offsets.contains_key(key) && with_positions(offsets, list)[key]
            == offsets[key],
    decreases list.len(),
{
    if list.len() > 0 {
        let front = list.drop_last();
        law_positions_are_set(offsets, front, key, i);
        assert(list[list.len() - 1] == list.last());
        assert forall|j: int| 0 <= j < front.len() implies (#[trigger] front[j]) == list[j] by {}
    }
}

/// A failed request gives up the connection that it went over.
pub proof fn law_connection_actions(broker: i32)
    ensures
        broker == -1 ==> connection_action(broker) == ConnectionAction::ReconnectBootstrap,
        broker != -1 ==> connection_action(broker) == ConnectionAction::EvictBroker(broker),
{
}

/// A result ends the fetch that its broker has under way, and hands on what that
/// fetch asked for. A result of a broker without one is dropped. Results are
/// taken in their order.
pub proof fn law_results_end_their_fetch(
    in_flight: Map<i32, InFlightFetch>,
    a: Seq<(i32, FetchResult)>,
    b: Seq<(i32, FetchResult)>,
    x: (i32, FetchResult),
)
    ensures
        ended(in_flight, a + b).0 == ended(ended(in_flight, a).0, b).0,
        ended(in_flight, a + b).1 == ended(in_flight, a).1 + ended(ended(in_flight, a).0, b).1,
        !in_flight.contains_key(x.0) ==> ended(in_flight, seq![x]).0 == in_flight && ended(
            in_flight,
            seq![x],
        ).1.len() == 0,
        in_flight.contains_key(x.0) ==> {
            let done = ended(in_flight, seq![x]).1;
            &&& ended(in_flight, seq![x]).0 == in_flight.remove(x.0)
            &&& done.len() == 1
            &&& done[0].leader == x.0
            &&& done[0].requested == in_flight[x.0].requested
            &&& done[0].from_replica == in_flight[x.0].from_replica
            &&& done[0].result == x.1
        },
    decreases b.len(),
{
    let none = Seq::<(i32, FetchResult)>::empty();
    assert(seq![x].drop_last() =~= none);
    assert(seq![x].last() == x);
    assert(ended(in_flight, none) == (in_flight, Seq::<CompletedFetch>::empty()));
    if b.len() == 0 {
        assert(a + b =~= a);
        assert(ended(in_flight, a).1 + Seq::<CompletedFetch>::empty() =~= ended(in_flight, a).1);
    } else {
        law_results_end_their_fetch(in_flight, a, b.drop_last(), x);
        assert((a + b).drop_last() =~= a + b.drop_last());
        assert((a + b).last() == b.last());
        assert(ended(in_flight, a + b).1 =~= ended(in_flight, a).1 + ended(
            ended(in_flight, a).0,
            b,
        ).1);
    }
}

/// Whether an error of a connection is transient.
pub open spec fn may_pass(error: ClientError) -> bool {
    match error {
        ClientError::Connect(_)
        | ClientError::Tls(_)
        | ClientError::Sasl(_, _)
        | ClientError::Disconnected
        | ClientError::Timeout(_)
        | ClientError::Io(_) => true,
        _ => false,
    }
}

/// What stays of a session after its answer: only the session of the broker
/// changes, and keeps its partitions.
pub open spec fn session_moves(
    before: Map<i32, SessionModel>,
    broker: i32,
    after: Map<i32, SessionModel>,
) -> bool {
    &&& after.contains_key(broker)
    &&& before.contains_key(broker) ==> after[broker].partitions == before[broker].partitions
    &&& !before.contains_key(broker) ==> after[broker].partitions == Map::<
        PartitionKey,
        SessionPartition,
    >::empty()
    &&& forall|b: i32|
        b != broker ==> (#[trigger] after.contains_key(b) == before.contains_key(b)) && after[b]
            == before[b]
}

/// A fetch that failed, or ended without an answer, has its session made anew
/// under its id. An error takes away the preferred replicas of all partitions
/// that were asked for. A transient error gives up the connection; of the others
/// the first fails the poll. No rows come from either.
pub proof fn law_failed_fetches(
    m: TakeModel,
    fetch: CompletedFetch,
    names: Map<u128, String>,
    offsets: Map<PartitionKey, i64>,
    key: PartitionKey,
)
    requires
        fetch.result is None || fetch.result->Some_0 is Err,
    ensures
        ({
            let t = after_fetch(m, fetch, names, offsets);
            let broker = fetch.leader;
            &&& session_moves(m.sessions, broker, t.sessions)
            &&& t.sessions[broker].next.epoch == 0
            &&& t.sessions[broker].next.session_id == if m.sessions.contains_key(broker) {
                m.sessions[broker].next.session_id
            } else {
                0
            }
            &&& t.responses == m.responses
            &&& fetch.result is None ==> t.replicas == m.replicas && t.actions == m.actions
                && t.failure == m.failure
            &&& fetch.result is Some ==> {
                let error = fetch.result->Some_0->Err_0;
                &&& t.replicas.contains_key(key) <==> m.replicas.contains_key(key)
                    && !fetch.requested@.contains_key(key)
                &&& t.replicas.contains_key(key) ==> t.replicas[key] == m.replicas[key]
                &&& may_pass(error) ==> t.failure == m.failure && t.actions == m.actions.push(
                    if broker == -1 {
                        ConnectionAction::ReconnectBootstrap
                    } else {
                        ConnectionAction::EvictBroker(broker)
                    },
                )
                &&& !may_pass(error) ==> t.actions == m.actions && t.failure
                    == if m.failure is None {
                    Some(error)
                } else {
                    m.failure
                }
            }
        }),
{
}

/// An answer without an error gives its usable rows, unless it is a throttled
/// answer without rows to a full request; any other gives none. The session goes
/// on as the answer says, and only the replicas that answered out of range are
/// given up.
pub proof fn law_answered_fetches(
    m: TakeModel,
    fetch: CompletedFetch,
    names: Map<u128, String>,
    offsets: Map<PartitionKey, i64>,
    key: PartitionKey,
)
    requires
        fetch.result matches Some(Ok(_)),
    ensures
        ({
            let t = after_fetch(m, fetch, names, offsets);
            let broker = fetch.leader;
            let response = fetch.result->Some_0->Ok_0;
            let epoch: int = if m.sessions.contains_key(broker) {
                m.sessions[broker].next.epoch as int
            } else {
                0
            };
            let full = epoch == 0 || epoch == -1;
            let empty = forall|i: int|
                0 <= i < response.responses@.len() ==> (
                #[trigger] response.responses@[i]).partitions@.len() == 0;
            let throttled = full && empty && response.throttle_time_ms > 0;
            let next = t.sessions[broker].next;
            &&& session_moves(m.sessions, broker, t.sessions)
            &&& t.actions == m.actions
            &&& t.failure == m.failure
            &&& response.error_code != 0 || throttled ==> t.responses == m.responses && t.replicas
                == m.replicas
            &&& response.error_code == 0 && !throttled ==> {
                &&& t.responses == m.responses.push(
                    usable_answer(
                        response,
                        names,
                        fetch.requested@,
                        fetch.from_replica@,
                        offsets,
                    ),
                )
                &&& t.replicas.contains_key(key) <==> m.replicas.contains_key(key)
                    && !answer_lost_replicas(
                    response.responses@,
                    names,
                    fetch.from_replica@,
                ).contains(key)
                &&& t.replicas.contains_key(key) ==> t.replicas[key] == m.replicas[key]
                &&& response.session_id == 0 ==> next.session_id == 0 && next.epoch == 0
                &&& response.session_id != 0 && full ==> next.session_id == response.session_id
                    && next.epoch == 1
                &&& response.session_id != 0 && 0 < epoch < 2147483647 ==> next.session_id
                    == m.sessions[broker].next.session_id && next.epoch == epoch + 1
            }
            &&& response.error_code == 70 || (response.error_code == 0 && throttled)
                ==> next.session_id == 0 && next.epoch == 0
            &&& response.error_code != 0 && response.error_code != 70 ==> next.epoch == 0
        }),
{
    let response = fetch.result->Some_0->Ok_0;
    if has_rows(response) {
        let i = choose|i: int|
            0 <= i < response.responses@.len() && (
            #[trigger] response.responses@[i]).partitions@.len() > 0;
        assert(response.responses@[i].partitions@.len() > 0);
    }
}

/// A usable answer keeps the topics of the answer in their order, each with its
/// name, its id and its usable rows.
pub proof fn law_usable_answers(
    response: FetchResponse,
    names: Map<u128, String>,
    requested: Map<PartitionKey, i64>,
    from_replica: Set<PartitionKey>,
    offsets: Map<PartitionKey, i64>,
    i: int,
)
    requires
        0 <= i < response.responses@.len(),
    ensures
        ({
            let answer = usable_answer(response, names, requested, from_replica, offsets);
            let topic = response.responses@[i];
            &&& answer.topics.len() == response.responses@.len()
            &&& answer.topics[i].topic == topic.topic@
            &&& answer.topics[i].topic_id == topic.topic_id
            &&& answer.topics[i].partitions == usable_rows(
                topic.partitions@,
                resolved_name(topic, names),
                requested,
                from_replica,
                offsets,
            )
        }),
{
}

/// Fetches are taken in their order.
pub proof fn law_fetches_are_taken_in_order(
    m: TakeModel,
    a: Seq<CompletedFetch>,
    b: Seq<CompletedFetch>,
    x: CompletedFetch,
    names: Map<u128, String>,
    offsets: Map<PartitionKey, i64>,
)
    ensures
        after_fetches(m, a + b, names, offsets) == after_fetches(
            after_fetches(m, a, names, offsets),
            b,
            names,
            offsets,
        ),
        after_fetches(m, seq![x], names, offsets) == after_fetch(m, x, names, offsets),
    decreases b.len(),
{
    let none = Seq::<CompletedFetch>::empty();
    assert(seq![x].drop_last() =~= none);
    assert(seq![x].last() == x);
    assert(after_fetches(m, none, names, offsets) == m);
    if b.len() == 0 {
        assert(a + b =~= a);
    } else {
        law_fetches_are_taken_in_order(m, a, b.drop_last(), x, names, offsets);
        assert((a + b).drop_last() =~= a + b.drop_last());
        assert((a + b).last() == b.last());
    }
}

/// The fetches of a round list, for each broker and topic, the assigned
/// partitions in their order. A preferred replica that expired or is not known
/// any more ends for the partitions of the round, and one that is not known asks
/// for new metadata. Positions, buffer and sessions stay.
pub proof fn law_grouped_fetches(
    before: Consumer,
    now: Nanos,
    grouped: ByBroker<FetchSpec>,
    refresh: bool,
    after: Consumer,
    broker: i32,
    topic: Seq<char>,
    key: PartitionKey,
)
    requires
        before.fetches_grouped(now, grouped, refresh, after),
    ensures
        ({
            let replicas = before.fetches.preferred_read_replicas@;
            let left = after.fetches.preferred_read_replicas@;
            let known = before.known_brokers@;
            let asked = before.assigned@.contains(key) && may_fetch(before, key);
            let ends = asked && (replicas[key].1 < now || !known.contains(replicas[key].0));
            &&& grouped@.contains_key(broker) && grouped@[broker]@.contains_key(topic)
                ==> grouped@[broker]@[topic]@ == before.fetch_specs(
                before.assigned.listed(),
                now,
                broker,
                topic,
            )
            &&& !(grouped@.contains_key(broker) && grouped@[broker]@.contains_key(topic))
                ==> before.fetch_specs(before.assigned.listed(), now, broker, topic).len() == 0
            &&& left.contains_key(key) <==> replicas.contains_key(key) && !ends
            &&& left.contains_key(key) ==> left[key] == replicas[key]
            &&& asked && replicas.contains_key(key) && now <= replicas[key].1 && !known.contains(
                replicas[key].0,
            ) ==> refresh
            &&& refresh ==> exists|k: PartitionKey| #[trigger]
                before.assigned@.contains(k) && may_fetch(before, k) && replicas.contains_key(k)
                    && now <= replicas[k].1 && !known.contains(replicas[k].0)
            &&& after.next_offsets == before.next_offsets
            &&& after.positions == before.positions
            &&& after.fetch_buffer == before.fetch_buffer
            &&& after.fetches.sessions == before.fetches.sessions
            &&& after.fetches.in_flight == before.fetches.in_flight
        }),
{
    assert forall|k: PartitionKey| before.fetchable(k) == #[trigger] may_fetch(before, k) by {
        lemma_may_fetch(before, k, now);
    }
    lemma_may_fetch(before, key, now);
    assert(listed_for(grouped@, broker, topic) == before.fetch_specs(
        before.assigned.listed(),
        now,
        broker,
        topic,
    ));
    if refresh {
        let k = choose|k: PartitionKey| #[trigger]
            before.assigned@.contains(k) && before.fetchable(k) && replica_unknown(
                before.fetches.preferred_read_replicas@,
                before.known_brokers@,
                now,
                k,
            );
        lemma_may_fetch(before, k, now);
        assert(before.assigned@.contains(k) && may_fetch(before, k));
    }
}

/// Each broker with partitions and without a fetch under way gets one request.
/// The fetch remembers the offset that it asks each partition from, and which of
/// them it asks a preferred replica for. The fetches and sessions of the other
/// brokers stay.
pub proof fn law_sent_fetches(
    before: Consumer,
    by_leader: ByBroker<FetchSpec>,
    sent: Seq<(i32, FetchRequest)>,
    after: Consumer,
    i: int,
    key: PartitionKey,
)
    requires
        before.fetches_sent(by_leader, sent, after),
        0 <= i < sent.len(),
    ensures
        ({
            let broker = sent[i].0;
            let wanted = before.wanted_at(by_leader, broker);
            let fetch = after.fetches.in_flight@[broker];
            let session = after.fetches.sessions@[broker];
            let replicas = before.fetches.preferred_read_replicas@;
            &&& by_leader@.contains_key(broker)
            &&& !before.fetches.in_flight@.contains_key(broker)
            &&& after.fetches.in_flight@.contains_key(broker)
            &&& fetch.requested@.contains_key(key) <==> wanted.contains_key(key)
            &&& wanted.contains_key(key) ==> fetch.requested@[key] == wanted[key].fetch_offset
            &&& fetch.from_replica@.contains(key) <==> wanted.contains_key(key)
                && replicas.contains_key(key) && replicas[key].0 == broker
            &&& after.fetches.sessions@.contains_key(broker)
            &&& session.partitions@ == wanted
            &&& session.next.session_id == sent[i].1.session_id
            &&& session.next.epoch == sent[i].1.session_epoch
            &&& after.next_offsets == before.next_offsets
            &&& after.fetch_buffer == before.fetch_buffer
            &&& after.fetches.preferred_read_replicas == before.fetches.preferred_read_replicas
        }),
{
    let busy = before.fetches.in_flight@.dom();
    let asked = idle(by_leader.keys(), busy);
    let broker = sent[i].0;
    let brokers = Seq::new(sent.len(), |j: int| sent[j].0);
    assert(brokers[i] == broker);
    assert(asked.contains(broker));
    lemma_idle(by_leader.keys(), busy, broker);
    assert(by_leader.keys().contains(broker));
}

proof fn lemma_idle(keys: Seq<i32>, busy: Set<i32>, broker: i32)
    ensures
        idle(keys, busy).contains(broker) <==> keys.contains(broker) && !busy.contains(broker),
    decreases keys.len(),
{
    if keys.len() > 0 {
        let front = keys.drop_last();
        lemma_idle(front, busy, broker);
        assert(front.push(keys.last()) =~= keys);
        lemma_pushed(front, keys.last(), broker);
        lemma_pushed(idle(front, busy), keys.last(), broker);
    }
}

/// A broker with partitions and without a fetch under way is asked, and the state
/// of any other broker stays.
pub proof fn law_brokers_that_are_asked(
    before: Consumer,
    by_leader: ByBroker<FetchSpec>,
    sent: Seq<(i32, FetchRequest)>,
    after: Consumer,
    broker: i32,
)
    requires
        before.fetches_sent(by_leader, sent, after),
    ensures
        ({
            let had = before.fetches;
            let has = after.fetches;
            let asked = by_leader@.contains_key(broker) && !had.in_flight@.contains_key(broker);
            &&& asked <==> exists|i: int| 0 <= i < sent.len() && (#[trigger] sent[i]).0 == broker
            &&& !asked ==> has.in_flight@.contains_key(broker) == had.in_flight@.contains_key(
                broker,
            ) && has.in_flight@[broker] == had.in_flight@[broker]
            &&& !asked ==> has.sessions@.contains_key(broker) == had.sessions@.contains_key(broker)
                && has.sessions@[broker] == had.sessions@[broker]
        }),
{
    let busy = before.fetches.in_flight@.dom();
    let keys = by_leader.keys();
    let asked = idle(keys, busy);
    let brokers = Seq::new(sent.len(), |j: int| sent[j].0);
    lemma_idle(keys, busy, broker);
    assert(keys.contains(broker) <==> by_leader@.contains_key(broker));
    if asked.contains(broker) {
        let i = choose|i: int| 0 <= i < asked.len() && asked[i] == broker;
        assert(brokers[i] == broker);
        assert(sent[i].0 == broker);
    } else {
        if exists|i: int| 0 <= i < sent.len() && (#[trigger] sent[i]).0 == broker {
            let i = choose|i: int| 0 <= i < sent.len() && (#[trigger] sent[i]).0 == broker;
            assert(brokers[i] == broker);
            assert(asked.contains(broker));
        }
        assert(after.fetches.in_flight@.contains_key(broker)
            == before.fetches.in_flight@.contains_key(broker));
    }
}

proof fn lemma_fetch_specs(
    consumer: Consumer,
    keys: Seq<PartitionKey>,
    now: Nanos,
    broker: i32,
    topic: Seq<char>,
    spec: FetchSpec,
)
    ensures
        consumer.fetch_specs(keys, now, broker, topic).contains(spec) <==> {
            let key = (topic, spec.0);
            &&& keys.contains(key)
            &&& may_fetch(consumer, key)
            &&& broker_of(consumer, key, now) == broker
            &&& !consumer.fetches.in_flight@.contains_key(broker)
            &&& spec == consumer.fetch_spec(key)
        },
    decreases keys.len(),
{
    if keys.len() > 0 {
        let front = keys.drop_last();
        let last = keys.last();
        lemma_fetch_specs(consumer, front, now, broker, topic, spec);
        lemma_may_fetch(consumer, last, now);
        assert(front.push(last) =~= keys);
        lemma_pushed(front, last, (topic, spec.0));
        lemma_pushed(
            consumer.fetch_specs(front, now, broker, topic),
            consumer.fetch_spec(last),
            spec,
        );
    }
}

proof fn lemma_last_spec_is_listed(specs: Seq<FetchSpec>, partition: i32)
    ensures
        last_spec(specs, partition) is Some ==> specs.contains(
            last_spec(specs, partition)->Some_0,
        ) && last_spec(specs, partition)->Some_0.0 == partition,
        last_spec(specs, partition) is None ==> forall|spec: FetchSpec|
            #[trigger] specs.contains(spec) ==> spec.0 != partition,
    decreases specs.len(),
{
    if specs.len() > 0 {
        let front = specs.drop_last();
        lemma_last_spec_is_listed(front, partition);
        assert(front.push(specs.last()) =~= specs);
        if last_spec(specs, partition) is Some {
            lemma_pushed(front, specs.last(), last_spec(specs, partition)->Some_0);
        } else {
            assert forall|spec: FetchSpec| #[trigger] specs.contains(spec) implies spec.0
                != partition by {
                lemma_pushed(front, specs.last(), spec);
            }
        }
    }
}

/// A fetch that a poll sends to a broker asks for exactly the assigned partitions
/// that may be fetched and are read from that broker, each from its position.
pub proof fn law_a_poll_asks_for_the_partitions_of_a_broker(
    before: Consumer,
    now: Nanos,
    sent: Seq<(i32, FetchRequest)>,
    refresh: bool,
    after: Consumer,
    i: int,
    key: PartitionKey,
)
    requires
        before.fetching(now, sent, refresh, after),
        0 <= i < sent.len(),
    ensures
        ({
            let broker = sent[i].0;
            let asked = after.fetches.in_flight@[broker].requested@;
            &&& !before.fetches.in_flight@.contains_key(broker)
            &&& after.fetches.in_flight@.contains_key(broker)
            &&& asked.contains_key(key) <==> before.assigned.listed().contains(key) && may_fetch(
                before,
                key,
            ) && broker_of(before, key, now) == broker
            &&& asked.contains_key(key) ==> asked[key] == if before.next_offsets@.contains_key(
                key,
            ) {
                before.next_offsets@[key]
            } else {
                0
            }
        }),
{
    let (grouped, ready) = choose|grouped: ByBroker<FetchSpec>, ready: Consumer| #[trigger]
        before.fetches_grouped(now, grouped, refresh, ready) && grouped.keys_listed()
            && ready.fetches_sent(grouped, sent, after);
    let broker = sent[i].0;
    let list = before.assigned.listed();
    law_sent_fetches(ready, grouped, sent, after, i, key);
    let specs = before.fetch_specs(list, now, broker, key.0);
    assert(listed_for(grouped@, broker, key.0) == specs);
    lemma_fetch_specs(before, list, now, broker, key.0, before.fetch_spec(key));
    lemma_last_spec_is_listed(specs, key.1);
    if last_spec(specs, key.1) is Some {
        lemma_fetch_specs(before, list, now, broker, key.0, last_spec(specs, key.1)->Some_0);
    } else {
        assert(!specs.contains(before.fetch_spec(key)));
    }
    if !grouped@[broker]@.contains_key(key.0) {
        assert(specs.len() == 0);
        assert(!specs.contains(before.fetch_spec(key)));
    }
}

/// A poll sends a fetch to each broker that an assigned partition which may be
/// fetched is read from, unless that broker has a fetch under way.
pub proof fn law_a_poll_asks_every_idle_broker(
    before: Consumer,
    now: Nanos,
    sent: Seq<(i32, FetchRequest)>,
    refresh: bool,
    after: Consumer,
    broker: i32,
    key: PartitionKey,
)
    requires
        before.fetching(now, sent, refresh, after),
        before.assigned.listed().contains(key),
        may_fetch(before, key),
        broker_of(before, key, now) == broker,
        !before.fetches.in_flight@.contains_key(broker),
    ensures
        exists|i: int| 0 <= i < sent.len() && (#[trigger] sent[i]).0 == broker,
{
    let (grouped, ready) = choose|grouped: ByBroker<FetchSpec>, ready: Consumer| #[trigger]
        before.fetches_grouped(now, grouped, refresh, ready) && grouped.keys_listed()
            && ready.fetches_sent(grouped, sent, after);
    let list = before.assigned.listed();
    let specs = before.fetch_specs(list, now, broker, key.0);
    assert(listed_for(grouped@, broker, key.0) == specs);
    lemma_fetch_specs(before, list, now, broker, key.0, before.fetch_spec(key));
    assert(specs.contains(before.fetch_spec(key)));
    assert(grouped@.contains_key(broker));
    law_brokers_that_are_asked(ready, grouped, sent, after, broker);
}

} // verus!
