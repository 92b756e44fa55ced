//! What position lookups ask for and what becomes of the answers, stated over
//! the fields of the answers. A list is described by what one item gives and by
//! how the results of two lists join.
use vstd::prelude::*;

use crate::collections::lemma_pushed;
use crate::config::AutoOffsetReset;
use crate::list_offsets::{
    answers_offsets, answers_unauthorized, keys_with, log_start_positions, offsets_specs,
    rows_offsets, rows_unauthorized, ListOffsetsResponse, ListOffsetsResult, ListOffsetsRow,
    ListOffsetsSpec,
};
use crate::metadata::MetadataTopic;
use crate::partition_state::partitions_of;
use crate::position::PositionMap;
use crate::position_update::{after_resets, first_refused, reset_queries, ResetModel};
use crate::topic_counts::{grew, merged, topic_counts, topic_ids_after};
use crate::wire::{LeaderEpoch, PartitionKey, Uuid};

verus! {

/// A lookup asks a broker for a partition exactly where the broker leads it, with
/// the epoch of the leader. A partition without a known leader is asked for at the
/// bootstrap connection.
pub proof fn law_lookups_ask_the_leader(
    a: Seq<PartitionKey>,
    b: Seq<PartitionKey>,
    x: PartitionKey,
    positions: PositionMap,
    known: Set<i32>,
    broker: i32,
    topic: Seq<char>,
)
    ensures
        offsets_specs(a + b, positions, known, broker, topic)
            == offsets_specs(a, positions, known, broker, topic)
            + offsets_specs(b, positions, known, broker, topic),
        offsets_specs(seq![x], positions, known, broker, topic) == {
            let has = positions.contains_key(x);
            let led = has && positions[x].leader_id >= 0 && known.contains(positions[x].leader_id);
            let leader = if led {
                positions[x].leader_id
            } else {
                -1i32
            };
            if leader == broker && x.0 == topic {
                seq![
                    (
                        x.1,
                        if has {
                            positions[x].leader_epoch
                        } else {
                            LeaderEpoch(-1i32)
                        },
                    ),
                ]
            } else {
                seq![]
            }
        },
    decreases b.len(),
{
    let none = Seq::<PartitionKey>::empty();
    assert(seq![x].drop_last() =~= none);
    assert(seq![x].last() == x);
    assert(offsets_specs(none, positions, known, broker, topic)
        =~= Seq::<ListOffsetsSpec>::empty());
    assert(offsets_specs(seq![x], positions, known, broker, topic) =~= {
        let has = positions.contains_key(x);
        let led = has && positions[x].leader_id >= 0 && known.contains(positions[x].leader_id);
        let leader = if led {
            positions[x].leader_id
        } else {
            -1i32
        };
        if leader == broker && x.0 == topic {
            seq![
                (
                    x.1,
                    if has {
                        positions[x].leader_epoch
                    } else {
                        LeaderEpoch(-1i32)
                    },
                ),
            ]
        } else {
            seq![]
        }
    });
    if b.len() == 0 {
        assert(a + b =~= a);
        assert(b =~= none);
        assert(offsets_specs(a, positions, known, broker, topic)
            + offsets_specs(b, positions, known, broker, topic)
            =~= offsets_specs(a, positions, known, broker, topic));
    } else {
        law_lookups_ask_the_leader(a, b.drop_last(), x, positions, known, broker, topic);
        assert((a + b).drop_last() =~= a + b.drop_last());
        assert((a + b).last() == b.last());
        assert(offsets_specs(a + b, positions, known, broker, topic)
            =~= offsets_specs(a, positions, known, broker, topic)
            + offsets_specs(b, positions, known, broker, topic));
    }
}

/// A partition out of range goes to its log start where the lookup found it.
pub proof fn law_log_starts_of_partitions_out_of_range(
    a: Seq<(PartitionKey, i64)>,
    b: Seq<(PartitionKey, i64)>,
    x: (PartitionKey, i64),
    log_starts: Map<PartitionKey, i64>,
)
    ensures
        log_start_positions(a + b, log_starts)
            == log_start_positions(a, log_starts) + log_start_positions(b, log_starts),
        log_start_positions(seq![x], log_starts) == {
            if log_starts.contains_key(x.0) {
                seq![(x.0, log_starts[x.0])]
            } else {
                seq![]
            }
        },
    decreases b.len(),
{
    let none = Seq::<(PartitionKey, i64)>::empty();
    assert(seq![x].drop_last() =~= none);
    assert(seq![x].last() == x);
    assert(log_start_positions(none, log_starts) =~= Seq::<(PartitionKey, i64)>::empty());
    assert(log_start_positions(seq![x], log_starts) =~= {
        if log_starts.contains_key(x.0) {
            seq![(x.0, log_starts[x.0])]
        } else {
            seq![]
        }
    });
    if b.len() == 0 {
        assert(a + b =~= a);
        assert(b =~= none);
        assert(log_start_positions(a, log_starts) + log_start_positions(b, log_starts)
            =~= log_start_positions(a, log_starts));
    } else {
        law_log_starts_of_partitions_out_of_range(a, b.drop_last(), x, log_starts);
        assert((a + b).drop_last() =~= a + b.drop_last());
        assert((a + b).last() == b.last());
        assert(log_start_positions(a + b, log_starts)
            =~= log_start_positions(a, log_starts) + log_start_positions(b, log_starts));
    }
}

/// A reset looks up the partitions with its placeholder, in their order.
pub proof fn law_resets_look_up_their_placeholder(
    a: Seq<PartitionKey>,
    b: Seq<PartitionKey>,
    x: PartitionKey,
    offsets: Map<PartitionKey, i64>,
    value: i64,
)
    ensures
        keys_with(a + b, offsets, value)
            == keys_with(a, offsets, value) + keys_with(b, offsets, value),
        keys_with(seq![x], offsets, value) == {
            if offsets[x] == value {
                seq![x]
            } else {
                seq![]
            }
        },
    decreases b.len(),
{
    let none = Seq::<PartitionKey>::empty();
    assert(seq![x].drop_last() =~= none);
    assert(seq![x].last() == x);
    assert(keys_with(none, offsets, value) =~= Seq::<PartitionKey>::empty());
    assert(keys_with(seq![x], offsets, value) =~= {
        if offsets[x] == value {
            seq![x]
        } else {
            seq![]
        }
    });
    if b.len() == 0 {
        assert(a + b =~= a);
        assert(b =~= none);
        assert(keys_with(a, offsets, value) + keys_with(b, offsets, value)
            =~= keys_with(a, offsets, value));
    } else {
        law_resets_look_up_their_placeholder(a, b.drop_last(), x, offsets, value);
        assert((a + b).drop_last() =~= a + b.drop_last());
        assert((a + b).last() == b.last());
        assert(keys_with(a + b, offsets, value)
            =~= keys_with(a, offsets, value) + keys_with(b, offsets, value));
    }
}

/// The partitions of a topic are those of the keys with its name.
pub proof fn law_partitions_of_a_topic(
    a: Seq<PartitionKey>,
    b: Seq<PartitionKey>,
    x: PartitionKey,
    topic: Seq<char>,
)
    ensures
        partitions_of(a + b, topic) == partitions_of(a, topic) + partitions_of(b, topic),
        partitions_of(seq![x], topic) == {
            if x.0 == topic {
                seq![x.1]
            } else {
                seq![]
            }
        },
    decreases b.len(),
{
    let none = Seq::<PartitionKey>::empty();
    assert(seq![x].drop_last() =~= none);
    assert(seq![x].last() == x);
    assert(partitions_of(none, topic) =~= Seq::<i32>::empty());
    assert(partitions_of(seq![x], topic) =~= {
        if x.0 == topic {
            seq![x.1]
        } else {
            seq![]
        }
    });
    if b.len() == 0 {
        assert(a + b =~= a);
        assert(b =~= none);
        assert(partitions_of(a, topic) + partitions_of(b, topic) =~= partitions_of(a, topic));
    } else {
        law_partitions_of_a_topic(a, b.drop_last(), x, topic);
        assert((a + b).drop_last() =~= a + b.drop_last());
        assert((a + b).last() == b.last());
        assert(partitions_of(a + b, topic) =~= partitions_of(a, topic) + partitions_of(b, topic));
    }
}

/// A row gives a position exactly where it has no error and an offset other than
/// -1, and a later row of a partition replaces an earlier one.
pub proof fn law_positions_of_lookup_rows(
    a: Seq<ListOffsetsRow>,
    b: Seq<ListOffsetsRow>,
    x: ListOffsetsRow,
)
    ensures
        rows_offsets(a + b) == rows_offsets(a).union_prefer_right(rows_offsets(b)),
        rows_offsets(seq![x]) == {
            if x.1.error_code == 0 && x.1.offset != -1 {
                Map::<PartitionKey, i64>::empty().insert((x.0, x.1.partition_index), x.1.offset)
            } else {
                Map::empty()
            }
        },
    decreases b.len(),
{
    let none = Seq::<ListOffsetsRow>::empty();
    assert(seq![x].drop_last() =~= none);
    assert(seq![x].last() == x);
    assert(rows_offsets(none) =~= Map::<PartitionKey, i64>::empty());
    assert(rows_offsets(seq![x]) =~= {
        if x.1.error_code == 0 && x.1.offset != -1 {
            Map::<PartitionKey, i64>::empty().insert((x.0, x.1.partition_index), x.1.offset)
        } else {
            Map::empty()
        }
    });
    if b.len() == 0 {
        assert(a + b =~= a);
        assert(b =~= none);
        assert(rows_offsets(a).union_prefer_right(rows_offsets(b)) =~= rows_offsets(a));
    } else {
        law_positions_of_lookup_rows(a, b.drop_last(), x);
        assert((a + b).drop_last() =~= a + b.drop_last());
        assert((a + b).last() == b.last());
        assert(rows_offsets(a + b) =~= rows_offsets(a).union_prefer_right(rows_offsets(b)));
    }
}

/// A row refuses its topic exactly where it has the authorization error.
pub proof fn law_refusals_of_lookup_rows(
    a: Seq<ListOffsetsRow>,
    b: Seq<ListOffsetsRow>,
    x: ListOffsetsRow,
)
    ensures
        rows_unauthorized(a + b) == rows_unauthorized(a).union(rows_unauthorized(b)),
        rows_unauthorized(seq![x]) == {
            if x.1.error_code == 29 {
                Set::<Seq<char>>::empty().insert(x.0)
            } else {
                Set::empty()
            }
        },
    decreases b.len(),
{
    let none = Seq::<ListOffsetsRow>::empty();
    assert(seq![x].drop_last() =~= none);
    assert(seq![x].last() == x);
    assert(rows_unauthorized(none) =~= Set::<Seq<char>>::empty());
    assert(rows_unauthorized(seq![x]) =~= {
        if x.1.error_code == 29 {
            Set::<Seq<char>>::empty().insert(x.0)
        } else {
            Set::empty()
        }
    });
    if b.len() == 0 {
        assert(a + b =~= a);
        assert(b =~= none);
        assert(rows_unauthorized(a).union(rows_unauthorized(b)) =~= rows_unauthorized(a));
    } else {
        law_refusals_of_lookup_rows(a, b.drop_last(), x);
        assert((a + b).drop_last() =~= a + b.drop_last());
        assert((a + b).last() == b.last());
        assert(rows_unauthorized(a + b) =~= rows_unauthorized(a).union(rows_unauthorized(b)));
    }
}

/// The positions of answers are those of their rows. An answer that refuses a topic
/// gives none, and a later answer replaces an earlier one.
pub proof fn law_positions_of_lookup_answers(
    a: Seq<ListOffsetsResponse>,
    b: Seq<ListOffsetsResponse>,
    x: ListOffsetsResponse,
)
    ensures
        answers_offsets(a + b) == answers_offsets(a).union_prefer_right(answers_offsets(b)),
        answers_offsets(seq![x]) == {
            if rows_unauthorized(x.row_models()) == Set::<Seq<char>>::empty() {
                rows_offsets(x.row_models())
            } else {
                Map::empty()
            }
        },
    decreases b.len(),
{
    let none = Seq::<ListOffsetsResponse>::empty();
    assert(seq![x].drop_last() =~= none);
    assert(seq![x].last() == x);
    assert(answers_offsets(none) =~= Map::<PartitionKey, i64>::empty());
    assert(answers_offsets(seq![x]) =~= {
        if rows_unauthorized(x.row_models()) == Set::<Seq<char>>::empty() {
            rows_offsets(x.row_models())
        } else {
            Map::empty()
        }
    });
    if b.len() == 0 {
        assert(a + b =~= a);
        assert(b =~= none);
        assert(answers_offsets(a).union_prefer_right(answers_offsets(b)) =~= answers_offsets(a));
    } else {
        law_positions_of_lookup_answers(a, b.drop_last(), x);
        assert((a + b).drop_last() =~= a + b.drop_last());
        assert((a + b).last() == b.last());
        assert(answers_offsets(a + b)
            =~= answers_offsets(a).union_prefer_right(answers_offsets(b)));
    }
}

/// The refused topics of answers are those of any of them.
pub proof fn law_refusals_of_lookup_answers(
    a: Seq<ListOffsetsResponse>,
    b: Seq<ListOffsetsResponse>,
    x: ListOffsetsResponse,
)
    ensures
        answers_unauthorized(a + b) == answers_unauthorized(a).union(answers_unauthorized(b)),
        answers_unauthorized(seq![x]) == rows_unauthorized(x.row_models()),
    decreases b.len(),
{
    let none = Seq::<ListOffsetsResponse>::empty();
    assert(seq![x].drop_last() =~= none);
    assert(seq![x].last() == x);
    assert(answers_unauthorized(none) =~= Set::<Seq<char>>::empty());
    assert(answers_unauthorized(seq![x]) =~= rows_unauthorized(x.row_models()));
    if b.len() == 0 {
        assert(a + b =~= a);
        assert(b =~= none);
        assert(answers_unauthorized(a).union(answers_unauthorized(b)) =~= answers_unauthorized(a));
    } else {
        law_refusals_of_lookup_answers(a, b.drop_last(), x);
        assert((a + b).drop_last() =~= a + b.drop_last());
        assert((a + b).last() == b.last());
        assert(answers_unauthorized(a + b)
            =~= answers_unauthorized(a).union(answers_unauthorized(b)));
    }
}

/// The partition count of a topic is the number of its partitions in the last row
/// with its name, for topics that are asked for.
pub proof fn law_counts_of_topics(
    a: Seq<MetadataTopic>,
    b: Seq<MetadataTopic>,
    x: MetadataTopic,
    wanted: Set<Seq<char>>,
)
    ensures
        topic_counts(a + b, wanted)
            == topic_counts(a, wanted).union_prefer_right(topic_counts(b, wanted)),
        topic_counts(seq![x], wanted) == {
            let n = x.partitions@.len();
            if x.name is Some && wanted.contains(x.name->Some_0@) {
                Map::<Seq<char>, i32>::empty().insert(
                    x.name->Some_0@,
                    if n > 2147483647 {
                        2147483647i32
                    } else {
                        n as i32
                    },
                )
            } else {
                Map::empty()
            }
        },
    decreases b.len(),
{
    let none = Seq::<MetadataTopic>::empty();
    assert(seq![x].drop_last() =~= none);
    assert(seq![x].last() == x);
    assert(topic_counts(none, wanted) =~= Map::<Seq<char>, i32>::empty());
    assert(topic_counts(seq![x], wanted) =~= {
        let n = x.partitions@.len();
        if x.name is Some && wanted.contains(x.name->Some_0@) {
            Map::<Seq<char>, i32>::empty().insert(
                x.name->Some_0@,
                if n > 2147483647 {
                    2147483647i32
                } else {
                    n as i32
                },
            )
        } else {
            Map::empty()
        }
    });
    if b.len() == 0 {
        assert(a + b =~= a);
        assert(b =~= none);
        assert(topic_counts(a, wanted).union_prefer_right(topic_counts(b, wanted))
            =~= topic_counts(a, wanted));
    } else {
        law_counts_of_topics(a, b.drop_last(), x, wanted);
        assert((a + b).drop_last() =~= a + b.drop_last());
        assert((a + b).last() == b.last());
        assert(topic_counts(a + b, wanted)
            =~= topic_counts(a, wanted).union_prefer_right(topic_counts(b, wanted)));
    }
}

/// The ids of topics are those of the last row with their name, for topics that
/// are asked for. The others keep the id that they had.
pub proof fn law_ids_of_topics(
    ids: Map<Seq<char>, Uuid>,
    a: Seq<MetadataTopic>,
    b: Seq<MetadataTopic>,
    x: MetadataTopic,
    wanted: Set<Seq<char>>,
)
    ensures
        topic_ids_after(ids, a + b, wanted) == topic_ids_after(
            topic_ids_after(ids, a, wanted),
            b,
            wanted,
        ),
        topic_ids_after(ids, seq![x], wanted) == if x.name is Some && wanted.contains(
            x.name->Some_0@,
        ) {
            ids.insert(x.name->Some_0@, x.topic_id)
        } else {
            ids
        },
    decreases b.len(),
{
    let none = Seq::<MetadataTopic>::empty();
    assert(seq![x].drop_last() =~= none);
    assert(seq![x].last() == x);
    assert(topic_ids_after(ids, none, wanted) == ids);
    if b.len() == 0 {
        assert(a + b =~= a);
    } else {
        law_ids_of_topics(ids, a, b.drop_last(), x, wanted);
        assert((a + b).drop_last() =~= a + b.drop_last());
        assert((a + b).last() == b.last());
    }
}

/// A merged count is the larger of the known and the current one. Counts grew
/// where a current one is over the known one, 0 for a topic that is not known.
pub proof fn law_merged_counts(
    known: Map<Seq<char>, i32>,
    current: Map<Seq<char>, i32>,
    topic: Seq<char>,
)
    ensures
        merged(known, current).contains_key(topic) <==> known.contains_key(topic)
            || current.contains_key(topic),
        known.contains_key(topic) && current.contains_key(topic) ==> {
            &&& merged(known, current)[topic] >= known[topic]
            &&& merged(known, current)[topic] >= current[topic]
            &&& merged(known, current)[topic] == known[topic] || merged(known, current)[topic]
                == current[topic]
        },
        known.contains_key(topic) && !current.contains_key(topic) ==> merged(
            known,
            current,
        )[topic] == known[topic],
        !known.contains_key(topic) && current.contains_key(topic) && current[topic] >= 0 ==> merged(
            known,
            current,
        )[topic] == current[topic],
        grew(known, current) <==> exists|t: Seq<char>| #[trigger]
            current.contains_key(t) && current[t] > if known.contains_key(t) {
                known[t] as int
            } else {
                0
            },
{
}

/// The lookups of resets: one for each placeholder with partitions, of exactly
/// the partitions with that placeholder. The placeholder of the policy asks for
/// the end, or for the time that a duration goes back; the other two ask for the
/// beginning and for the end.
pub proof fn law_reset_lookups(
    keys: Seq<PartitionKey>,
    offsets: Map<PartitionKey, i64>,
    policy: AutoOffsetReset,
    now_ms: int,
    key: PartitionKey,
)
    ensures
        forall|i: int|
            0 <= i < reset_queries(keys, offsets, policy, now_ms).len() ==> is_reset_lookup(
                #[trigger] reset_queries(keys, offsets, policy, now_ms)[i],
                keys,
                offsets,
                policy,
                now_ms,
            ),
        keys.contains(key) && 9223372036854775805 <= offsets[key] ==> exists|i: int|
            0 <= i < reset_queries(keys, offsets, policy, now_ms).len() && (
            #[trigger] reset_queries(keys, offsets, policy, now_ms)[i]).0 == offsets[key],
{
    let all = reset_queries(keys, offsets, policy, now_ms);
    assert forall|k: PartitionKey, value: i64| #[trigger]
        keys_with(keys, offsets, value).contains(k) <==> keys.contains(k) && offsets[k]
            == value by {
        lemma_keys_with(keys, offsets, value, k);
    }
    let first = keys_with(keys, offsets, 9223372036854775807i64);
    let second = keys_with(keys, offsets, 9223372036854775806i64);
    let third = keys_with(keys, offsets, 9223372036854775805i64);
    let a: int = if first.len() == 0 {
        0
    } else {
        1
    };
    let b: int = if second.len() == 0 {
        0
    } else {
        1
    };
    if keys.contains(key) && offsets[key] == 9223372036854775807i64 {
        assert(first.contains(key));
        assert(all[0].0 == offsets[key]);
    }
    if keys.contains(key) && offsets[key] == 9223372036854775806i64 {
        assert(second.contains(key));
        assert(all[a].0 == offsets[key]);
    }
    if keys.contains(key) && offsets[key] == 9223372036854775805i64 {
        assert(third.contains(key));
        assert(all[a + b].0 == offsets[key]);
    }
}

/// Whether a lookup is that of the partitions with its placeholder.
pub open spec fn is_reset_lookup(
    query: ResetModel,
    keys: Seq<PartitionKey>,
    offsets: Map<PartitionKey, i64>,
    policy: AutoOffsetReset,
    now_ms: int,
) -> bool {
    &&& query.2.len() > 0
    &&& forall|k: PartitionKey| #[trigger]
        query.2.contains(k) <==> keys.contains(k) && offsets[k] == query.0
    &&& query.0 == 9223372036854775807i64 || query.0 == 9223372036854775806i64 || query.0
        == 9223372036854775805i64
    &&& query.0 == 9223372036854775806i64 ==> query.1 == -2
    &&& query.0 == 9223372036854775805i64 ==> query.1 == -1
    &&& query.0 == 9223372036854775807i64 ==> match policy {
        AutoOffsetReset::ByDuration(back) => {
            &&& back <= i64::MAX && now_ms - back >= i64::MIN ==> query.1 == now_ms - back
            &&& back > i64::MAX && now_ms - i64::MAX >= i64::MIN ==> query.1 == now_ms - i64::MAX
            &&& query.1 >= i64::MIN
        },
        _ => query.1 == -1,
    }
}

proof fn lemma_keys_with(
    keys: Seq<PartitionKey>,
    offsets: Map<PartitionKey, i64>,
    value: i64,
    k: PartitionKey,
)
    ensures
        keys_with(keys, offsets, value).contains(k) <==> keys.contains(k) && offsets[k] == value,
    decreases keys.len(),
{
    if keys.len() > 0 {
        let front = keys.drop_last();
        lemma_keys_with(front, offsets, value, k);
        assert(front.push(keys.last()) =~= keys);
        lemma_pushed(front, keys.last(), k);
        lemma_pushed(keys_with(front, offsets, value), keys.last(), k);
    }
}

/// A reset moves a partition exactly where it still has the placeholder of the
/// reset and the lookup found its offset. Resets take effect in their order.
pub proof fn law_resets_take_effect_in_order(
    offsets: Map<PartitionKey, i64>,
    a: Seq<(i64, ListOffsetsResult)>,
    b: Seq<(i64, ListOffsetsResult)>,
    x: (i64, ListOffsetsResult),
    key: PartitionKey,
)
    ensures
        after_resets(offsets, a + b) == after_resets(after_resets(offsets, a), b),
        after_resets(offsets, a).contains_key(key) <==> offsets.contains_key(key),
        offsets.contains_key(key) ==> after_resets(offsets, seq![x])[key] == if offsets[key] == x.0
            && x.1.offsets@.contains_key(key) {
            x.1.offsets@[key]
        } else {
            offsets[key]
        },
    decreases b.len(), a.len(),
{
    let none = Seq::<(i64, ListOffsetsResult)>::empty();
    assert(seq![x].drop_last() =~= none);
    assert(seq![x].last() == x);
    assert(after_resets(offsets, none) == offsets);
    if a.len() > 0 {
        law_resets_take_effect_in_order(offsets, a.drop_last(), none, x, key);
    }
    if b.len() == 0 {
        assert(a + b =~= a);
    } else {
        law_resets_take_effect_in_order(offsets, a, b.drop_last(), x, key);
        assert((a + b).drop_last() =~= a + b.drop_last());
        assert((a + b).last() == b.last());
    }
}

/// The topics of a refusal are those of the first result with any.
pub proof fn law_the_first_refusal_is_reported(results: Seq<(i64, ListOffsetsResult)>, i: int)
    requires
        0 <= i < results.len(),
        forall|j: int|
            0 <= j < i ==> (#[trigger] results[j]).1.unauthorized@ == Set::<Seq<char>>::empty(),
    ensures
        results[i].1.unauthorized@ != Set::<Seq<char>>::empty() ==> first_refused(results) == Some(
            results[i].1.unauthorized@,
        ),
        results[i].1.unauthorized@ == Set::<Seq<char>>::empty() && i + 1 == results.len()
            ==> first_refused(results) is None,
    decreases results.len(),
{
    let front = results.drop_last();
    let n = results.len() - 1;
    assert(results[n] == results.last());
    if i < n {
        assert forall|j: int| 0 <= j < i implies (#[trigger] front[j]).1.unauthorized@ == Set::<
            Seq<char>,
        >::empty() by {
            assert(results[j] == front[j]);
        }
        law_the_first_refusal_is_reported(front, i);
    } else if n > 0 {
        assert forall|j: int| 0 <= j < n - 1 implies (#[trigger] front[j]).1.unauthorized@ == Set::<
            Seq<char>,
        >::empty() by {
            assert(results[j] == front[j]);
        }
        assert(results[n - 1].1.unauthorized@ == Set::<Seq<char>>::empty());
        law_the_first_refusal_is_reported(front, n - 1);
    }
}

} // verus!
