//! What pauses, polls, subscriptions and commits do to each partition, stated
//! over the state before them.
use vstd::prelude::*;

use crate::assignment::with_new;
use crate::collections::{MapKey, SortedMap};
use crate::config::{IsolationLevel, RebalanceProtocol};
use crate::consumer::{Consumer, NO_GROUP_MEMBERSHIP, Nanos};
use crate::error::{partition_name, ConsumerError};
use crate::fetch_answer::{reports, FetchedModel, RowFailure};
use crate::fetch_buffer::{of_topics, BufferedModel};
use crate::flow_laws::may_pass;
use crate::list_offsets::{
    offset_or_unknown, transient_poll_error, ListOffsetsRequest, ListOffsetsSpec,
};
use crate::metadata::MetadataTopic;
use crate::offset_wire::{
    commit_rows, commit_topic_rows, names_topics, CommitRow, OffsetAndEpoch, OffsetCommitTopic,
    OffsetFetchRequestTopic,
};
use crate::partition_state::{first_missing, not_assigned, paused_more, pauses_in_effect};
use crate::poll::{first_of, PollStep};
use crate::poll_answers::{buffered_after, pushed_models};
use crate::position_update::{asks, step_after, UpdateStage, UpdateStep};
use crate::records::{record_models, ConsumerRecord};
use crate::subscribe::MUTUALLY_EXCLUSIVE;
use crate::subscription::{offered, text_set};
use crate::text::{
    decimal, differs_at, digit, digits, joined, lemma_text_before_irreflexive,
    lemma_text_before_transitive, text_before, views,
};
use crate::wire::{PartitionKey, TopicPartition};

verus! {

/// A call is accepted where all its partitions are owned.
pub proof fn law_no_missing_partition(keys: Seq<PartitionKey>, owned: Set<PartitionKey>)
    requires
        forall|i: int| 0 <= i < keys.len() ==> !not_owned(#[trigger] keys[i], owned),
    ensures
        first_missing(keys, owned) is None,
    decreases keys.len(),
{
    if keys.len() > 0 {
        let front = keys.drop_last();
        assert forall|i: int| 0 <= i < front.len()
            implies !not_owned(#[trigger] front[i], owned) by {
            assert(keys[i] == front[i]);
        }
        law_no_missing_partition(front, owned);
        assert(keys[keys.len() - 1] == keys.last());
    }
}

/// A call is refused for its first partition that is not owned.
pub proof fn law_first_missing_partition(keys: Seq<PartitionKey>, owned: Set<PartitionKey>, i: int)
    requires
        0 <= i < keys.len(),
        not_owned(keys[i], owned),
        forall|j: int| 0 <= j < i ==> !not_owned(#[trigger] keys[j], owned),
    ensures
        first_missing(keys, owned) == Some(keys[i]),
    decreases keys.len(),
{
    let front = keys.drop_last();
    assert forall|j: int| 0 <= j < i implies !not_owned(#[trigger] front[j], owned) by {
        assert(keys[j] == front[j]);
    }
    if i < keys.len() - 1 {
        assert(front[i] == keys[i]);
        law_first_missing_partition(front, owned, i);
    } else {
        law_no_missing_partition(front, owned);
    }
}

/// Whether a partition is not owned.
pub open spec fn not_owned(key: PartitionKey, owned: Set<PartitionKey>) -> bool {
    !owned.contains(key)
}

/// A pause is that of the ownership that the partition has when it is paused, and
/// is in effect while the partition has that ownership. The other pauses stay.
pub proof fn law_pauses(
    paused: Map<PartitionKey, u64>,
    keys: Seq<PartitionKey>,
    ids: Map<PartitionKey, u64>,
    later: Map<PartitionKey, u64>,
    key: PartitionKey,
)
    ensures
        ({
            let after = paused_more(paused, keys, ids);
            let effect = pauses_in_effect(paused, later);
            &&& after.contains_key(key) <==> paused.contains_key(key) || keys.contains(key)
            &&& keys.contains(key) ==> after[key] == ids[key]
            &&& !keys.contains(key) && paused.contains_key(key) ==> after[key] == paused[key]
            &&& effect.contains_key(key) <==> paused.contains_key(key) && later.contains_key(key)
                && later[key] == paused[key]
            &&& effect.contains_key(key) ==> effect[key] == paused[key]
        }),
{
}

/// A poll is refused where nothing is subscribed or assigned, else for a wakeup,
/// else for an error of the group work. A wakeup and an error are then gone.
pub proof fn law_refused_polls(consumer: Consumer, error: ConsumerError)
    ensures
        ({
            let s = consumer.subscription;
            let idle = s.topics@.len() == 0 && s.pattern is None && s.regex is None
                && !s.manual_assignment;
            let woken = consumer.wakeup_pending;
            let after = consumer.poll_started();
            &&& consumer.poll_accepted() <==> !idle && !woken && consumer.poll_error is None
            &&& consumer.poll_refused(error) <==> {
                if idle {
                    error is NotSubscribed
                } else if woken {
                    error is Wakeup
                } else {
                    consumer.poll_error is Some && consumer.poll_error->Some_0 == error
                }
            }
            &&& after.wakeup_pending <==> woken && idle
            &&& after.poll_error == if idle || woken {
                consumer.poll_error
            } else {
                None
            }
            &&& after.next_offsets == consumer.next_offsets
            &&& after.fetch_buffer == consumer.fetch_buffer
            &&& after.assigned == consumer.assigned
        }),
{
}

/// While a join is asked for a poll waits, unless a cooperative member still has
/// partitions and no listener call failed. Without one it goes on, or fails with
/// the error of the listener call. Of two errors the first counts.
pub proof fn law_polls_during_a_join(
    consumer: Consumer,
    error: Option<ConsumerError>,
    next: Option<ConsumerError>,
)
    ensures
        ({
            let wait = consumer.rebalance_wait(error);
            let keeps = consumer.settings.rebalance_protocol == RebalanceProtocol::Cooperative
                && exists|k: PartitionKey| #[trigger] consumer.assigned@.contains(k);
            &&& wait is GoOn <==> error is None && (!consumer.rebalance_pending || keeps)
            &&& wait is Fail <==> error is Some && !consumer.rebalance_pending
            &&& wait is Fail ==> wait->Fail_0 == error->Some_0
            &&& wait is Wait ==> wait->Wait_0 == error
            &&& error is Some ==> first_of(error, next) == error
            &&& error is None ==> first_of(error, next) == next
        }),
{
    if consumer.assigned@ != Set::<PartitionKey>::empty() {
        if forall|k: PartitionKey| !#[trigger] consumer.assigned@.contains(k) {
            assert(consumer.assigned@ =~= Set::<PartitionKey>::empty());
        }
    }
}

/// A subscription has exactly the given topics, in order, and no pattern. What
/// was fetched of other topics is dropped; assignment and offsets stay.
pub proof fn law_subscriptions(
    before: Consumer,
    topics: Seq<String>,
    after: Consumer,
    topic: Seq<char>,
)
    requires
        before.subscribed_to(topics, after),
    ensures
        (exists|i: int|
            0 <= i < after.subscription.topics@.len() && (
            #[trigger] after.subscription.topics@[i])@ == topic) <==> (exists|i: int|
            0 <= i < topics.len() && (#[trigger] topics[i])@ == topic),
        forall|i: int, j: int|
            0 <= i < j < after.subscription.topics@.len() ==> text_before(
                (#[trigger] after.subscription.topics@[i])@,
                (#[trigger] after.subscription.topics@[j])@,
            ),
        after.subscription.pattern is None,
        after.subscription.regex is None,
        after.subscription.manual_assignment == before.subscription.manual_assignment,
        after.subscription.unsubscribes == before.subscription.unsubscribes,
        before.subscription.version < u64::MAX ==> after.subscription.version
            == before.subscription.version + 1,
        after.metadata_topics@.len() == topics.len(),
        after.fetch_buffer@ == of_topics(before.fetch_buffer@, text_set(topics)),
        after.next_offsets == before.next_offsets,
        after.positions == before.positions,
        after.assigned == before.assigned,
        after.fetches == before.fetches,
{
    let had = topics;
    let has = after.subscription.topics@;
    lemma_text_set(had, topic);
    lemma_text_set(has, topic);
    assert forall|i: int, j: int| 0 <= i < j < has.len() implies text_before(
        (#[trigger] has[i])@,
        (#[trigger] has[j])@,
    ) by {
        assert(views(has)[i] == has[i]@ && views(has)[j] == has[j]@);
        assert(<String as MapKey>::before(views(has)[i], views(has)[j]));
    }
    assert(views(after.metadata_topics@).len() == views(topics).len());
    assert(views(after.metadata_topics@).len() == after.metadata_topics@.len());
}

proof fn lemma_text_set(texts: Seq<String>, text: Seq<char>)
    ensures
        text_set(texts).contains(text) <==> exists|i: int|
            0 <= i < texts.len() && (#[trigger] texts[i])@ == text,
{
    if text_set(texts).contains(text) {
        let i = choose|i: int| 0 <= i < views(texts).len() && views(texts)[i] == text;
        assert(texts[i]@ == text);
    }
    if exists|i: int| 0 <= i < texts.len() && (#[trigger] texts[i])@ == text {
        let i = choose|i: int| 0 <= i < texts.len() && (#[trigger] texts[i])@ == text;
        assert(views(texts)[i] == text);
    }
}

/// What is added to a list of partitions goes to its end, each once and only
/// where it is not there yet.
pub proof fn law_added_partitions(
    list: Seq<PartitionKey>,
    a: Seq<PartitionKey>,
    b: Seq<PartitionKey>,
    x: PartitionKey,
)
    ensures
        with_new(list, a + b) == with_new(with_new(list, a), b),
        with_new(list, seq![x]) == if list.contains(x) {
            list
        } else {
            list.push(x)
        },
    decreases b.len(),
{
    let none = Seq::<PartitionKey>::empty();
    assert(seq![x].drop_last() =~= none);
    assert(seq![x].last() == x);
    assert(with_new(list, none) == list);
    if b.len() == 0 {
        assert(a + b =~= a);
    } else {
        law_added_partitions(list, a, b.drop_last(), x);
        assert((a + b).drop_last() =~= a + b.drop_last());
        assert((a + b).last() == b.last());
    }
}

/// The offset that is reported of a partition is its own, or -1.
pub proof fn law_reported_offsets(offsets: Map<PartitionKey, i64>, key: PartitionKey)
    ensures
        offsets.contains_key(key) ==> offset_or_unknown(offsets, key) == offsets[key],
        !offsets.contains_key(key) ==> offset_or_unknown(offsets, key) == -1,
{
}

/// Positions are updated in the order of leader epochs, committed offsets, resets
/// and validation.
pub proof fn law_stages_of_an_update()
    ensures
        step_after(UpdateStage::LeaderEpochs) == UpdateStep::Next(UpdateStage::CommittedOffsets),
        step_after(UpdateStage::CommittedOffsets) == UpdateStep::Next(UpdateStage::Resets),
        step_after(UpdateStage::Resets) == UpdateStep::Next(UpdateStage::Validation),
        step_after(UpdateStage::Validation) == UpdateStep::Done,
{
}

/// A lookup request has a row for each partition that it is asked for, with its
/// epoch and the timestamp of the lookup.
pub proof fn law_lookup_requests(
    request: ListOffsetsRequest,
    isolation: IsolationLevel,
    timestamp: i64,
    specs: spec_fn(Seq<char>) -> Seq<ListOffsetsSpec>,
    t: int,
    p: int,
)
    requires
        asks(request, isolation, timestamp, specs),
        0 <= t < request.topics@.len(),
    ensures
        ({
            let topic = request.topics@[t];
            let asked = specs(topic.name@);
            &&& topic.partitions@.len() == asked.len()
            &&& 0 <= p < asked.len() ==> {
                &&& topic.partitions@[p].partition_index == asked[p].0
                &&& topic.partitions@[p].current_leader_epoch == asked[p].1.0
                &&& topic.partitions@[p].timestamp == timestamp
            }
        }),
        request.replica_id == -1,
        isolation == IsolationLevel::ReadCommitted ==> request.isolation_level == 1,
        isolation == IsolationLevel::ReadUncommitted ==> request.isolation_level == 0,
{
    assert(request.topics@[t].partitions@.len() > 0);
}

/// The data of an answer goes behind what is buffered, in its order.
pub proof fn law_fetched_data_goes_to_the_end(
    had: Seq<BufferedModel>,
    fetched: Seq<FetchedModel>,
    now: Seq<BufferedModel>,
    i: int,
)
    requires
        buffered_after(had, fetched, now),
    ensures
        now.len() == had.len() + fetched.len(),
        0 <= i < had.len() ==> now[i] == had[i],
        0 <= i < fetched.len() ==> {
            let part = now[had.len() + i];
            &&& part.key == fetched[i].key
            &&& part.position == fetched[i].position
            &&& part.next_offset == fetched[i].next_offset
            &&& part.last_epoch == fetched[i].last_epoch
            &&& record_models(part.records) == fetched[i].records
        },
{
    if 0 <= i < had.len() {
        assert(now.take(had.len() as int)[i] == had[i]);
    }
    if 0 <= i < fetched.len() {
        assert(pushed_models(had, now)[i] == fetched[i]);
    }
}

/// Whether a commit names a partition with an offset and an epoch.
pub open spec fn commits(
    topics: Seq<OffsetCommitTopic>,
    key: PartitionKey,
    offset: i64,
    epoch: i32,
) -> bool {
    exists|t: int, p: int|
        0 <= t < topics.len() && 0 <= p < topics[t].partitions@.len() && topics[t].name@ == key.0
            && (#[trigger] topics[t].partitions@[p]).partition_index == key.1
            && topics[t].partitions@[p].committed_offset == offset
            && topics[t].partitions@[p].committed_leader_epoch == epoch
}

proof fn lemma_commit_rows(topics: Seq<OffsetCommitTopic>, row: CommitRow)
    ensures
        commit_rows(topics).contains(row) <==> commits(topics, row.0, row.1.0, row.1.1),
    decreases topics.len(),
{
    if topics.len() > 0 {
        let front = topics.drop_last();
        let before = commit_rows(front);
        let own = commit_topic_rows(topics.last());
        let all = commit_rows(topics);
        let n = topics.len() - 1;
        lemma_commit_rows(front, row);
        assert(topics[n] == topics.last());
        if all.contains(row) {
            let i = choose|i: int| 0 <= i < all.len() && all[i] == row;
            if i < before.len() {
                assert(before[i] == row);
                let (t, p) = choose|t: int, p: int|
                    0 <= t < front.len() && 0 <= p < front[t].partitions@.len() && front[t].name@
                        == row.0.0 && (#[trigger] front[t].partitions@[p]).partition_index
                        == row.0.1 && front[t].partitions@[p].committed_offset == row.1.0
                        && front[t].partitions@[p].committed_leader_epoch == row.1.1;
                assert(topics[t].partitions@[p] == front[t].partitions@[p]);
            } else {
                assert(own[i - before.len()] == row);
                assert(topics[n].partitions@[i - before.len()].partition_index == row.0.1);
            }
        }
        if commits(topics, row.0, row.1.0, row.1.1) {
            let (t, p) = choose|t: int, p: int|
                0 <= t < topics.len() && 0 <= p < topics[t].partitions@.len() && topics[t].name@
                    == row.0.0 && (#[trigger] topics[t].partitions@[p]).partition_index == row.0.1
                    && topics[t].partitions@[p].committed_offset == row.1.0
                    && topics[t].partitions@[p].committed_leader_epoch == row.1.1;
            if t < n {
                assert(front[t].partitions@[p] == topics[t].partitions@[p]);
                assert(before.contains(row));
                let i = choose|i: int| 0 <= i < before.len() && before[i] == row;
                assert(all[i] == row);
            } else {
                assert(own[p] == row);
                assert(all[before.len() + p] == row);
            }
        }
    }
}

/// The topics of a commit name exactly the given offsets, each for its partition
/// and with its epoch.
pub proof fn law_commits_name_the_given_offsets(
    offsets: SortedMap<TopicPartition, OffsetAndEpoch>,
    topics: Seq<OffsetCommitTopic>,
    key: PartitionKey,
    offset: i64,
    epoch: i32,
)
    requires
        commit_rows(topics) == offsets.entries(),
        offsets.keys_listed(),
    ensures
        commits(topics, key, offset, epoch) <==> offsets@.contains_key(key) && offsets@[key] == (
            offset,
            epoch,
        ),
{
    let row = (key, (offset, epoch));
    let entries = offsets.entries();
    lemma_commit_rows(topics, row);
    assert(entries.len() == offsets.keys().len());
    if offsets@.contains_key(key) && offsets@[key] == (offset, epoch) {
        assert(offsets.keys().contains(key));
        let i = choose|i: int| 0 <= i < offsets.keys().len() && offsets.keys()[i] == key;
        assert(entries[i] == row);
    }
    if entries.contains(row) {
        let i = choose|i: int| 0 <= i < entries.len() && entries[i] == row;
        assert(offsets.keys()[i] == key);
        assert(offsets.keys().contains(key));
    }
}

/// A text stands before each text that it begins, and of two texts with a common
/// start the one with the smaller next character comes first. None stands before
/// itself.
pub proof fn law_order_of_texts(
    start: Seq<char>,
    a: char,
    b: char,
    rest: Seq<char>,
    other: Seq<char>,
)
    ensures
        text_before(start, start.push(a) + rest),
        !text_before(start.push(a) + rest, start),
        a < b ==> text_before(start.push(a) + rest, start.push(b) + other),
        a < b ==> !text_before(start.push(b) + other, start.push(a) + rest),
        !text_before(start, start),
{
    let x = start.push(a) + rest;
    let y = start.push(b) + other;
    let n = start.len() as int;
    assert(differs_at(start, x, n));
    if a < b {
        assert(differs_at(x, y, n));
        if text_before(y, x) {
            lemma_text_before_transitive(x, y, x);
            lemma_text_before_irreflexive(x);
        }
    }
    if text_before(x, start) {
        lemma_text_before_transitive(start, x, start);
    }
    lemma_text_before_irreflexive(start);
}

/// Keys are ordered by topic and then by partition, and numbers by their value.
pub proof fn law_order_of_keys(a: PartitionKey, b: PartitionKey, m: i32, n: i32)
    ensures
        a.0 == b.0 ==> (<TopicPartition as MapKey>::before(a, b) <==> a.1 < b.1),
        a.0 != b.0 ==> (<TopicPartition as MapKey>::before(a, b) <==> text_before(a.0, b.0)),
        <i32 as MapKey>::before(m, n) <==> m < n,
{
    if a.0 == b.0 {
        lemma_text_before_irreflexive(a.0);
    }
}

/// The number that a text of digits stands for.
pub open spec fn number(text: Seq<char>) -> int
    decreases text.len(),
{
    if text.len() == 0 {
        0
    } else {
        10 * number(text.drop_last()) + (text.last() as int - 48)
    }
}

proof fn lemma_digit(d: int)
    requires
        0 <= d < 10,
    ensures
        digit(d).len() == 1,
        digit(d)[0] as int == 48 + d,
{
    reveal_strlit("0");
    reveal_strlit("1");
    reveal_strlit("2");
    reveal_strlit("3");
    reveal_strlit("4");
    reveal_strlit("5");
    reveal_strlit("6");
    reveal_strlit("7");
    reveal_strlit("8");
    reveal_strlit("9");
}

/// The digits of a number are decimal digits without leading zeros that stand
/// for the number, and a negative number has a minus sign in front.
pub proof fn law_decimal_texts(n: nat)
    ensures
        number(digits(n)) == n,
        digits(n).len() > 0,
        forall|i: int| 0 <= i < digits(n).len() ==> 48 <= #[trigger] digits(n)[i] as int <= 57,
        n > 0 ==> digits(n)[0] as int != 48,
        decimal(n as int) == digits(n),
        n > 0 ==> decimal(-(n as int)).len() == digits(n).len() + 1 && decimal(-(n as int))[0]
            == '-' && decimal(-(n as int)).skip(1) == digits(n),
    decreases n,
{
    reveal_strlit("-");
    if n < 10 {
        lemma_digit(n as int);
        let text = digits(n);
        assert(text.drop_last().len() == 0);
        assert(number(text.drop_last()) == 0);
    } else {
        law_decimal_texts(n / 10);
        lemma_digit((n % 10) as int);
        let text = digits(n);
        assert(text.drop_last() =~= digits(n / 10));
        assert(text.last() as int == 48 + n % 10);
    }
    if n > 0 {
        assert(decimal(-(n as int)).skip(1) =~= digits(n));
    }
}

/// Joined texts have the separator between neighbours and nowhere else.
pub proof fn law_joined_texts(
    a: Seq<Seq<char>>,
    b: Seq<Seq<char>>,
    x: Seq<char>,
    separator: Seq<char>,
)
    requires
        a.len() > 0,
        b.len() > 0,
    ensures
        joined(a + b, separator) == joined(a, separator) + separator + joined(b, separator),
        joined(seq![x], separator) == x,
        joined(seq![], separator).len() == 0,
    decreases b.len(),
{
    assert((a + b).drop_last() =~= a + b.drop_last());
    assert((a + b).last() == b.last());
    if b.len() == 1 {
        assert(a + b.drop_last() =~= a);
    } else {
        law_joined_texts(a, b.drop_last(), x, separator);
        assert(joined(a + b, separator) =~= joined(a, separator) + separator + joined(
            b,
            separator,
        ));
    }
}

/// The name of a partition is its topic and its number.
pub proof fn law_partition_names(topic: Seq<char>, partition: int)
    ensures
        partition_name(topic, partition).take(topic.len() as int) == topic,
        partition_name(topic, partition)[topic.len() as int] == '-',
        partition_name(topic, partition).skip(topic.len() as int + 1) == decimal(partition),
{
    reveal_strlit("-");
    assert(partition_name(topic, partition).take(topic.len() as int) =~= topic);
    assert(partition_name(topic, partition).skip(topic.len() as int + 1) =~= decimal(partition));
}

/// A poll returns records where the buffer has any for it, and then sends
/// nothing. Without records it waits where nothing is assigned, and fetches
/// otherwise.
pub proof fn law_steps_of_a_poll(before: Consumer, now: Nanos, step: PollStep, after: Consumer)
    requires
        before.polled(now, step, after),
    ensures
        step matches PollStep::Records(records) ==> {
            &&& records@.len() > 0
            &&& before.drained_to(records@, after)
            &&& after.fetches == before.fetches
        },
        step is WaitForDeadline ==> after.fetches == before.fetches && forall|k: PartitionKey|
            !#[trigger] before.assigned@.contains(k),
        step matches PollStep::Fetch { requests, refresh } ==> {
            &&& exists|k: PartitionKey| #[trigger] before.assigned@.contains(k)
            &&& exists|middle: Consumer| #[trigger]
                before.drained_to(Seq::empty(), middle) && middle.fetching(
                    now,
                    requests@,
                    refresh,
                    after,
                )
        },
{
    let (out, middle) = choose|out: Seq<ConsumerRecord>, middle: Consumer| #[trigger]
        before.drained_to(out, middle) && if out.len() > 0 {
            step matches PollStep::Records(records) && records@ == out && after == middle
        } else if before.assigned@ == Set::<PartitionKey>::empty() {
            step is WaitForDeadline && after == middle
        } else {
            step matches PollStep::Fetch { requests, refresh } && middle.fetching(
                now,
                requests@,
                refresh,
                after,
            )
        };
    if out.len() == 0 {
        assert(out =~= Seq::empty());
    }
    if forall|k: PartitionKey| !#[trigger] before.assigned@.contains(k) {
        assert(before.assigned@ =~= Set::<PartitionKey>::empty());
    }
}

/// A consumer with a group and a membership in it can subscribe, unless it was
/// assigned by hand. Without a group the group id is missing; without a
/// membership, or with a manual assignment, the state does not allow it.
pub proof fn law_who_can_subscribe(consumer: Consumer, error: ConsumerError)
    ensures
        consumer.can_subscribe() <==> consumer.settings.group_id@.len() > 0
            && consumer.settings.group_membership && !consumer.subscription.manual_assignment,
        consumer.subscribe_error(error) ==> if consumer.settings.group_id@.len() == 0 {
            error is InvalidGroupId
        } else {
            error is IllegalState && error->IllegalState_0@
                == if consumer.settings.group_membership {
                MUTUALLY_EXCLUSIVE@
            } else {
                NO_GROUP_MEMBERSHIP@
            }
        },
        consumer.membership_error(error) ==> if consumer.settings.group_id@.len() == 0 {
            error is InvalidGroupId
        } else {
            error is IllegalState && error->IllegalState_0@ == NO_GROUP_MEMBERSHIP@
        },
{
}

/// A pattern is matched against the topics with a name, without the internal ones
/// where those are excluded.
pub proof fn law_topics_of_a_pattern(topic: MetadataTopic, exclude_internal: bool)
    ensures
        topic.name is None ==> !offered(topic, exclude_internal),
        topic.name is Some && !topic.is_internal ==> offered(topic, exclude_internal),
        topic.name is Some && topic.is_internal ==> offered(topic, exclude_internal)
            == !exclude_internal,
{
}

/// The error of a row names its partition and both offsets, or its code.
pub proof fn law_reported_failures(error: ConsumerError, failure: RowFailure)
    requires
        reports(error, failure),
    ensures
        match failure {
            RowFailure::Server(code) => error is Server && error->Server_0 == code,
            RowFailure::Truncation { key, fetch_offset, safe_offset } => match error {
                ConsumerError::LogTruncation {
                    topic,
                    partition,
                    fetch_offset: at,
                    safe_offset: safe,
                } => topic@ == key.0 && partition == key.1 && at == fetch_offset && safe
                    == safe_offset,
                _ => false,
            },
        },
{
}

/// Rows are read against the state of the consumer and its settings, with nothing
/// fetched yet.
pub proof fn law_rows_are_read_against_the_consumer(consumer: Consumer)
    ensures
        ({
            let s = consumer.rows_model();
            let c = consumer.row_context();
            &&& s.offsets == consumer.next_offsets@
            &&& s.positions == consumer.positions@
            &&& s.end_offsets == consumer.end_offsets@
            &&& s.fetched.len() == 0
            &&& s.out_of_range.len() == 0
            &&& s.polled_resets.len() == 0
            &&& s.replica_updates.len() == 0
            &&& !s.refresh
            &&& c.policy == consumer.settings.auto_offset_reset
            &&& c.isolation == consumer.settings.isolation_level
            &&& c.owned == consumer.assigned@
        }),
{
}

/// An error of a connection that may pass is tried again by the next poll. No
/// other error is.
pub proof fn law_errors_that_may_pass(error: ConsumerError)
    ensures
        transient_poll_error(error) <==> error is Client && may_pass(error->Client_0),
{
}

/// An offset fetch names each topic once, in order, with its partitions.
pub proof fn law_topics_of_an_offset_fetch(
    topics: Seq<OffsetFetchRequestTopic>,
    by_topic: SortedMap<String, Vec<i32>>,
    name: Seq<char>,
)
    requires
        names_topics(topics, by_topic),
        by_topic.keys_listed(),
    ensures
        forall|i: int|
            0 <= i < topics.len() ==> by_topic@.contains_key((#[trigger] topics[i]).name@)
                && topics[i].partition_indexes@ == by_topic@[topics[i].name@]@,
        by_topic@.contains_key(name) <==> exists|i: int|
            0 <= i < topics.len() && (#[trigger] topics[i]).name@ == name,
        forall|i: int, j: int|
            0 <= i < j < topics.len() ==> text_before(
                (#[trigger] topics[i]).name@,
                (#[trigger] topics[j]).name@,
            ),
{
    let keys = by_topic.keys();
    assert forall|i: int| 0 <= i < topics.len() implies by_topic@.contains_key(
        (#[trigger] topics[i]).name@,
    ) && topics[i].partition_indexes@ == by_topic@[topics[i].name@]@ by {
        assert(keys.contains(keys[i]));
    }
    assert forall|i: int, j: int| 0 <= i < j < topics.len() implies text_before(
        (#[trigger] topics[i]).name@,
        (#[trigger] topics[j]).name@,
    ) by {
        assert(<String as MapKey>::before(keys[i], keys[j]));
    }
    if by_topic@.contains_key(name) {
        assert(keys.contains(name));
        let i = choose|i: int| 0 <= i < keys.len() && keys[i] == name;
        assert(topics[i].name@ == name);
    }
}

/// The error for a partition that is not assigned names its topic and its number.
pub proof fn law_errors_of_missing_partitions(error: ConsumerError, key: PartitionKey)
    requires
        not_assigned(error, key),
    ensures
        match error {
            ConsumerError::NoCurrentAssignment { topic, partition } => topic@ == key.0 && partition
                == key.1,
            _ => false,
        },
{
}

} // verus!
