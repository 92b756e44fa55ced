//! What the fetch session of a broker is after each answer, and what a request
//! of the session carries, stated over the fields of the answers and requests.
use vstd::prelude::*;

use crate::collections::lemma_pushed;
use crate::config::IsolationLevel;
use crate::consumer::ConsumerSettings;
use crate::fetch::{
    fetch_rows, fetch_topic_rows, forgotten_keys, forgotten_rows, forgotten_topic_rows, rows_before,
    session_rows, FetchRequest, FetchTopic, ForgottenTopic,
};
use crate::fetch_flow::{carries, is_session, requests};
use crate::fetch_session::{
    epoch_after, forgotten_of, topic_replaced, FetchMetadata, FetchSession, Forgotten,
    SessionPartition, SessionRequest,
};
use crate::poll_answers::{closes, closing_request};
use crate::wire::{PartitionKey, Uuid};

verus! {

/// After an answer the session is: the answered one, at its first incremental
/// epoch, after a full request; the same one at the next epoch after an
/// incremental request, where the epoch after the last is 1; the same one to be
/// made anew after an error; and none where the broker does not know it, gave
/// none, or throttled a full request without an answer. Only an answer without
/// an error that was not throttled has usable rows.
pub proof fn law_session_after_an_answer(
    m: FetchMetadata,
    error_code: i16,
    session_id: i32,
    partitions: usize,
    throttle_time_ms: i32,
)
    ensures
        ({
            let after = m.metadata_after(error_code, session_id, partitions, throttle_time_ms);
            let full = m.epoch == 0 || m.epoch == -1;
            let throttled = full && partitions == 0 && throttle_time_ms > 0;
            &&& m.usable(error_code, partitions, throttle_time_ms) <==> error_code == 0
                && !throttled
            &&& error_code != 0 && error_code != 70 ==> after.session_id == m.session_id
                && after.epoch == 0
            &&& error_code == 70 || (error_code == 0 && (throttled || session_id == 0))
                ==> after.session_id == 0 && after.epoch == 0
            &&& error_code == 0 && !throttled && session_id != 0 && full ==> after.session_id
                == session_id && after.epoch == 1
            &&& error_code == 0 && session_id != 0 && !full ==> after.session_id == m.session_id
            &&& error_code == 0 && session_id != 0 && 0 < m.epoch < 2147483647 ==> after.epoch
                == m.epoch + 1
            &&& error_code == 0 && session_id != 0 && m.epoch == 2147483647 ==> after.epoch == 1
        }),
{
}

/// A session forgets the partitions that it has and that are no longer wanted, each
/// with the topic id that it has.
pub proof fn law_sessions_forget_what_is_not_wanted(
    a: Seq<PartitionKey>,
    b: Seq<PartitionKey>,
    x: PartitionKey,
    had: Map<PartitionKey, SessionPartition>,
    wanted: Map<PartitionKey, SessionPartition>,
)
    ensures
        forgotten_of(a + b, had, wanted)
            == forgotten_of(a, had, wanted) + forgotten_of(b, had, wanted),
        forgotten_of(seq![x], had, wanted) == {
            if wanted.contains_key(x) {
                seq![]
            } else {
                seq![(x, had[x].topic_id)]
            }
        },
    decreases b.len(),
{
    let none = Seq::<PartitionKey>::empty();
    assert(seq![x].drop_last() =~= none);
    assert(seq![x].last() == x);
    assert(forgotten_of(none, had, wanted) =~= Seq::<Forgotten>::empty());
    assert(forgotten_of(seq![x], had, wanted) =~= {
        if wanted.contains_key(x) {
            seq![]
        } else {
            seq![(x, had[x].topic_id)]
        }
    });
    if b.len() == 0 {
        assert(a + b =~= a);
        assert(b =~= none);
        assert(forgotten_of(a, had, wanted) + forgotten_of(b, had, wanted)
            =~= forgotten_of(a, had, wanted));
    } else {
        law_sessions_forget_what_is_not_wanted(a, b.drop_last(), x, had, wanted);
        assert((a + b).drop_last() =~= a + b.drop_last());
        assert((a + b).last() == b.last());
        assert(forgotten_of(a + b, had, wanted)
            =~= forgotten_of(a, had, wanted) + forgotten_of(b, had, wanted));
    }
}

proof fn lemma_forgotten_of(
    keys: Seq<PartitionKey>,
    had: Map<PartitionKey, SessionPartition>,
    wanted: Map<PartitionKey, SessionPartition>,
    x: Forgotten,
)
    ensures
        forgotten_of(keys, had, wanted).contains(x) <==> keys.contains(x.0) && !wanted.contains_key(
            x.0,
        ) && x.1 == had[x.0].topic_id,
    decreases keys.len(),
{
    if keys.len() > 0 {
        let front = keys.drop_last();
        let rest = forgotten_of(front, had, wanted);
        lemma_forgotten_of(front, had, wanted, x);
        assert(front.push(keys.last()) =~= keys);
        lemma_pushed(front, keys.last(), x.0);
        lemma_pushed(rest, (keys.last(), had[keys.last()].topic_id), x);
    }
}

/// Whether a partition of both has two different topic ids, both known.
pub open spec fn id_changed(
    had: Map<PartitionKey, SessionPartition>,
    wanted: Map<PartitionKey, SessionPartition>,
    k: PartitionKey,
) -> bool {
    had.contains_key(k) && wanted.contains_key(k) && had[k].topic_id.0 != wanted[k].topic_id.0
        && had[k].topic_id.0 != 0 && wanted[k].topic_id.0 != 0
}

/// A request of a session keeps the session id. It is full, with all wanted
/// partitions and none to forget, where the session has no epoch yet, is closed,
/// or a topic was replaced. Any other sends the new and the changed partitions,
/// and forgets those that are no longer wanted.
pub proof fn law_requests_of_a_session(
    had: FetchSession,
    wanted: Map<PartitionKey, SessionPartition>,
    r: SessionRequest,
    key: PartitionKey,
    id: Uuid,
)
    requires
        had.builds(wanted, r),
        had.partitions.keys_listed(),
    ensures
        ({
            let replaced = exists|k: PartitionKey| #[trigger]
                id_changed(had.partitions@, wanted, k);
            let full = had.next.epoch == 0 || had.next.epoch == -1 || replaced;
            &&& r.session_id == had.next.session_id
            &&& r.session_epoch == if replaced && had.next.epoch != -1 {
                0
            } else {
                had.next.epoch
            }
            &&& full ==> r.partitions@ == wanted && r.forgotten@.len() == 0
            &&& !full ==> {
                &&& r.partitions@.contains_key(key) <==> wanted.contains_key(key) && !(
                had.partitions@.contains_key(key) && had.partitions@[key] == wanted[key])
                &&& r.partitions@.contains_key(key) ==> r.partitions@[key] == wanted[key]
                &&& (exists|i: int|
                    0 <= i < r.forgotten@.len() && (#[trigger] r.forgotten@[i]).0@ == key
                        && r.forgotten@[i].1 == id) <==> had.partitions@.contains_key(key)
                    && !wanted.contains_key(key) && id == had.partitions@[key].topic_id
            }
        }),
{
    let now = had.partitions@;
    if topic_replaced(now, wanted) {
        let k = choose|k: PartitionKey| #[trigger]
            wanted.contains_key(k) && now.contains_key(k) && now[k].topic_id != wanted[k].topic_id
                && now[k].topic_id.0 != 0 && wanted[k].topic_id.0 != 0;
        assert(id_changed(now, wanted, k));
    }
    if exists|k: PartitionKey| #[trigger] id_changed(now, wanted, k) {
        let k = choose|k: PartitionKey| #[trigger] id_changed(now, wanted, k);
        assert(wanted.contains_key(k));
        assert(topic_replaced(now, wanted));
    }
    if !r.full() {
        let list = forgotten_of(had.partitions.keys(), now, wanted);
        lemma_forgotten_of(had.partitions.keys(), now, wanted, (key, id));
        assert(had.partitions.keys().contains(key) <==> now.contains_key(key));
        assert(r.forgets().len() == r.forgotten@.len());
        if list.contains((key, id)) {
            let i = choose|i: int| 0 <= i < list.len() && list[i] == (key, id);
            assert(r.forgets()[i] == (r.forgotten@[i].0@, r.forgotten@[i].1));
        }
        if exists|i: int|
            0 <= i < r.forgotten@.len() && (#[trigger] r.forgotten@[i]).0@ == key
                && r.forgotten@[i].1 == id {
            let i = choose|i: int|
                0 <= i < r.forgotten@.len() && (#[trigger] r.forgotten@[i]).0@ == key
                    && r.forgotten@[i].1 == id;
            assert(r.forgets()[i] == (key, id));
            assert(list.contains((key, id)));
        }
    }
}

/// Whether partition `p` of topic `t` of a request asks for a partition of the
/// session, from its offset and with its epochs and its size. A consumer sets no
/// log start, no directory and no high watermark of its own.
pub open spec fn asks_as_wanted(
    topic: FetchTopic,
    p: int,
    key: PartitionKey,
    data: SessionPartition,
) -> bool {
    &&& 0 <= p < topic.partitions@.len()
    &&& topic.topic@ == key.0
    &&& topic.partitions@[p].partition == key.1
    &&& topic.partitions@[p].fetch_offset == data.fetch_offset
    &&& topic.partitions@[p].current_leader_epoch == data.current_leader_epoch
    &&& topic.partitions@[p].last_fetched_epoch == data.last_fetched_epoch
    &&& topic.partitions@[p].partition_max_bytes == data.partition_max_bytes
    &&& topic.partitions@[p].log_start_offset == -1
    &&& topic.partitions@[p].replica_directory_id.0 == 0
    &&& topic.partitions@[p].high_watermark == 9223372036854775807i64
}

/// Whether a topic of the request asks for it.
pub open spec fn topics_ask(
    topics: Seq<FetchTopic>,
    key: PartitionKey,
    data: SessionPartition,
) -> bool {
    exists|t: int, p: int|
        0 <= t < topics.len() && #[trigger] asks_as_wanted(topics[t], p, key, data)
}

proof fn lemma_fetch_rows(topics: Seq<FetchTopic>, i: int)
    requires
        0 <= i < fetch_rows(topics).len(),
    ensures
        exists|t: int, p: int|
            0 <= t < topics.len() && 0 <= p < topics[t].partitions@.len() && fetch_rows(topics)[i]
                == (
                (topics[t].topic@, topics[t].partitions@[p].partition),
                #[trigger] topics[t].partitions@[p],
            ),
    decreases topics.len(),
{
    if topics.len() > 0 {
        let front = topics.drop_last();
        let before = fetch_rows(front);
        let n = topics.len() - 1;
        if i < before.len() {
            lemma_fetch_rows(front, i);
            let (t, p) = choose|t: int, p: int|
                0 <= t < front.len() && 0 <= p < front[t].partitions@.len() && before[i] == (
                    (front[t].topic@, front[t].partitions@[p].partition),
                    #[trigger] front[t].partitions@[p],
                );
            assert(topics[t].partitions@[p] == front[t].partitions@[p]);
        } else {
            let p = i - before.len();
            assert(fetch_topic_rows(topics.last())[p] == fetch_rows(topics)[i]);
            assert(topics[n].partitions@[p] == fetch_rows(topics)[i].1);
        }
    }
}

proof fn lemma_in_fetch_rows(topics: Seq<FetchTopic>, t: int, p: int)
    requires
        0 <= t < topics.len(),
        0 <= p < topics[t].partitions@.len(),
    ensures
        fetch_rows(topics).contains(
            (
                (topics[t].topic@, topics[t].partitions@[p].partition),
                topics[t].partitions@[p],
            ),
        ),
    decreases topics.len(),
{
    let front = topics.drop_last();
    let before = fetch_rows(front);
    let all = fetch_rows(topics);
    let row = ((topics[t].topic@, topics[t].partitions@[p].partition), topics[t].partitions@[p]);
    if t < front.len() {
        assert(front[t] == topics[t]);
        lemma_in_fetch_rows(front, t, p);
        let i = choose|i: int| 0 <= i < before.len() && before[i] == row;
        assert(all[i] == row);
    } else {
        assert(fetch_topic_rows(topics.last())[p] == row);
        assert(all[before.len() + p] == row);
    }
}

/// A fetch request asks for exactly the partitions of its session request, each
/// with its own offset, epochs and size, under the limits, the isolation level
/// and the rack of the settings.
pub proof fn law_fetch_requests_carry_their_session(
    request: FetchRequest,
    settings: ConsumerSettings,
    session: SessionRequest,
    key: PartitionKey,
    t: int,
    p: int,
)
    requires
        carries(request, settings, session),
        session.partitions.keys_listed(),
    ensures
        session.partitions@.contains_key(key) ==> topics_ask(
            request.topics@,
            key,
            session.partitions@[key],
        ),
        0 <= t < request.topics@.len() && 0 <= p < request.topics@[t].partitions@.len() ==> {
            let asked = (
                request.topics@[t].topic@,
                request.topics@[t].partitions@[p].partition,
            );
            &&& session.partitions@.contains_key(asked)
            &&& asks_as_wanted(request.topics@[t], p, asked, session.partitions@[asked])
        },
        request.replica_id == -1,
        request.session_id == session.session_id,
        request.session_epoch == session.session_epoch,
        request.max_wait_ms == settings.fetch_max_wait_ms,
        request.min_bytes == settings.fetch_min_bytes,
        request.max_bytes == settings.fetch_max_bytes,
        request.isolation_level == if settings.isolation_level == IsolationLevel::ReadCommitted {
            1i8
        } else {
            0i8
        },
        settings.client_rack is Some ==> request.rack_id@ == settings.client_rack->Some_0@,
        settings.client_rack is None ==> request.rack_id@.len() == 0,
{
    let entries = session.partitions.entries();
    let keys = session.partitions.keys();
    let rows = session_rows(entries);
    let topics = request.topics@;
    assert(fetch_rows(topics) == rows);
    assert(rows.len() == keys.len());
    if session.partitions@.contains_key(key) {
        assert(keys.contains(key));
        let i = choose|i: int| 0 <= i < keys.len() && keys[i] == key;
        assert(entries[i] == (key, session.partitions@[key]));
        assert(rows[i].0 == key);
        lemma_fetch_rows(topics, i);
        let (u, q) = choose|u: int, q: int|
            0 <= u < topics.len() && 0 <= q < topics[u].partitions@.len() && fetch_rows(topics)[i]
                == (
                (topics[u].topic@, topics[u].partitions@[q].partition),
                #[trigger] topics[u].partitions@[q],
            );
        assert(asks_as_wanted(topics[u], q, key, session.partitions@[key]));
    }
    if 0 <= t < topics.len() && 0 <= p < topics[t].partitions@.len() {
        lemma_in_fetch_rows(topics, t, p);
        let row = (
            (topics[t].topic@, topics[t].partitions@[p].partition),
            topics[t].partitions@[p],
        );
        let i = choose|i: int| 0 <= i < rows.len() && rows[i] == row;
        assert(entries[i] == (keys[i], session.partitions@[keys[i]]));
        assert(keys.contains(keys[i]));
        assert(rows[i].0 == keys[i]);
    }
}

proof fn lemma_fetch_row_at(topics: Seq<FetchTopic>, t: int, p: int)
    requires
        0 <= t < topics.len(),
        0 <= p < topics[t].partitions@.len(),
    ensures
        rows_before(topics, t) + p < fetch_rows(topics).len(),
        fetch_rows(topics)[rows_before(topics, t) + p] == (
            (topics[t].topic@, topics[t].partitions@[p].partition),
            topics[t].partitions@[p],
        ),
    decreases topics.len(),
{
    let front = topics.drop_last();
    if t < front.len() {
        assert(front[t] == topics[t]);
        assert(front.take(t) =~= topics.take(t));
        lemma_fetch_row_at(front, t, p);
    } else {
        assert(topics.take(t) =~= front);
        assert(fetch_topic_rows(topics.last())[p] == (
            (topics[t].topic@, topics[t].partitions@[p].partition),
            topics[t].partitions@[p],
        ));
    }
}

/// A topic of a fetch request has the id that the session has for its first
/// partition.
pub proof fn law_fetch_requests_carry_topic_ids(
    request: FetchRequest,
    settings: ConsumerSettings,
    session: SessionRequest,
    t: int,
)
    requires
        carries(request, settings, session),
        session.partitions.keys_listed(),
        0 <= t < request.topics@.len(),
    ensures
        ({
            let topic = request.topics@[t];
            let key = (topic.topic@, topic.partitions@[0].partition);
            &&& topic.partitions@.len() > 0
            &&& session.partitions@.contains_key(key)
            &&& topic.topic_id == session.partitions@[key].topic_id
        }),
{
    let topics = request.topics@;
    let entries = session.partitions.entries();
    let keys = session.partitions.keys();
    let at = rows_before(topics, t);
    assert(topics[t].partitions@.len() > 0);
    lemma_fetch_row_at(topics, t, 0);
    assert(session_rows(entries)[at].0 == entries[at].0);
    assert(entries[at].0 == keys[at]);
    assert(keys.contains(keys[at]));
}

proof fn lemma_forgotten_rows(topics: Seq<ForgottenTopic>, key: PartitionKey)
    ensures
        forgotten_rows(topics).contains(key) <==> exists|t: int|
            0 <= t < topics.len() && (#[trigger] topics[t]).topic@ == key.0
                && topics[t].partitions@.contains(key.1),
    decreases topics.len(),
{
    if topics.len() > 0 {
        let front = topics.drop_last();
        let before = forgotten_rows(front);
        let own = forgotten_topic_rows(topics.last());
        let all = forgotten_rows(topics);
        let n = topics.len() - 1;
        lemma_forgotten_rows(front, key);
        assert(topics[n] == topics.last());
        if all.contains(key) {
            let i = choose|i: int| 0 <= i < all.len() && all[i] == key;
            if i < before.len() {
                assert(before[i] == key);
                let t = choose|t: int|
                    0 <= t < front.len() && (#[trigger] front[t]).topic@ == key.0
                        && front[t].partitions@.contains(key.1);
                assert(topics[t] == front[t]);
            } else {
                assert(own[i - before.len()] == key);
                assert(topics[n].partitions@[i - before.len()] == key.1);
                assert(topics[n].partitions@.contains(key.1));
            }
        }
        if exists|t: int|
            0 <= t < topics.len() && (#[trigger] topics[t]).topic@ == key.0
                && topics[t].partitions@.contains(key.1) {
            let t = choose|t: int|
                0 <= t < topics.len() && (#[trigger] topics[t]).topic@ == key.0
                    && topics[t].partitions@.contains(key.1);
            if t < n {
                assert(front[t] == topics[t]);
                let i = choose|i: int| 0 <= i < before.len() && before[i] == key;
                assert(all[i] == key);
            } else {
                let p = choose|p: int|
                    0 <= p < topics[t].partitions@.len() && topics[t].partitions@[p] == key.1;
                assert(own[p] == key);
                assert(all[before.len() + p] == key);
            }
        }
    }
}

/// A fetch request forgets exactly the partitions that its session forgets.
pub proof fn law_fetch_requests_forget_as_their_session(
    request: FetchRequest,
    settings: ConsumerSettings,
    session: SessionRequest,
    key: PartitionKey,
)
    requires
        carries(request, settings, session),
    ensures
        (exists|t: int|
            0 <= t < request.forgotten_topics_data@.len() && (
            #[trigger] request.forgotten_topics_data@[t]).topic@ == key.0
                && request.forgotten_topics_data@[t].partitions@.contains(key.1)) <==> (exists|
            i: int,
        |
            0 <= i < session.forgotten@.len() && (#[trigger] session.forgotten@[i]).0@ == key),
{
    let topics = request.forgotten_topics_data@;
    let keys = forgotten_keys(session.forgets());
    lemma_forgotten_rows(topics, key);
    assert(keys.len() == session.forgotten@.len());
    if keys.contains(key) {
        let i = choose|i: int| 0 <= i < keys.len() && keys[i] == key;
        assert(session.forgets()[i] == (session.forgotten@[i].0@, session.forgotten@[i].1));
        assert(session.forgotten@[i].0@ == key);
    }
    if exists|i: int|
        0 <= i < session.forgotten@.len() && (#[trigger] session.forgotten@[i]).0@ == key {
        let i = choose|i: int|
            0 <= i < session.forgotten@.len() && (#[trigger] session.forgotten@[i]).0@ == key;
        assert(session.forgets()[i] == (session.forgotten@[i].0@, session.forgotten@[i].1));
        assert(keys[i] == key);
    }
}

/// A request that closes a session has its id, the last epoch, and neither
/// partitions to fetch nor to forget.
pub proof fn law_closing_requests(
    request: FetchRequest,
    settings: ConsumerSettings,
    session_id: i32,
    t: int,
)
    requires
        closing_request(request, settings, session_id),
    ensures
        request.session_id == session_id,
        request.session_epoch == -1,
        fetch_rows(request.topics@).len() == 0,
        forgotten_rows(request.forgotten_topics_data@).len() == 0,
        0 <= t < request.topics@.len() ==> request.topics@[t].partitions@.len() == 0,
{
    let session = choose|session: SessionRequest| #[trigger]
        carries(request, settings, session) && closes(session, session_id);
    assert(session_rows(session.partitions.entries()).len() == 0);
    assert(forgotten_keys(session.forgets()).len() == 0);
    if 0 <= t < request.topics@.len() && request.topics@[t].partitions@.len() > 0 {
        lemma_in_fetch_rows(request.topics@, t, 0);
    }
}

/// The epoch after the initial one is 1, and so is the one after the last. A
/// closed session stays closed, and any other epoch counts up.
pub proof fn law_next_epochs(epoch: int)
    ensures
        epoch == 0 || epoch == 2147483647 ==> epoch_after(epoch) == 1,
        epoch < 0 ==> epoch_after(epoch) == -1,
        0 < epoch < 2147483647 ==> epoch_after(epoch) == epoch + 1,
{
}

/// A request to a broker goes on with the session that the broker has, and a
/// broker without one gets a full request outside any session. A full request
/// asks for all wanted partitions, each from its own offset; every request has
/// the limits and the isolation level of the settings, and none asks for a
/// partition that is not wanted.
pub proof fn law_requests_to_a_broker(
    sessions: Map<i32, FetchSession>,
    settings: ConsumerSettings,
    broker: i32,
    wanted: Map<PartitionKey, SessionPartition>,
    request: FetchRequest,
    key: PartitionKey,
    t: int,
    p: int,
)
    requires
        requests(sessions, settings, broker, wanted, request),
    ensures
        !sessions.contains_key(broker) ==> request.session_id == 0 && request.session_epoch == 0,
        sessions.contains_key(broker) ==> request.session_id
            == sessions[broker].next.session_id && (request.session_epoch
            == sessions[broker].next.epoch || request.session_epoch == 0),
        (request.session_epoch == 0 || request.session_epoch == -1) && wanted.contains_key(key)
            ==> topics_ask(request.topics@, key, wanted[key]),
        sessions.contains_key(broker) && wanted.contains_key(key) && !(
        sessions[broker].partitions@.contains_key(key) && sessions[broker].partitions@[key]
            == wanted[key]) ==> topics_ask(request.topics@, key, wanted[key]),
        0 <= t < request.topics@.len() && 0 <= p < request.topics@[t].partitions@.len() ==> {
            let asked = (
                request.topics@[t].topic@,
                request.topics@[t].partitions@[p].partition,
            );
            &&& wanted.contains_key(asked)
            &&& asks_as_wanted(request.topics@[t], p, asked, wanted[asked])
        },
        request.max_bytes == settings.fetch_max_bytes,
        request.min_bytes == settings.fetch_min_bytes,
        request.max_wait_ms == settings.fetch_max_wait_ms,
        request.isolation_level == 1 <==> settings.isolation_level == IsolationLevel::ReadCommitted,
{
    let (had, session) = choose|had: FetchSession, session: SessionRequest|
        is_session(had, sessions, broker) && #[trigger] had.builds(wanted, session)
            && session.partitions.keys_listed() && carries(request, settings, session);
    law_fetch_requests_carry_their_session(request, settings, session, key, t, p);
}

proof fn lemma_forgotten_row_at(topics: Seq<ForgottenTopic>, t: int, p: int)
    requires
        0 <= t < topics.len(),
        0 <= p < topics[t].partitions@.len(),
    ensures
        forgotten_rows(topics.take(t)).len() + p < forgotten_rows(topics).len(),
        forgotten_rows(topics)[forgotten_rows(topics.take(t)).len() + p] == (
            topics[t].topic@,
            topics[t].partitions@[p],
        ),
    decreases topics.len(),
{
    let front = topics.drop_last();
    if t < front.len() {
        assert(front[t] == topics[t]);
        assert(front.take(t) =~= topics.take(t));
        lemma_forgotten_row_at(front, t, p);
    } else {
        assert(topics.take(t) =~= front);
        assert(forgotten_topic_rows(topics.last())[p] == (
            topics[t].topic@,
            topics[t].partitions@[p],
        ));
    }
}

/// A topic to forget has the id that the session forgets its first partition
/// with.
pub proof fn law_fetch_requests_forget_topic_ids(
    request: FetchRequest,
    settings: ConsumerSettings,
    session: SessionRequest,
    t: int,
)
    requires
        carries(request, settings, session),
        0 <= t < request.forgotten_topics_data@.len(),
    ensures
        ({
            let topic = request.forgotten_topics_data@[t];
            &&& topic.partitions@.len() > 0
            &&& exists|i: int|
                0 <= i < session.forgotten@.len() && (#[trigger] session.forgotten@[i]).0@ == (
                    topic.topic@,
                    topic.partitions@[0],
                ) && session.forgotten@[i].1 == topic.topic_id
        }),
{
    let topics = request.forgotten_topics_data@;
    let at = forgotten_rows(topics.take(t)).len() as int;
    assert(topics[t].partitions@.len() > 0);
    lemma_forgotten_row_at(topics, t, 0);
    let forgets = session.forgets();
    assert(forgotten_keys(forgets)[at] == forgets[at].0);
    assert(forgets[at] == (session.forgotten@[at].0@, session.forgotten@[at].1));
    assert(session.forgotten@[at].0@ == (topics[t].topic@, topics[t].partitions@[0]));
}

} // verus!
