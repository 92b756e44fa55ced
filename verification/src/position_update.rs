//! The update of fetch positions: resets, committed offsets, truncations.
use vstd::prelude::*;

use crate::collections::{ascending, lemma_take_next, SortedMap};
use crate::config::{AutoOffsetReset, IsolationLevel};
use crate::consumer::Consumer;
use crate::error::{ClientError, ConsumerError};
use crate::fetch_flow::{connection_action, drop_connection, ConnectionAction};
use crate::grouping::{listed_for, no_empty_broker, no_empty_list};
use crate::list_offsets::{
    build_offsets_request, group_list_offsets, is_transient_poll_error,
    is_transient_transport_error, key_views, keys_at, keys_with, list_offsets_min_version,
    offsets_specs, policy_timestamp, reset_timestamp, spec_rows, transient_poll_error,
    transient_transport_error, with_min_version, ListOffsetsRequest, ListOffsetsResponse,
    ListOffsetsResult, ListOffsetsSpec, ListOffsetsTopic, VersionedListOffsets,
    BEGINNING_SENTINEL, COMMITTED_SENTINEL, EARLIEST_TIMESTAMP, END_SENTINEL, LATEST_SENTINEL,
    LATEST_TIMESTAMP,
};
use crate::offset_wire::{committed_view, CommittedModel, OffsetAndMetadata};
use crate::poll_answers::unauthorized_error;
use crate::position::{position_of, position_or_default, PartitionPosition, PositionMap};
use crate::wire::{copy_key, LeaderEpoch, PartitionKey, TopicPartition};

verus! {

/// The names of the topics of a request.
pub open spec fn request_names(topics: Seq<ListOffsetsTopic>) -> Seq<Seq<char>> {
    Seq::new(topics.len(), |i: int| topics[i].name@)
}

/// Whether a list offsets request asks for the partitions that `specs` gives
/// for each topic, all at one timestamp.
pub open spec fn asks(
    request: ListOffsetsRequest,
    isolation: IsolationLevel,
    timestamp: i64,
    specs: spec_fn(Seq<char>) -> Seq<ListOffsetsSpec>,
) -> bool {
    &&& request.replica_id == -1
    &&& request.isolation_level == isolation.code()
    &&& request.timeout_ms == 0
    &&& ascending::<String>(request_names(request.topics@))
    &&& forall|i: int|
        0 <= i < request.topics@.len() ==> {
            &&& (#[trigger] request.topics@[i]).partitions@.len() > 0
            &&& request.topics@[i].partitions@ == spec_rows(
                specs(request.topics@[i].name@),
                timestamp,
            )
        }
    &&& forall|t: Seq<char>| #[trigger]
        specs(t).len() > 0 ==> request_names(request.topics@).contains(t)
}

impl Consumer {
    /// The partitions of `keys` that a broker is asked for on a topic.
    pub open spec fn list_specs(self, keys: Seq<PartitionKey>, broker: i32) -> spec_fn(
        Seq<char>,
    ) -> Seq<ListOffsetsSpec> {
        |t: Seq<char>| offsets_specs(keys, self.positions@, self.known_brokers@, broker, t)
    }

    /// The list offsets requests for `keys`, one for each broker that has a
    /// partition of them, with the isolation level of the consumer and the
    /// leader epochs of its positions.
    ///
    /// The caller sends the requests and hands each answer to
    /// [`list_offsets_answered`].
    pub fn list_offsets(&self, keys: &Vec<TopicPartition>, timestamp: i64) -> (r: Vec<
        (i32, VersionedListOffsets),
    >)
        ensures
            forall|i: int, j: int| 0 <= i < j < r@.len() ==> (#[trigger] r@[i]).0 < (#[trigger]
                r@[j]).0,
            forall|i: int|
                0 <= i < r@.len() ==> {
                    &&& (#[trigger] r@[i]).1.min_version == list_offsets_min_version(
                        self.settings.isolation_level,
                        false,
                    )
                    &&& r@[i].1.request.topics@.len() > 0
                    &&& asks(
                        r@[i].1.request,
                        self.settings.isolation_level,
                        timestamp,
                        self.list_specs(key_views(keys@), r@[i].0),
                    )
                },
            forall|b: i32, t: Seq<char>|
                (#[trigger] offsets_specs(
                    key_views(keys@),
                    self.positions@,
                    self.known_brokers@,
                    b,
                    t,
                )).len() > 0 ==> exists|i: int| 0 <= i < r@.len() && (#[trigger] r@[i]).0 == b,
    {
        let grouped = group_list_offsets(keys, &self.positions, &self.known_brokers);
        let n = grouped.len();
        let ghost brokers = grouped.keys();
        let ghost views = key_views(keys@);
        let mut out: Vec<(i32, VersionedListOffsets)> = Vec::new();
        let mut i: usize = 0;
        while i < n
            invariant
                n == brokers.len(),
                brokers == grouped.keys(),
                grouped.keys_listed(),
                no_empty_broker(grouped@),
                views == key_views(keys@),
                forall|b: i32, t: Seq<char>| #[trigger]
                    listed_for(grouped@, b, t) == offsets_specs(
                        views,
                        self.positions@,
                        self.known_brokers@,
                        b,
                        t,
                    ),
                i <= n,
                out@.len() == i,
                forall|j: int| 0 <= j < i ==> (#[trigger] out@[j]).0 == brokers[j],
                forall|j: int|
                    0 <= j < i ==> {
                        &&& (#[trigger] out@[j]).1.min_version == list_offsets_min_version(
                            self.settings.isolation_level,
                            false,
                        )
                        &&& out@[j].1.request.topics@.len() > 0
                        &&& asks(
                            out@[j].1.request,
                            self.settings.isolation_level,
                            timestamp,
                            self.list_specs(views, out@[j].0),
                        )
                    },
            decreases n - i,
        {
            let broker = *grouped.key_at(i);
            let by_topic = grouped.value_at(i);
            let request = build_offsets_request(
                by_topic,
                timestamp,
                self.settings.isolation_level,
            );
            proof {
                let specs = self.list_specs(views, broker);
                assert(grouped@.contains_key(broker));
                assert(no_empty_list(grouped@[broker]@));
                assert(request_names(request.topics@) =~= by_topic.keys());
                assert forall|j: int| 0 <= j < request.topics@.len() implies {
                    &&& (#[trigger] request.topics@[j]).partitions@.len() > 0
                    &&& request.topics@[j].partitions@ == spec_rows(
                        specs(request.topics@[j].name@),
                        timestamp,
                    )
                } by {
                    let t = by_topic.keys()[j];
                    assert(by_topic.keys().contains(t));
                    assert(by_topic@.contains_key(t));
                    assert(listed_for(grouped@, broker, t) == specs(t));
                }
                assert forall|t: Seq<char>| #[trigger] specs(t).len() > 0 implies request_names(
                    request.topics@,
                ).contains(t) by {
                    assert(listed_for(grouped@, broker, t) == specs(t));
                    assert(by_topic@.contains_key(t));
                    assert(by_topic.keys().contains(t));
                }
                let t = choose|t: Seq<char>| #[trigger] grouped@[broker]@.contains_key(t);
                assert(by_topic.keys().contains(t));
            }
            out.push((broker, with_min_version(request, self.settings.isolation_level, false)));
            i = i + 1;
        }
        proof {
            assert forall|a: int, b: int| 0 <= a < b < out@.len() implies (#[trigger] out@[a]).0 < (
            #[trigger] out@[b]).0 by {
                assert(<i32 as crate::collections::MapKey>::before(brokers[a], brokers[b]));
            }
            assert forall|b: i32, t: Seq<char>|
                (#[trigger] offsets_specs(
                    views,
                    self.positions@,
                    self.known_brokers@,
                    b,
                    t,
                )).len() > 0 implies exists|i: int| 0 <= i < out@.len() && (#[trigger] out@[i]).0
                == b by {
                assert(listed_for(grouped@, b, t).len() > 0);
                assert(grouped@.contains_key(b));
                assert(brokers.contains(b));
                let j = choose|j: int| 0 <= j < brokers.len() && brokers[j] == b;
                assert(out@[j].0 == b);
            }
        }
        out
    }
}

/// What follows an answer, or an error, of one broker.
#[derive(Debug, PartialEq, Eq)]
pub enum ExchangeStep {
    /// Go on with the next broker.
    Next,
    /// Drop a connection and go on with the next broker. The partitions of
    /// this one are tried again later.
    Drop(ConnectionAction),
    /// Fail the call.
    Fail(ConsumerError),
}

/// Takes the answer of a broker to a list offsets request.
pub fn list_offsets_answered(
    broker: i32,
    answer: Result<ListOffsetsResponse, ClientError>,
    answers: &mut Vec<ListOffsetsResponse>,
) -> (r: ExchangeStep)
    ensures
        match answer {
            Ok(response) => r == ExchangeStep::Next && final(answers)@ == old(answers)@.push(
                response,
            ),
            Err(e) => {
                &&& final(answers)@ == old(answers)@
                &&& r == if transient_transport_error(e) {
                    ExchangeStep::Drop(connection_action(broker))
                } else {
                    ExchangeStep::Fail(ConsumerError::Client(e))
                }
            },
        },
{
    match answer {
        Ok(response) => {
            answers.push(response);
            ExchangeStep::Next
        },
        Err(e) => {
            if is_transient_transport_error(&e) {
                ExchangeStep::Drop(drop_connection(broker))
            } else {
                ExchangeStep::Fail(ConsumerError::Client(e))
            }
        },
    }
}

/// The partitions that wait for one kind of reset, and the timestamp that
/// resolves it.
#[derive(Debug, PartialEq, Eq)]
pub struct ResetQuery {
    pub sentinel: i64,
    pub timestamp: i64,
    pub keys: Vec<TopicPartition>,
}

/// The model of a [`ResetQuery`].
pub type ResetModel = (i64, int, Seq<PartitionKey>);

/// A query, if a partition waits for its reset.
pub open spec fn if_any(query: ResetModel) -> Seq<ResetModel> {
    if query.2.len() == 0 {
        seq![]
    } else {
        seq![query]
    }
}

/// The models of queries.
pub open spec fn reset_models(queries: Seq<ResetQuery>) -> Seq<ResetModel> {
    Seq::new(
        queries.len(),
        |i: int| (queries[i].sentinel, queries[i].timestamp as int, key_views(queries[i].keys@)),
    )
}

/// The resets that partitions wait for: by the policy, to the log start and to
/// the log end.
pub open spec fn reset_queries(
    keys: Seq<PartitionKey>,
    offsets: Map<PartitionKey, i64>,
    policy: AutoOffsetReset,
    now_ms: int,
) -> Seq<ResetModel> {
    if_any(
        (
            LATEST_SENTINEL,
            policy_timestamp(policy, now_ms),
            keys_with(keys, offsets, LATEST_SENTINEL),
        ),
    ) + if_any(
        (
            BEGINNING_SENTINEL,
            EARLIEST_TIMESTAMP as int,
            keys_with(keys, offsets, BEGINNING_SENTINEL),
        ),
    ) + if_any(
        (END_SENTINEL, LATEST_TIMESTAMP as int, keys_with(keys, offsets, END_SENTINEL)),
    )
}

/// The offsets after the partitions that still wait for the reset `sentinel`
/// took the offsets `found`. A partition whose position changed in between
/// keeps it.
pub open spec fn after_reset(
    offsets: Map<PartitionKey, i64>,
    sentinel: i64,
    found: Map<PartitionKey, i64>,
) -> Map<PartitionKey, i64> {
    Map::new(
        |k: PartitionKey| offsets.contains_key(k),
        |k: PartitionKey|
            if offsets[k] == sentinel && found.contains_key(k) {
                found[k]
            } else {
                offsets[k]
            },
    )
}

/// The offsets after the results of resets, in order.
pub open spec fn after_resets(
    offsets: Map<PartitionKey, i64>,
    results: Seq<(i64, ListOffsetsResult)>,
) -> Map<PartitionKey, i64>
    decreases results.len(),
{
    if results.len() == 0 {
        offsets
    } else {
        after_reset(
            after_resets(offsets, results.drop_last()),
            results.last().0,
            results.last().1.offsets@,
        )
    }
}

/// The topics that the first result with unauthorized topics names.
pub open spec fn first_refused(results: Seq<(i64, ListOffsetsResult)>) -> Option<Set<Seq<char>>>
    decreases results.len(),
{
    if results.len() == 0 {
        None
    } else if first_refused(results.drop_last()) is Some {
        first_refused(results.drop_last())
    } else if results.last().1.unauthorized@ != Set::<Seq<char>>::empty() {
        Some(results.last().1.unauthorized@)
    } else {
        None
    }
}

fn push_query(queries: &mut Vec<ResetQuery>, sentinel: i64, timestamp: i64, keys: Vec<TopicPartition>)
    ensures
        reset_models(final(queries)@) == reset_models(old(queries)@) + if_any(
            (sentinel, timestamp as int, key_views(keys@)),
        ),
{
    let ghost had = queries@;
    if !keys.is_empty() {
        let ghost views = key_views(keys@);
        queries.push(ResetQuery { sentinel, timestamp, keys });
        assert(reset_models(queries@) =~= reset_models(had) + seq![
            (sentinel, timestamp as int, views),
        ]);
    } else {
        assert(reset_models(queries@) =~= reset_models(had) + seq![]);
    }
}

fn apply_reset(
    offsets: &mut SortedMap<TopicPartition, i64>,
    sentinel: i64,
    found: &SortedMap<TopicPartition, i64>,
)
    ensures
        final(offsets)@ == after_reset(old(offsets)@, sentinel, found@),
{
    let ghost before = offsets@;
    let ghost keys = found.keys();
    let n = found.len();
    let mut i: usize = 0;
    while i < n
        invariant
            n == keys.len(),
            keys == found.keys(),
            found.keys_listed(),
            i <= n,
            offsets@.dom() == before.dom(),
            forall|k: PartitionKey| #[trigger]
                offsets@.contains_key(k) ==> offsets@[k] == if before[k] == sentinel && keys.take(
                    i as int,
                ).contains(k) {
                    found@[k]
                } else {
                    before[k]
                },
        decreases n - i,
    {
        let key = found.key_at(i);
        proof {
            lemma_take_next(keys, i as int);
            assert(!keys.take(i as int).contains(keys[i as int])) by {
                if keys.take(i as int).contains(keys[i as int]) {
                    let j = choose|j: int|
                        0 <= j < keys.take(i as int).len() && keys.take(i as int)[j]
                            == keys[i as int];
                    assert(keys[j] == keys[i as int]);
                }
            }
        }
        let waits = match offsets.get(key) {
            Some(next) => *next == sentinel,
            None => false,
        };
        if waits {
            offsets.insert(copy_key(key), *found.value_at(i));
            assert(offsets@.dom() =~= before.dom());
        }
        i = i + 1;
    }
    proof {
        assert(keys.take(n as int) =~= keys);
        assert(offsets@ =~= after_reset(before, sentinel, found@));
    }
}

impl Consumer {
    /// The resets that partitions of the consumer wait for at time `now_ms`.
    pub fn reset_plan(&self, now_ms: i64) -> (r: Vec<ResetQuery>)
        ensures
            reset_models(r@) == reset_queries(
                self.next_offsets.keys(),
                self.next_offsets@,
                self.settings.auto_offset_reset,
                now_ms as int,
            ),
    {
        let mut queries: Vec<ResetQuery> = Vec::new();
        assert(reset_models(queries@) =~= seq![]);
        let ghost keys = self.next_offsets.keys();
        let ghost offsets = self.next_offsets@;
        let latest = keys_at(&self.next_offsets, LATEST_SENTINEL);
        let timestamp = reset_timestamp(self.settings.auto_offset_reset, now_ms);
        push_query(&mut queries, LATEST_SENTINEL, timestamp, latest);
        let beginning = keys_at(&self.next_offsets, BEGINNING_SENTINEL);
        push_query(&mut queries, BEGINNING_SENTINEL, EARLIEST_TIMESTAMP, beginning);
        let end = keys_at(&self.next_offsets, END_SENTINEL);
        push_query(&mut queries, END_SENTINEL, LATEST_TIMESTAMP, end);
        proof {
            let goal = reset_queries(
                keys,
                offsets,
                self.settings.auto_offset_reset,
                now_ms as int,
            );
            assert(reset_models(queries@) =~= goal);
        }
        queries
    }

    /// Replace each reset placeholder by the offset that a broker answered for
    /// it. A partition without an answer keeps its placeholder.
    ///
    /// An unauthorized topic is an error; the offsets are replaced also then.
    pub fn resolve_reset_sentinels(&mut self, results: &Vec<(i64, ListOffsetsResult)>) -> (r:
        Result<(), ConsumerError>)
        ensures
            final(self).next_offsets@ == after_resets(old(self).next_offsets@, results@),
            match first_refused(results@) {
                Some(topics) => r is Err && unauthorized_error(r->Err_0, topics),
                None => r is Ok,
            },
            *final(self) == (Consumer { next_offsets: final(self).next_offsets, ..*old(self) }),
    {
        let ghost before = self.next_offsets@;
        let mut i: usize = 0;
        let mut refused: Result<(), ConsumerError> = Ok(());
        while i < results.len()
            invariant
                i <= results@.len(),
                before == old(self).next_offsets@,
                self.next_offsets@ == after_resets(before, results@.take(i as int)),
                match first_refused(results@.take(i as int)) {
                    Some(topics) => refused is Err && unauthorized_error(refused->Err_0, topics),
                    None => refused is Ok,
                },
                *self == (Consumer { next_offsets: self.next_offsets, ..*old(self) }),
            decreases results.len() - i,
        {
            assert(results@.take(i + 1).drop_last() =~= results@.take(i as int));
            let result = &results[i];
            apply_reset(&mut self.next_offsets, result.0, &result.1.offsets);
            if refused.is_ok() {
                refused = result.1.authorization();
            }
            i = i + 1;
        }
        assert(results@.take(i as int) =~= results@);
        refused
    }
}

/// A reset that an answer resolved is the answered offset, and every position
/// that did not wait for this reset stays as it was: a seek during the request
/// is not lost.
pub proof fn law_resets_replace_only_their_placeholder(
    offsets: Map<PartitionKey, i64>,
    sentinel: i64,
    found: Map<PartitionKey, i64>,
    key: PartitionKey,
)
    requires
        offsets.contains_key(key),
    ensures
        offsets[key] == sentinel && found.contains_key(key) ==> after_reset(
            offsets,
            sentinel,
            found,
        )[key] == found[key],
        offsets[key] != sentinel ==> after_reset(offsets, sentinel, found)[key] == offsets[key],
        after_reset(offsets, sentinel, found).dom() == offsets.dom(),
{
    assert(after_reset(offsets, sentinel, found).dom() =~= offsets.dom());
}

/// Where a partition without a committed offset starts: at 0 for `earliest`,
/// by a placeholder for a reset otherwise.
pub open spec fn start_of(policy: AutoOffsetReset) -> i64 {
    if policy == AutoOffsetReset::Earliest {
        0
    } else {
        LATEST_SENTINEL
    }
}

/// Where a partition without a committed offset starts.
pub fn reset_starting_offset(policy: AutoOffsetReset) -> (r: i64)
    ensures
        r == start_of(policy),
{
    match policy {
        AutoOffsetReset::Earliest => 0,
        AutoOffsetReset::Latest | AutoOffsetReset::NoReset | AutoOffsetReset::ByDuration(_) => {
            LATEST_SENTINEL
        },
    }
}

/// Where a partition starts: at its committed offset, or where a partition
/// without one does.
pub open spec fn start_from(committed: i64, policy: AutoOffsetReset) -> i64 {
    if committed >= 0 {
        committed
    } else {
        start_of(policy)
    }
}

/// Where a partition starts.
pub fn starting_offset(committed: i64, policy: AutoOffsetReset) -> (r: i64)
    ensures
        r == start_from(committed, policy),
{
    if committed >= 0 {
        committed
    } else {
        reset_starting_offset(policy)
    }
}

/// Whether a position must be compared with the leader's log: its own epoch is
/// known and older than the epoch of the leader.
pub open spec fn awaits_validation(leader_epoch: LeaderEpoch, offset_epoch: LeaderEpoch) -> bool {
    offset_epoch.0 >= 0 && offset_epoch.0 < leader_epoch.0
}

/// Whether a position must be compared with the leader's log.
pub fn should_await_validation(leader_epoch: LeaderEpoch, offset_epoch: LeaderEpoch) -> (r: bool)
    ensures
        r == awaits_validation(leader_epoch, offset_epoch),
{
    offset_epoch.is_known() && offset_epoch.get() < leader_epoch.get()
}

/// A partition that waits for its committed offset.
pub open spec fn waits_for_commit(offsets: Map<PartitionKey, i64>, key: PartitionKey) -> bool {
    offsets.contains_key(key) && offsets[key] == COMMITTED_SENTINEL
}

/// The committed offset that a map has for a partition.
pub open spec fn commit_at(
    committed: Map<PartitionKey, Option<OffsetAndMetadata>>,
    key: PartitionKey,
) -> Option<CommittedModel> {
    if committed.contains_key(key) {
        committed_view(committed[key])
    } else {
        None
    }
}

/// The position of a partition that starts at a committed offset.
pub open spec fn committed_position(
    had: PartitionPosition,
    committed: CommittedModel,
) -> PartitionPosition {
    let epoch = LeaderEpoch(
        match committed.1 {
            Some(epoch) => epoch,
            None => -1i32,
        },
    );
    PartitionPosition {
        offset_epoch: epoch,
        awaiting_validation: awaits_validation(had.leader_epoch, epoch),
        ..had
    }
}

/// The offsets after the partitions of `keys` that still wait for their
/// committed offset took it, or the start of a partition without one.
pub open spec fn offsets_committed(
    offsets: Map<PartitionKey, i64>,
    keys: Seq<PartitionKey>,
    committed: Map<PartitionKey, Option<OffsetAndMetadata>>,
    policy: AutoOffsetReset,
) -> Map<PartitionKey, i64> {
    Map::new(
        |k: PartitionKey| offsets.contains_key(k),
        |k: PartitionKey|
            if keys.contains(k) && waits_for_commit(offsets, k) {
                match commit_at(committed, k) {
                    Some(c) => c.0,
                    None => start_of(policy),
                }
            } else {
                offsets[k]
            },
    )
}

/// The positions after the partitions of `keys` took their committed offsets.
pub open spec fn positions_committed(
    positions: PositionMap,
    offsets: Map<PartitionKey, i64>,
    keys: Seq<PartitionKey>,
    committed: Map<PartitionKey, Option<OffsetAndMetadata>>,
) -> PositionMap {
    Map::new(
        |k: PartitionKey|
            positions.contains_key(k) || (keys.contains(k) && waits_for_commit(offsets, k)
                && commit_at(committed, k) is Some),
        |k: PartitionKey|
            if keys.contains(k) && waits_for_commit(offsets, k) && commit_at(
                committed,
                k,
            ) is Some {
                committed_position(position_of(positions, k), commit_at(committed, k)->Some_0)
            } else {
                positions[k]
            },
    )
}

impl Consumer {
    /// The partitions that wait for their committed offset.
    pub fn committed_sentinels(&self) -> (r: Vec<TopicPartition>)
        ensures
            forall|k: PartitionKey| #[trigger]
                key_views(r@).contains(k) <==> waits_for_commit(self.next_offsets@, k),
            key_views(r@).no_duplicates(),
    {
        keys_at(&self.next_offsets, COMMITTED_SENTINEL)
    }

    /// Replace the placeholder of each partition of `keys` that still waits for
    /// its committed offset: by that offset, or by the start of a partition
    /// without one.
    pub fn resolve_committed_sentinels(
        &mut self,
        keys: &Vec<TopicPartition>,
        committed: &SortedMap<TopicPartition, Option<OffsetAndMetadata>>,
    )
        requires
            key_views(keys@).no_duplicates(),
        ensures
            final(self).next_offsets@ == offsets_committed(
                old(self).next_offsets@,
                key_views(keys@),
                committed@,
                old(self).settings.auto_offset_reset,
            ),
            final(self).positions@ == positions_committed(
                old(self).positions@,
                old(self).next_offsets@,
                key_views(keys@),
                committed@,
            ),
            *final(self) == (Consumer {
                next_offsets: final(self).next_offsets,
                positions: final(self).positions,
                ..*old(self)
            }),
    {
        let reset = reset_starting_offset(self.settings.auto_offset_reset);
        let ghost policy = self.settings.auto_offset_reset;
        let ghost offsets = self.next_offsets@;
        let ghost positions = self.positions@;
        let ghost all = key_views(keys@);
        let mut i: usize = 0;
        assert(offsets_committed(offsets, all.take(0), committed@, policy) =~= offsets);
        assert(positions_committed(positions, offsets, all.take(0), committed@) =~= positions);
        while i < keys.len()
            invariant
                i <= keys@.len(),
                all == key_views(keys@),
                all.no_duplicates(),
                policy == old(self).settings.auto_offset_reset,
                reset == start_of(policy),
                self.next_offsets@ == offsets_committed(
                    offsets,
                    all.take(i as int),
                    committed@,
                    policy,
                ),
                self.positions@ == positions_committed(
                    positions,
                    offsets,
                    all.take(i as int),
                    committed@,
                ),
                *self == (Consumer {
                    next_offsets: self.next_offsets,
                    positions: self.positions,
                    ..*old(self)
                }),
            decreases keys.len() - i,
        {
            let key = &keys[i];
            let ghost k0 = all[i as int];
            proof {
                assert(k0 == key@);
                lemma_take_next(all, i as int);
                assert(!all.take(i as int).contains(k0)) by {
                    if all.take(i as int).contains(k0) {
                        let j = choose|j: int|
                            0 <= j < all.take(i as int).len() && all.take(i as int)[j] == k0;
                        assert(all[j] == all[i as int]);
                    }
                }
            }
            let waits = match self.next_offsets.get(key) {
                Some(next) => *next == COMMITTED_SENTINEL,
                None => false,
            };
            assert(waits == waits_for_commit(offsets, k0));
            if waits {
                let found = match committed.get(key) {
                    Some(entry) => match entry {
                        Some(offset) => Some((offset.offset, offset.leader_epoch)),
                        None => None,
                    },
                    None => None,
                };
                match found {
                    Some((offset, leader_epoch)) => {
                        let had = position_or_default(&self.positions, key);
                        let epoch = LeaderEpoch(
                            match leader_epoch {
                                Some(epoch) => epoch,
                                None => -1,
                            },
                        );
                        self.next_offsets.insert(copy_key(key), offset);
                        self.positions.insert(
                            copy_key(key),
                            PartitionPosition {
                                offset_epoch: epoch,
                                leader_id: had.leader_id,
                                leader_epoch: had.leader_epoch,
                                awaiting_validation: should_await_validation(
                                    had.leader_epoch,
                                    epoch,
                                ),
                            },
                        );
                    },
                    None => {
                        self.next_offsets.insert(copy_key(key), reset);
                    },
                }
            }
            assert(self.next_offsets@ =~= offsets_committed(
                offsets,
                all.take(i + 1),
                committed@,
                policy,
            ));
            assert(self.positions@ =~= positions_committed(
                positions,
                offsets,
                all.take(i + 1),
                committed@,
            ));
            i = i + 1;
        }
        assert(all.take(i as int) =~= all);
    }
}

/// The stages of an update of the fetch positions, in order.
#[derive(Clone, Copy, Debug, PartialEq, Eq, Structural)]
pub enum UpdateStage {
    /// Refresh the leader epochs from the metadata.
    LeaderEpochs,
    /// Resolve the placeholders for committed offsets.
    CommittedOffsets,
    /// Resolve the placeholders for resets.
    Resets,
    /// Compare the positions that wait for it with the leaders' logs.
    Validation,
}

/// What follows a stage.
#[derive(Debug, PartialEq, Eq)]
pub enum UpdateStep {
    /// Go on with the next stage.
    Next(UpdateStage),
    /// Every stage is done: apply the truncations that were found.
    Done,
    /// A transient error: connect the bootstrap connection anew, and try the
    /// update again later.
    TryLater,
    /// Fail the call.
    Fail(ConsumerError),
}

/// The step after a stage that succeeded.
pub open spec fn step_after(stage: UpdateStage) -> UpdateStep {
    match stage {
        UpdateStage::LeaderEpochs => UpdateStep::Next(UpdateStage::CommittedOffsets),
        UpdateStage::CommittedOffsets => UpdateStep::Next(UpdateStage::Resets),
        UpdateStage::Resets => UpdateStep::Next(UpdateStage::Validation),
        UpdateStage::Validation => UpdateStep::Done,
    }
}

/// The step after a stage of an update of the fetch positions.
pub fn update_fetch_positions(stage: UpdateStage, result: Result<(), ConsumerError>) -> (r:
    UpdateStep)
    ensures
        r == match result {
            Ok(_) => step_after(stage),
            Err(e) => if transient_poll_error(e) {
                UpdateStep::TryLater
            } else {
                UpdateStep::Fail(e)
            },
        },
{
    match result {
        Ok(_) => match stage {
            UpdateStage::LeaderEpochs => UpdateStep::Next(UpdateStage::CommittedOffsets),
            UpdateStage::CommittedOffsets => UpdateStep::Next(UpdateStage::Resets),
            UpdateStage::Resets => UpdateStep::Next(UpdateStage::Validation),
            UpdateStage::Validation => UpdateStep::Done,
        },
        Err(e) => {
            if is_transient_poll_error(&e) {
                UpdateStep::TryLater
            } else {
                UpdateStep::Fail(e)
            }
        },
    }
}

} // verus!
