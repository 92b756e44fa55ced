//! Incremental fetch sessions, one per broker.
//!
//! The first request to a broker is a full request with session id 0 and
//! epoch 0. When the broker answers with a session id, the next requests are
//! incremental: they name only the partitions that are new or changed, and
//! they forget the partitions that are no longer fetched.
use vstd::prelude::*;

use crate::collections::{kept, SortedMap};
use crate::wire::{PartitionKey, TopicPartition, Uuid};

verus! {

/// The session id of no session.
pub const INVALID_SESSION_ID: i32 = 0;

/// The epoch of a request that creates a session.
pub const INITIAL_EPOCH: i32 = 0;

/// The epoch of a request that closes a session.
pub const FINAL_EPOCH: i32 = -1;

/// The broker does not know the session id.
pub const FETCH_SESSION_ID_NOT_FOUND: i16 = 70;

/// The session id and epoch of the next request.
#[derive(Clone, Copy, Debug, PartialEq, Eq, Structural)]
pub struct FetchMetadata {
    pub session_id: i32,
    pub epoch: i32,
}

/// The epoch that follows `epoch`: epochs count up, start again at 1 after
/// the last one, and a closed session stays closed.
pub open spec fn epoch_after(epoch: int) -> int {
    if epoch < 0 {
        -1
    } else if epoch == i32::MAX {
        1
    } else {
        epoch + 1
    }
}

impl FetchMetadata {
    /// The metadata of a request that creates a new session.
    pub open spec fn is_initial(self) -> bool {
        self.session_id == INVALID_SESSION_ID && self.epoch == INITIAL_EPOCH
    }

    /// Whether a request with this metadata sends every partition.
    pub open spec fn full(self) -> bool {
        self.epoch == INITIAL_EPOCH || self.epoch == FINAL_EPOCH
    }

    /// Whether the partition data of a response can be used: not after an
    /// error, and not in an empty full response that throttles the client.
    pub open spec fn usable(
        self,
        error_code: i16,
        response_partitions: usize,
        throttle_time_ms: i32,
    ) -> bool {
        error_code == 0 && !(self.full() && response_partitions == 0 && throttle_time_ms > 0)
    }

    /// The metadata after a response.
    pub open spec fn metadata_after(
        self,
        error_code: i16,
        response_session_id: i32,
        response_partitions: usize,
        throttle_time_ms: i32,
    ) -> FetchMetadata {
        if error_code != 0 && error_code != FETCH_SESSION_ID_NOT_FOUND {
            FetchMetadata { session_id: self.session_id, epoch: INITIAL_EPOCH }
        } else if !self.usable(error_code, response_partitions, throttle_time_ms)
            || response_session_id == INVALID_SESSION_ID {
            FetchMetadata { session_id: INVALID_SESSION_ID, epoch: INITIAL_EPOCH }
        } else if self.full() {
            FetchMetadata { session_id: response_session_id, epoch: 1 }
        } else {
            FetchMetadata {
                session_id: self.session_id,
                epoch: epoch_after(self.epoch as int) as i32,
            }
        }
    }

    /// Create a new session.
    pub fn initial() -> (r: Self)
        ensures
            r.is_initial(),
    {
        FetchMetadata { session_id: INVALID_SESSION_ID, epoch: INITIAL_EPOCH }
    }

    /// A full request sends every partition.
    pub fn is_full(self) -> (r: bool)
        ensures
            r == self.full(),
    {
        self.epoch == INITIAL_EPOCH || self.epoch == FINAL_EPOCH
    }

    /// Close the session and create a new one with a full request.
    pub fn close_existing_attempt_new(self) -> (r: Self)
        ensures
            r == (FetchMetadata { session_id: self.session_id, epoch: INITIAL_EPOCH }),
    {
        FetchMetadata { session_id: self.session_id, epoch: INITIAL_EPOCH }
    }

    /// The epoch of the request after one with `epoch`.
    pub fn next_epoch(epoch: i32) -> (r: i32)
        ensures
            r == epoch_after(epoch as int),
    {
        if epoch < 0 {
            FINAL_EPOCH
        } else if epoch == i32::MAX {
            1
        } else {
            epoch + 1
        }
    }
}

/// The fields of one partition in a fetch session. A change of any field makes
/// the partition part of the next incremental request.
#[derive(Clone, Copy, Debug, PartialEq, Eq, Structural)]
pub struct SessionPartition {
    pub topic_id: Uuid,
    pub fetch_offset: i64,
    pub current_leader_epoch: i32,
    pub last_fetched_epoch: i32,
    pub partition_max_bytes: i32,
}

/// The session fields and partitions of one fetch request.
#[derive(Debug, PartialEq, Eq)]
pub struct SessionRequest {
    pub session_id: i32,
    pub session_epoch: i32,
    /// The partitions to send: all of them in a full request, the new and the
    /// changed ones in an incremental request.
    pub partitions: SortedMap<TopicPartition, SessionPartition>,
    /// The partitions to forget, with their topic ids.
    pub forgotten: Vec<(TopicPartition, Uuid)>,
}

/// The model of a partition to forget.
pub type Forgotten = (PartitionKey, Uuid);

impl SessionRequest {
    /// Whether the broker replaces its session by the partitions of the request.
    pub open spec fn full(self) -> bool {
        self.session_epoch == INITIAL_EPOCH || self.session_epoch == FINAL_EPOCH
    }

    /// The forgotten partitions and their topic ids, in order.
    pub open spec fn forgets(self) -> Seq<Forgotten> {
        Seq::new(
            self.forgotten@.len(),
            |i: int| (self.forgotten@[i].0@, self.forgotten@[i].1),
        )
    }

    /// Whether the request forgets the partition.
    pub open spec fn forgets_key(self, key: PartitionKey) -> bool {
        exists|i: int| 0 <= i < self.forgotten@.len() && (#[trigger] self.forgotten@[i]).0@ == key
    }

    /// The partitions of a broker's session after it applied this request to
    /// the session `had`.
    pub open spec fn applied_to(
        self,
        had: Map<PartitionKey, SessionPartition>,
    ) -> Map<PartitionKey, SessionPartition> {
        if self.full() {
            self.partitions@
        } else {
            kept(had, |k: PartitionKey, p: SessionPartition| !self.forgets_key(k)).union_prefer_right(
                self.partitions@,
            )
        }
    }
}

/// The fetch session of one broker.
#[derive(Debug)]
pub struct FetchSession {
    pub next: FetchMetadata,
    pub partitions: SortedMap<TopicPartition, SessionPartition>,
}

/// Whether a partition of `wanted` has another topic id than in `had`, where
/// both ids are known.
pub open spec fn topic_replaced(
    had: Map<PartitionKey, SessionPartition>,
    wanted: Map<PartitionKey, SessionPartition>,
) -> bool {
    exists|k: PartitionKey| #[trigger]
        wanted.contains_key(k) && had.contains_key(k) && had[k].topic_id != wanted[k].topic_id
            && had[k].topic_id.0 != 0 && wanted[k].topic_id.0 != 0
}

/// The partitions of `keys` that are not wanted, with their topic ids in `had`.
pub open spec fn forgotten_of(
    keys: Seq<PartitionKey>,
    had: Map<PartitionKey, SessionPartition>,
    wanted: Map<PartitionKey, SessionPartition>,
) -> Seq<Forgotten>
    decreases keys.len(),
{
    if keys.len() == 0 {
        seq![]
    } else {
        let rest = forgotten_of(keys.drop_last(), had, wanted);
        if wanted.contains_key(keys.last()) {
            rest
        } else {
            rest.push((keys.last(), had[keys.last()].topic_id))
        }
    }
}

proof fn lemma_forgotten_of(
    keys: Seq<PartitionKey>,
    had: Map<PartitionKey, SessionPartition>,
    wanted: Map<PartitionKey, SessionPartition>,
)
    ensures
        forall|i: int|
            0 <= i < forgotten_of(keys, had, wanted).len() ==> {
                let f = #[trigger] forgotten_of(keys, had, wanted)[i];
                keys.contains(f.0) && !wanted.contains_key(f.0)
            },
        forall|k: PartitionKey|
            keys.contains(k) && !wanted.contains_key(k) ==> exists|i: int|
                0 <= i < forgotten_of(keys, had, wanted).len() && (#[trigger] forgotten_of(
                    keys,
                    had,
                    wanted,
                )[i]).0 == k,
    decreases keys.len(),
{
    if keys.len() > 0 {
        let front = keys.drop_last();
        let rest = forgotten_of(front, had, wanted);
        let all = forgotten_of(keys, had, wanted);
        lemma_forgotten_of(front, had, wanted);
        assert forall|i: int| 0 <= i < all.len() implies {
            let f = #[trigger] all[i];
            keys.contains(f.0) && !wanted.contains_key(f.0)
        } by {
            if i < rest.len() {
                assert(all[i] == rest[i]);
                let j = choose|j: int| 0 <= j < front.len() && front[j] == rest[i].0;
                assert(keys[j] == all[i].0);
            } else {
                assert(keys[keys.len() - 1] == all[i].0);
            }
        }
        assert forall|k: PartitionKey|
            keys.contains(k) && !wanted.contains_key(k) implies exists|i: int|
            0 <= i < all.len() && (#[trigger] all[i]).0 == k by {
            let j = choose|j: int| 0 <= j < keys.len() && keys[j] == k;
            if j < front.len() {
                assert(front[j] == k);
                assert(front.contains(k));
                let i = choose|i: int| 0 <= i < rest.len() && (#[trigger] rest[i]).0 == k;
                assert(all[i].0 == k);
            } else {
                assert(all[all.len() - 1].0 == k);
            }
        }
    }
}

impl FetchSession {
    /// The metadata of the request that [`build`](Self::build) makes: the next
    /// one, or one that creates the session anew when a topic was replaced.
    pub open spec fn request_metadata(
        self,
        wanted: Map<PartitionKey, SessionPartition>,
    ) -> FetchMetadata {
        if topic_replaced(self.partitions@, wanted) && !self.next.full() {
            FetchMetadata { session_id: self.next.session_id, epoch: INITIAL_EPOCH }
        } else {
            self.next
        }
    }

    /// Whether the session got no request yet.
    pub open spec fn fresh(self) -> bool {
        &&& self.next.is_initial()
        &&& self.partitions@ == Map::<PartitionKey, SessionPartition>::empty()
        &&& self.partitions.keys() == Seq::<PartitionKey>::empty()
    }

    /// Whether `r` is the request of this session for the partitions in
    /// `wanted`: all of them in a full request, else the new and the changed
    /// ones, with the unwanted ones to forget.
    pub open spec fn builds(
        self,
        wanted: Map<PartitionKey, SessionPartition>,
        r: SessionRequest,
    ) -> bool {
        &&& r.session_id == self.request_metadata(wanted).session_id
        &&& r.session_epoch == self.request_metadata(wanted).epoch
        &&& r.full() ==> r.partitions@ == wanted && r.forgotten@.len() == 0
        &&& !r.full() ==> r.partitions@ == kept(
            wanted,
            |k: PartitionKey, p: SessionPartition|
                !(self.partitions@.contains_key(k) && self.partitions@[k] == p),
        )
        &&& !r.full() ==> r.forgets() == forgotten_of(
            self.partitions.keys(),
            self.partitions@,
            wanted,
        )
    }

    /// The session of a broker that got no request yet.
    pub fn new() -> (r: Self)
        ensures
            r.fresh(),
    {
        FetchSession { next: FetchMetadata::initial(), partitions: SortedMap::new() }
    }

    /// The session id of the next request, or 0 when there is no session.
    pub fn session_id(&self) -> (r: i32)
        ensures
            r == self.next.session_id,
    {
        self.next.session_id
    }

    /// Whether a wanted partition has another known topic id than before.
    fn replaces_topic(&self, wanted: &SortedMap<TopicPartition, SessionPartition>) -> (r: bool)
        ensures
            r == topic_replaced(self.partitions@, wanted@),
    {
        let n = wanted.len();
        let mut i: usize = 0;
        while i < n
            invariant
                n == wanted.keys().len(),
                wanted.keys_listed(),
                i <= n,
                forall|j: int|
                    0 <= j < i ==> {
                        let k = #[trigger] wanted.keys()[j];
                        !(self.partitions@.contains_key(k) && self.partitions@[k].topic_id
                            != wanted@[k].topic_id && self.partitions@[k].topic_id.0 != 0
                            && wanted@[k].topic_id.0 != 0)
                    },
            decreases n - i,
        {
            let key = wanted.key_at(i);
            let next = wanted.value_at(i);
            if let Some(previous) = self.partitions.get(key) {
                if previous.topic_id != next.topic_id && !previous.topic_id.is_zero()
                    && !next.topic_id.is_zero() {
                    assert(wanted@.contains_key(key@));
                    return true;
                }
            }
            i = i + 1;
        }
        proof {
            if topic_replaced(self.partitions@, wanted@) {
                let k = choose|k: PartitionKey| #[trigger]
                    wanted@.contains_key(k) && self.partitions@.contains_key(k)
                        && self.partitions@[k].topic_id != wanted@[k].topic_id
                        && self.partitions@[k].topic_id.0 != 0 && wanted@[k].topic_id.0
                        != 0;
                assert(wanted.keys().contains(k));
                let j = choose|j: int| 0 <= j < wanted.keys().len() && wanted.keys()[j] == k;
                assert(wanted.keys()[j] == k);
            }
        }
        false
    }

    /// The partitions of the session that are not wanted.
    fn forgotten(&self, wanted: &SortedMap<TopicPartition, SessionPartition>) -> (r: Vec<
        (TopicPartition, Uuid),
    >)
        ensures
            self.partitions.keys_listed(),
            Seq::new(r@.len(), |i: int| (r@[i].0@, r@[i].1)) == forgotten_of(
                self.partitions.keys(),
                self.partitions@,
                wanted@,
            ),
    {
        let n = self.partitions.len();
        let mut r: Vec<(TopicPartition, Uuid)> = Vec::new();
        let ghost keys = self.partitions.keys();
        let mut i: usize = 0;
        while i < n
            invariant
                n == keys.len(),
                keys == self.partitions.keys(),
                self.partitions.keys_listed(),
                i <= n,
                Seq::new(r@.len(), |j: int| (r@[j].0@, r@[j].1)) =~= forgotten_of(
                    keys.take(i as int),
                    self.partitions@,
                    wanted@,
                ),
            decreases n - i,
        {
            let key = self.partitions.key_at(i);
            let partition = self.partitions.value_at(i);
            proof {
                assert(keys.take(i + 1).drop_last() =~= keys.take(i as int));
            }
            if !wanted.contains_key(key) {
                r.push((crate::wire::copy_key(key), partition.topic_id));
            }
            i = i + 1;
        }
        assert(keys.take(n as int) =~= keys);
        r
    }

    /// The wanted partitions that are new or changed.
    fn changed(&self, wanted: &SortedMap<TopicPartition, SessionPartition>) -> (r: SortedMap<
        TopicPartition,
        SessionPartition,
    >)
        ensures
            r@ == kept(
                wanted@,
                |k: PartitionKey, p: SessionPartition|
                    !(self.partitions@.contains_key(k) && self.partitions@[k] == p),
            ),
    {
        let mut r = wanted.clone();
        assert(r@ =~= wanted@);
        let ghost had = self.partitions@;
        let partitions = &self.partitions;
        let differs = |k: &TopicPartition, p: &SessionPartition| -> (b: bool)
            ensures
                b == !(partitions@.contains_key(k@) && partitions@[k@] == *p),
            {
                match partitions.get(k) {
                    Some(previous) => *previous != *p,
                    None => true,
                }
            };
        r.retain(
            differs,
            Ghost(|k: PartitionKey, p: SessionPartition| !(had.contains_key(k) && had[k] == p)),
        );
        r
    }

    /// Build the next request for the partitions in `wanted`, and record them
    /// as the partitions of the session.
    ///
    /// A request that names a replaced topic closes the session and creates a
    /// new one: to forget a partition by its topic id needs a newer version of
    /// the protocol than every broker has.
    pub fn build(&mut self, wanted: SortedMap<TopicPartition, SessionPartition>) -> (r:
        SessionRequest)
        ensures
            old(self).builds(wanted@, r),
            final(self).next == old(self).request_metadata(wanted@),
            final(self).partitions@ == wanted@,
            r.applied_to(old(self).partitions@) == final(self).partitions@,
    {
        let replaced = self.replaces_topic(&wanted);
        if replaced && !self.next.is_full() {
            self.next = self.next.close_existing_attempt_new();
        }
        let metadata = self.next;
        if metadata.is_full() {
            let partitions = wanted.clone();
            assert(partitions@ =~= wanted@);
            self.partitions = partitions;
            return SessionRequest {
                session_id: metadata.session_id,
                session_epoch: metadata.epoch,
                partitions: wanted,
                forgotten: Vec::new(),
            };
        }
        let forgotten = self.forgotten(&wanted);
        let changed = self.changed(&wanted);
        let ghost had = self.partitions;
        self.partitions = wanted;
        let r = SessionRequest {
            session_id: metadata.session_id,
            session_epoch: metadata.epoch,
            partitions: changed,
            forgotten,
        };
        proof {
            assert(r.forgets() == forgotten_of(had.keys(), had@, wanted@));
            lemma_forgotten_of(had.keys(), had@, wanted@);
            assert forall|k: PartitionKey| had@.contains_key(k) implies #[trigger] r.forgets_key(k)
                == !wanted@.contains_key(k) by {
                assert(had.keys().contains(k));
                if !wanted@.contains_key(k) {
                    let i = choose|i: int|
                        0 <= i < forgotten_of(had.keys(), had@, wanted@).len() && (
                        #[trigger] forgotten_of(had.keys(), had@, wanted@)[i]).0 == k;
                    assert(r.forgets()[i].0 == k);
                    assert(r.forgotten@[i].0@ == k);
                } else if r.forgets_key(k) {
                    let i = choose|i: int|
                        0 <= i < r.forgotten@.len() && (#[trigger] r.forgotten@[i]).0@ == k;
                    assert(r.forgets()[i].0 == k);
                }
            }
            assert(r.applied_to(had@) =~= wanted@);
        }
        r
    }

    /// Update the session after a response. Return `false` when the consumer
    /// must not use the partition data of the response.
    pub fn handle_response(
        &mut self,
        error_code: i16,
        response_session_id: i32,
        response_partitions: usize,
        throttle_time_ms: i32,
    ) -> (r: bool)
        ensures
            r == old(self).next.usable(error_code, response_partitions, throttle_time_ms),
            final(self).next == old(self).next.metadata_after(
                error_code,
                response_session_id,
                response_partitions,
                throttle_time_ms,
            ),
            final(self).partitions == old(self).partitions,
    {
        if error_code != 0 {
            self.next = if error_code == FETCH_SESSION_ID_NOT_FOUND {
                FetchMetadata::initial()
            } else {
                self.next.close_existing_attempt_new()
            };
            return false;
        }
        if self.next.is_full() {
            if response_partitions == 0 && throttle_time_ms > 0 {
                self.next = FetchMetadata::initial();
                return false;
            }
            self.next = if response_session_id == INVALID_SESSION_ID {
                FetchMetadata::initial()
            } else {
                FetchMetadata {
                    session_id: response_session_id,
                    epoch: FetchMetadata::next_epoch(INITIAL_EPOCH),
                }
            };
        } else {
            self.next = if response_session_id == INVALID_SESSION_ID {
                FetchMetadata::initial()
            } else {
                FetchMetadata {
                    session_id: self.next.session_id,
                    epoch: FetchMetadata::next_epoch(self.next.epoch),
                }
            };
        }
        true
    }

    /// Update the session after the request failed.
    pub fn handle_error(&mut self)
        ensures
            final(self).next == (FetchMetadata {
                session_id: old(self).next.session_id,
                epoch: INITIAL_EPOCH,
            }),
            final(self).partitions == old(self).partitions,
    {
        self.next = self.next.close_existing_attempt_new();
    }
}

impl Default for FetchSession {
    fn default() -> (r: Self)
        ensures
            r.fresh(),
    {
        FetchSession::new()
    }
}

/// A session never asks for epoch 0 or a closing epoch by counting: the epoch
/// after a session epoch is again the epoch of an incremental request.
pub proof fn law_epochs_stay_incremental(epoch: int)
    requires
        0 <= epoch <= i32::MAX,
    ensures
        1 <= epoch_after(epoch) <= i32::MAX,
{
}

/// Fetching never gives a session the epoch that closes it: a session that
/// starts fresh sends full requests with epoch 0 and incremental ones after.
pub proof fn law_sessions_are_not_closed_by_fetching(
    session: FetchSession,
    wanted: Map<PartitionKey, SessionPartition>,
    error_code: i16,
    response_session_id: i32,
    response_partitions: usize,
    throttle_time_ms: i32,
)
    requires
        session.next.epoch >= 0,
    ensures
        session.request_metadata(wanted).epoch >= 0,
        session.request_metadata(wanted).full() <==> session.request_metadata(wanted).epoch == 0,
        session.next.metadata_after(
            error_code,
            response_session_id,
            response_partitions,
            throttle_time_ms,
        ).epoch >= 0,
{
}

/// After a request failed, or the broker answered it with an error, the next
/// request is a full one.
pub proof fn law_failed_request_is_followed_by_a_full_one(
    session: FetchSession,
    error_code: i16,
    response_session_id: i32,
    response_partitions: usize,
    throttle_time_ms: i32,
    wanted: Map<PartitionKey, SessionPartition>,
)
    requires
        error_code != 0,
    ensures
        ({
            let next = session.next.metadata_after(
                error_code,
                response_session_id,
                response_partitions,
                throttle_time_ms,
            );
            (FetchSession { next, partitions: session.partitions }).request_metadata(wanted).full()
        }),
{
}

} // verus!
