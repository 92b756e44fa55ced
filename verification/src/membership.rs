//! The membership of a consumer in its group: generation, assignment and
//! ownership, and the changes that a rebalance makes to them.
use vstd::prelude::*;

use crate::assignment::{copy_keys, with_new, Assignment};
use crate::collections::{kept, SortedMap, SortedSet};
use crate::consumer::{CommitIdentity, Consumer, Nanos};
use crate::error::ConsumerError;
use crate::group_wire::{
    build_leave_group_request, leaves, sends_leave, should_send_leave_group,
    GroupMembershipOperation, LeaveGroupRequest, POLL_TIMEOUT_LEAVE_REASON,
};
use crate::list_offsets::{has_key, key_views};
use crate::wire::{copy_key, PartitionKey, TopicPartition};

verus! {

/// The id after an ownership id. Ids start again at 0 after the last one.
pub open spec fn id_after(id: u64) -> u64 {
    if id == u64::MAX {
        0
    } else {
        (id + 1) as u64
    }
}

/// The ownerships and the next id after each partition of `assignment` that has
/// no ownership got a new one, in order.
pub open spec fn owning(
    ownership: Map<PartitionKey, u64>,
    assignment: Seq<PartitionKey>,
    next_id: u64,
) -> (Map<PartitionKey, u64>, u64)
    decreases assignment.len(),
{
    if assignment.len() == 0 {
        (ownership, next_id)
    } else {
        let (before, id) = owning(ownership, assignment.drop_last(), next_id);
        if before.contains_key(assignment.last()) {
            (before, id)
        } else {
            (before.insert(assignment.last(), id), id_after(id))
        }
    }
}

/// The ownerships that a new assignment starts from: those of the partitions
/// that stay, or none.
pub open spec fn retained(
    ownership: Map<PartitionKey, u64>,
    assignment: Seq<PartitionKey>,
    preserve_retained: bool,
) -> Map<PartitionKey, u64> {
    if preserve_retained {
        kept(ownership, |k: PartitionKey, id: u64| assignment.contains(k))
    } else {
        Map::empty()
    }
}

/// Give each partition of `assignment` an ownership. With `preserve_retained`
/// a partition that stays keeps the ownership it has; otherwise all are new.
pub fn update_ownership(
    ownership: &mut SortedMap<TopicPartition, u64>,
    assignment: &Vec<TopicPartition>,
    preserve_retained: bool,
    next_id: &mut u64,
)
    ensures
        (final(ownership)@, *final(next_id)) == owning(
            retained(old(ownership)@, key_views(assignment@), preserve_retained),
            key_views(assignment@),
            *old(next_id),
        ),
{
    let ghost all = key_views(assignment@);
    let ghost start_id = *next_id;
    if preserve_retained {
        let stays = |k: &TopicPartition, id: &u64| -> (b: bool)
            ensures
                b == key_views(assignment@).contains(k@),
            { has_key(assignment, k) };
        ownership.retain(stays, Ghost(|k: PartitionKey, id: u64| all.contains(k)));
    } else {
        *ownership = SortedMap::new();
    }
    let ghost start = ownership@;
    let mut i: usize = 0;
    while i < assignment.len()
        invariant
            i <= assignment@.len(),
            all == key_views(assignment@),
            (ownership@, *next_id) == owning(start, all.take(i as int), start_id),
        decreases assignment.len() - i,
    {
        proof {
            assert(all.take(i + 1).drop_last() =~= all.take(i as int));
            assert(all.take(i + 1).last() == assignment@[i as int]@);
        }
        if !ownership.contains_key(&assignment[i]) {
            let id: u64 = *next_id;
            ownership.insert(copy_key(&assignment[i]), id);
            *next_id = if id == u64::MAX {
                0
            } else {
                id + 1
            };
        }
        i = i + 1;
    }
    assert(all.take(i as int) =~= all);
}

/// Whether every ownership id is older than the next one.
pub open spec fn ids_before(ownership: Map<PartitionKey, u64>, next_id: int) -> bool {
    forall|k: PartitionKey| #[trigger] ownership.contains_key(k) ==> ownership[k] < next_id
}

/// Whether no two partitions without an ownership before got the same one.
pub open spec fn new_ids_distinct(
    ownership: Map<PartitionKey, u64>,
    after: Map<PartitionKey, u64>,
) -> bool {
    forall|a: PartitionKey, b: PartitionKey| #[trigger]
        after.contains_key(a) && #[trigger] after.contains_key(b) && !ownership.contains_key(a)
            && !ownership.contains_key(b) && a != b ==> after[a] != after[b]
}

proof fn lemma_owning(ownership: Map<PartitionKey, u64>, assignment: Seq<PartitionKey>, next_id: u64)
    requires
        ids_before(ownership, next_id as int),
        next_id + assignment.len() <= u64::MAX,
    ensures
        ({
            let (after, id) = owning(ownership, assignment, next_id);
            &&& next_id <= id <= next_id + assignment.len()
            &&& id == next_id + assignment.to_set().difference(ownership.dom()).len()
            &&& ids_before(after, id as int)
            &&& new_ids_distinct(ownership, after)
            &&& forall|k: PartitionKey| #[trigger]
                after.contains_key(k) <==> ownership.contains_key(k) || assignment.contains(k)
            &&& forall|k: PartitionKey| #[trigger]
                after.contains_key(k) ==> if ownership.contains_key(k) {
                    after[k] == ownership[k]
                } else {
                    after[k] >= next_id
                }
        }),
    decreases assignment.len(),
{
    let added = assignment.to_set().difference(ownership.dom());
    if assignment.len() == 0 {
        assert(added =~= Set::empty());
    } else {
        let front = assignment.drop_last();
        let last = assignment.last();
        lemma_owning(ownership, front, next_id);
        let (before, id) = owning(ownership, front, next_id);
        let (after, next) = owning(ownership, assignment, next_id);
        let added_before = front.to_set().difference(ownership.dom());
        assert forall|k: PartitionKey| #[trigger] assignment.to_set().contains(k) <==> (
        front.to_set().contains(k) || k == last) by {
            assert(assignment[assignment.len() - 1] == last);
            if front.contains(k) {
                let j = choose|j: int| 0 <= j < front.len() && front[j] == k;
                assert(assignment[j] == k);
            }
            if assignment.contains(k) && k != last {
                let j = choose|j: int| 0 <= j < assignment.len() && assignment[j] == k;
                assert(front[j] == k);
            }
        }
        assert(before.contains_key(last) <==> ownership.contains_key(last) || front.contains(
            last,
        ));
        vstd::seq_lib::seq_to_set_is_finite(front);
        if before.contains_key(last) {
            assert(added =~= added_before);
        } else {
            assert(!front.to_set().contains(last));
            assert(added =~= added_before.insert(last));
            assert(added.len() == added_before.len() + 1);
        }
        assert(new_ids_distinct(ownership, after)) by {
            assert forall|a: PartitionKey, b: PartitionKey| #[trigger]
                after.contains_key(a) && #[trigger] after.contains_key(b)
                    && !ownership.contains_key(a) && !ownership.contains_key(b) && a
                    != b implies after[a] != after[b] by {
                if a != last || before.contains_key(last) {
                    assert(before.contains_key(a));
                }
                if b != last || before.contains_key(last) {
                    assert(before.contains_key(b));
                }
            }
        }
        assert forall|k: PartitionKey| #[trigger] after.contains_key(k) <==> ownership.contains_key(
            k,
        ) || assignment.contains(k) by {
            assert(assignment[assignment.len() - 1] == last);
            if front.contains(k) {
                let j = choose|j: int| 0 <= j < front.len() && front[j] == k;
                assert(assignment[j] == k);
            }
            if assignment.contains(k) && k != last {
                let j = choose|j: int| 0 <= j < assignment.len() && assignment[j] == k;
                assert(front[j] == k);
            }
            assert(before.contains_key(k) <==> ownership.contains_key(k) || front.contains(k));
        }
        assert forall|k: PartitionKey| #[trigger] after.contains_key(k) implies after[k] < next by {
            if before.contains_key(k) {
                assert(before[k] < id);
            }
        }
        assert forall|k: PartitionKey| #[trigger] after.contains_key(k) implies
            if ownership.contains_key(k) {
                after[k] == ownership[k]
            } else {
                after[k] >= next_id
            } by {
            if before.contains_key(k) {
                assert(if ownership.contains_key(k) {
                    before[k] == ownership[k]
                } else {
                    before[k] >= next_id
                });
            }
        }
    }
}

/// A partition that a cooperative rebalance keeps has the ownership it had, and
/// every other partition of a new assignment has an ownership that no partition
/// had before. An eager rebalance starts a new ownership for every partition.
/// New ownerships are distinct, and the next id grows by their number.
pub proof fn law_ownership_follows_the_rebalance(
    ownership: Map<PartitionKey, u64>,
    assignment: Seq<PartitionKey>,
    preserve_retained: bool,
    next_id: u64,
)
    requires
        ids_before(ownership, next_id as int),
        next_id + assignment.len() <= u64::MAX,
    ensures
        ({
            let (after, id) = owning(
                retained(ownership, assignment, preserve_retained),
                assignment,
                next_id,
            );
            &&& after.dom() == assignment.to_set()
            &&& ids_before(after, id as int)
            &&& id == next_id + if preserve_retained {
                assignment.to_set().difference(ownership.dom()).len()
            } else {
                assignment.to_set().len()
            }
            &&& new_ids_distinct(retained(ownership, assignment, preserve_retained), after)
            &&& forall|k: PartitionKey| #[trigger]
                assignment.contains(k) ==> if preserve_retained && ownership.contains_key(k) {
                    after[k] == ownership[k]
                } else {
                    after[k] >= next_id
                }
        }),
{
    let start = retained(ownership, assignment, preserve_retained);
    assert(ids_before(start, next_id as int)) by {
        assert forall|k: PartitionKey| #[trigger] start.contains_key(k) implies start[k]
            < next_id by {
            assert(ownership.contains_key(k));
        }
    }
    lemma_owning(start, assignment, next_id);
    assert(assignment.to_set().difference(start.dom()) =~= if preserve_retained {
        assignment.to_set().difference(ownership.dom())
    } else {
        assignment.to_set()
    });
    let after = owning(start, assignment, next_id).0;
    assert(after.dom() =~= assignment.to_set());
    assert forall|k: PartitionKey| #[trigger] assignment.contains(k) implies
        if preserve_retained && ownership.contains_key(k) {
            after[k] == ownership[k]
        } else {
            after[k] >= next_id
        } by {
        assert(after.contains_key(k));
    }
}

/// The timer that ends a membership when nobody calls `poll`.
#[derive(Clone, Copy, Debug, PartialEq, Eq, Structural)]
pub struct PollTimer {
    pub interval: Nanos,
    pub deadline: Nanos,
}

impl PollTimer {
    /// A timer that starts at `now`.
    pub fn new(interval: Nanos, now: Nanos) -> (r: Self)
        requires
            now + interval <= u64::MAX,
        ensures
            r.interval == interval,
            r.deadline == now + interval,
    {
        PollTimer { interval, deadline: now + interval }
    }

    /// Start again at `now`.
    pub fn reset(&mut self, now: Nanos)
        requires
            now + old(self).interval <= u64::MAX,
        ensures
            final(self).interval == old(self).interval,
            final(self).deadline == now + old(self).interval,
    {
        self.deadline = now + self.interval;
    }

    /// Whether the deadline is reached.
    pub fn expired(&self, now: Nanos) -> (r: bool)
        ensures
            r == (now >= self.deadline),
    {
        now >= self.deadline
    }
}

/// A rejoin that starts in the next `poll`.
///
/// A rebalance that the coordinator asks for does not start while the
/// application processes the records of the last `poll`.
#[derive(Clone, Copy, Debug, PartialEq, Eq, Structural)]
pub enum RejoinRequest {
    /// No rejoin is needed.
    NotNeeded,
    /// A rejoin is due when a `poll` changed the `poll` count from this value.
    AfterPoll(u64),
    /// A rejoin is due at once, because a `poll` already came.
    Now,
}

impl RejoinRequest {
    /// The request after a rejoin was asked for at a `poll` count. An earlier
    /// request stays.
    pub open spec fn asked_at(self, polls: u64) -> RejoinRequest {
        if self == RejoinRequest::NotNeeded {
            RejoinRequest::AfterPoll(polls)
        } else {
            self
        }
    }

    /// Whether the rejoin starts at a `poll` count.
    pub open spec fn is_due(self, polls: u64) -> bool {
        match self {
            RejoinRequest::NotNeeded => false,
            RejoinRequest::Now => true,
            RejoinRequest::AfterPoll(count) => polls != count,
        }
    }

    /// Whether a rejoin is asked for.
    pub fn requested(self) -> (r: bool)
        ensures
            r == (self != RejoinRequest::NotNeeded),
    {
        match self {
            RejoinRequest::NotNeeded => false,
            _ => true,
        }
    }

    /// Request a rejoin that starts with the first `poll` after the `poll`
    /// count `polls`.
    pub fn request_after_poll(&mut self, polls: u64, rebalance_pending: &mut bool)
        ensures
            *final(self) == old(self).asked_at(polls),
            *final(rebalance_pending),
    {
        if !self.requested() {
            *self = RejoinRequest::AfterPoll(polls);
        }
        *rebalance_pending = true;
    }

    /// Request a rejoin that starts at once, because a `poll` already came.
    pub fn request_now(&mut self, rebalance_pending: &mut bool)
        ensures
            *final(self) == RejoinRequest::Now,
            *final(rebalance_pending),
    {
        *self = RejoinRequest::Now;
        *rebalance_pending = true;
    }

    /// Whether the rejoin starts at the `poll` count `polls`.
    pub fn due(self, polls: u64) -> (r: bool)
        ensures
            r == self.is_due(polls),
    {
        match self {
            RejoinRequest::NotNeeded => false,
            RejoinRequest::Now => true,
            RejoinRequest::AfterPoll(count) => polls != count,
        }
    }

    /// The rejoin is done.
    pub fn complete(&mut self, rebalance_pending: &mut bool)
        ensures
            *final(self) == RejoinRequest::NotNeeded,
            !*final(rebalance_pending),
    {
        *self = RejoinRequest::NotNeeded;
        *rebalance_pending = false;
    }
}

/// A rejoin that was asked for does not start before the application calls
/// `poll`, and starts at the next one. A later request does not delay it.
pub proof fn law_rejoin_waits_for_the_next_poll(request: RejoinRequest, polls: u64, later: u64)
    ensures
        request == RejoinRequest::NotNeeded ==> {
            &&& !request.asked_at(polls).is_due(polls)
            &&& polls != later ==> request.asked_at(polls).is_due(later)
        },
        request.is_due(later) ==> request.asked_at(polls).is_due(later),
        request.asked_at(polls) != RejoinRequest::NotNeeded,
{
}

/// The `poll` count after one more `poll`.
pub fn note_poll(polls: u64) -> (r: u64)
    ensures
        r == id_after(polls),
{
    if polls == u64::MAX {
        0
    } else {
        polls + 1
    }
}

/// A member of a group.
pub struct GroupMember {
    pub group_instance_id: Option<String>,
    /// The id of the member, or empty while it has none.
    pub member_id: String,
    /// The generation that the member is in, or -1.
    pub generation_id: i32,
    /// The topics of the last join.
    pub joined_topics: Vec<String>,
    /// The `unsubscribe` calls that were handled.
    pub seen_unsubscribes: u64,
    pub next_ownership_id: u64,
    /// The preparation of the join ran, and the join is not complete. A retry
    /// of a failed join does not prepare again.
    pub join_prepared: bool,
    /// The reason of the next join.
    pub rejoin_reason: String,
    pub rejoin: RejoinRequest,
    /// The partitions that the member lost with its generation, in the order of
    /// their loss. The next join gives them to the listener.
    pub lost_partitions: Assignment,
    pub poll_timer: PollTimer,
    /// The poll timer expired while a listener callback was waited for.
    pub poll_timeout_in_callback: bool,
    /// There is a rebalance listener.
    pub has_listener: bool,
    /// The partition counts of the subscribed topics that the assignment was
    /// computed against.
    pub known_counts: SortedMap<String, i32>,
    pub last_metadata_check: Nanos,
    pub metadata_refresh_interval: Nanos,
    pub session_timeout_ms: i32,
    pub rebalance_timeout_ms: i32,
}

/// Adds the items of a set to another.
pub fn add_all(into: &mut SortedSet<TopicPartition>, from: &SortedSet<TopicPartition>)
    ensures
        final(into)@ == old(into)@.union(from@),
{
    let ghost before = into@;
    let ghost items = from.items();
    let n = from.len();
    let mut i: usize = 0;
    while i < n
        invariant
            n == items.len(),
            items == from.items(),
            from.items_listed(),
            i <= n,
            forall|k: PartitionKey| #[trigger]
                into@.contains(k) ==> before.contains(k) || from@.contains(k),
            forall|k: PartitionKey| #[trigger] before.contains(k) ==> into@.contains(k),
            forall|j: int| 0 <= j < i ==> into@.contains(#[trigger] items[j]),
        decreases n - i,
    {
        into.insert(copy_key(from.at(i)));
        i = i + 1;
    }
    proof {
        assert forall|k: PartitionKey| #[trigger] from@.contains(k) implies into@.contains(k) by {
            assert(items.contains(k));
            let j = choose|j: int| 0 <= j < items.len() && items[j] == k;
            assert(into@.contains(items[j]));
        }
        assert(into@ =~= before.union(from@));
    }
}

impl GroupMember {
    /// Remember the owned partitions as lost before a reset clears them.
    pub fn remember_lost_partitions(&mut self, consumer: &Consumer)
        ensures
            final(self).lost_partitions.listed() == with_new(
                old(self).lost_partitions.listed(),
                consumer.assigned.listed(),
            ),
            final(self).lost_partitions@ == old(self).lost_partitions@.union(consumer.assigned@),
            *final(self) == (GroupMember {
                lost_partitions: final(self).lost_partitions,
                ..*old(self)
            }),
    {
        let owned = consumer.assigned.list();
        self.lost_partitions.add_new(&owned);
    }

    /// Install `generation_id` for commits and heartbeats, and keep the
    /// assignment. The member id of the join goes with it.
    pub fn install_generation(&mut self, consumer: &mut Consumer, generation_id: i32)
        ensures
            final(consumer).commit_identity.generation == generation_id,
            final(consumer).commit_identity.member_id@ == old(self).member_id@,
            final(consumer).commit_identity.rejoin_on_poll == old(
                consumer,
            ).commit_identity.rejoin_on_poll,
            *final(consumer) == (Consumer {
                commit_identity: final(consumer).commit_identity,
                ..*old(consumer)
            }),
            *final(self) == (GroupMember { generation_id, ..*old(self) }),
    {
        consumer.commit_identity.generation = generation_id;
        consumer.commit_identity.member_id = self.member_id.clone();
        self.generation_id = generation_id;
    }

    /// Publish `assignment` at `generation_id` to the consumer.
    ///
    /// The ends of partitions are forgotten: they belong to the ownerships
    /// before, and the next fetch learns them again.
    pub fn install_assignment(
        &mut self,
        consumer: &mut Consumer,
        assignment: &Vec<TopicPartition>,
        preserve_retained: bool,
        generation_id: i32,
        rejoin_on_poll: bool,
    )
        ensures
            assignment_installed(
                *old(self),
                *old(consumer),
                key_views(assignment@),
                preserve_retained,
                generation_id,
                rejoin_on_poll,
                *final(self),
                *final(consumer),
            ),
    {
        let mut next_id: u64 = self.next_ownership_id;
        update_ownership(
            &mut consumer.ownership_ids,
            assignment,
            preserve_retained,
            &mut next_id,
        );
        consumer.assigned = Assignment::from_list(copy_keys(assignment));
        consumer.commit_identity = CommitIdentity {
            generation: generation_id,
            member_id: self.member_id.clone(),
            rejoin_on_poll,
        };
        consumer.end_offsets = SortedMap::new();
        self.next_ownership_id = next_id;
        self.generation_id = generation_id;
    }

    /// Publish `assignment` at `generation_id` to the consumer.
    pub fn publish_assignment(
        &mut self,
        consumer: &mut Consumer,
        assignment: &Vec<TopicPartition>,
        preserve_retained: bool,
        generation_id: i32,
    )
        ensures
            assignment_installed(
                *old(self),
                *old(consumer),
                key_views(assignment@),
                preserve_retained,
                generation_id,
                false,
                *final(self),
                *final(consumer),
            ),
    {
        self.install_assignment(consumer, assignment, preserve_retained, generation_id, false);
    }
}

/// Whether a consumer has a new assignment: its partitions, their ownerships,
/// and the identity for commits.
pub open spec fn assignment_installed(
    member: GroupMember,
    consumer: Consumer,
    assignment: Seq<PartitionKey>,
    preserve_retained: bool,
    generation_id: i32,
    rejoin_on_poll: bool,
    member_after: GroupMember,
    after: Consumer,
) -> bool {
    let (ownership, next_id) = owning(
        retained(consumer.ownership_ids@, assignment, preserve_retained),
        assignment,
        member.next_ownership_id,
    );
    &&& after.assigned.listed() == assignment
    &&& after.ownership_ids@ == ownership
    &&& after.commit_identity.generation == generation_id
    &&& after.commit_identity.member_id@ == member.member_id@
    &&& after.commit_identity.rejoin_on_poll == rejoin_on_poll
    &&& after.end_offsets@ == Map::<PartitionKey, i64>::empty()
    &&& after == (Consumer {
        assigned: after.assigned,
        ownership_ids: after.ownership_ids,
        commit_identity: after.commit_identity,
        end_offsets: after.end_offsets,
        ..consumer
    })
    &&& member_after == (GroupMember { generation_id, next_ownership_id: next_id, ..member })
}

/// Whether the member and the consumer lost the membership: no member id, no
/// generation and no partitions, with the owned partitions remembered as lost
/// and a rebalance pending.
pub open spec fn membership_lost(
    member: GroupMember,
    consumer: Consumer,
    rejoin_on_poll: bool,
    member_after: GroupMember,
    after: Consumer,
) -> bool {
    &&& member_after.member_id@.len() == 0
    &&& member_after.generation_id == -1
    &&& member_after.lost_partitions.listed() == with_new(
        member.lost_partitions.listed(),
        consumer.assigned.listed(),
    )
    &&& member_after.lost_partitions@ == member.lost_partitions@.union(consumer.assigned@)
    &&& member_after == (GroupMember {
        member_id: member_after.member_id,
        generation_id: -1i32,
        lost_partitions: member_after.lost_partitions,
        ..member
    })
    &&& after.assigned.listed() == Seq::<PartitionKey>::empty()
    &&& after.assigned@ == Set::<PartitionKey>::empty()
    &&& after.ownership_ids@ == Map::<PartitionKey, u64>::empty()
    &&& after.end_offsets@ == Map::<PartitionKey, i64>::empty()
    &&& after.commit_identity.generation == -1
    &&& after.commit_identity.member_id@.len() == 0
    &&& after.commit_identity.rejoin_on_poll == rejoin_on_poll
    &&& after.rebalance_pending
    &&& after == (Consumer {
        assigned: after.assigned,
        ownership_ids: after.ownership_ids,
        commit_identity: after.commit_identity,
        end_offsets: after.end_offsets,
        rebalance_pending: after.rebalance_pending,
        poll_error: after.poll_error,
        ..consumer
    })
}

impl GroupMember {
    fn lose_membership(&mut self, consumer: &mut Consumer, rejoin_on_poll: bool)
        ensures
            membership_lost(
                *old(self),
                *old(consumer),
                rejoin_on_poll,
                *final(self),
                *final(consumer),
            ),
            final(consumer).poll_error == old(consumer).poll_error,
    {
        self.member_id = String::new();
        consumer.rebalance_pending = true;
        self.remember_lost_partitions(consumer);
        let none: Vec<TopicPartition> = Vec::new();
        let ghost keys = key_views(none@);
        self.install_assignment(consumer, &none, false, -1, rejoin_on_poll);
        proof {
            assert(keys =~= seq![]);
            assert(consumer.assigned@ =~= Set::<PartitionKey>::empty());
        }
    }

    /// Forget the member id, the generation and the partition ownership after
    /// the coordinator did not know the member, so the next join starts from
    /// scratch.
    pub fn forget_member(&mut self, consumer: &mut Consumer)
        ensures
            membership_lost(*old(self), *old(consumer), false, *final(self), *final(consumer)),
            final(consumer).poll_error == old(consumer).poll_error,
    {
        self.lose_membership(consumer, false);
    }

    /// Remove the member from the group after the coordinator fenced its
    /// `group.instance.id`. A commit fails until the member joins again, and
    /// the next `poll` returns the error.
    pub fn fence_member(&mut self, consumer: &mut Consumer, group_instance_id: String)
        ensures
            membership_lost(*old(self), *old(consumer), true, *final(self), *final(consumer)),
            final(consumer).poll_error == Some(ConsumerError::FencedInstanceId(group_instance_id)),
    {
        self.lose_membership(consumer, true);
        consumer.poll_error = Some(ConsumerError::FencedInstanceId(group_instance_id));
    }

    /// Leave the group because the application did not call `poll` in time.
    ///
    /// The member and the assignment are cleared before the leave request goes
    /// out, so a `poll` during the request fetches nothing. A static member
    /// sends no leave request.
    pub fn leave_on_poll_timeout(&mut self, consumer: &mut Consumer) -> (r: Option<
        LeaveGroupRequest,
    >)
        ensures
            membership_lost(*old(self), *old(consumer), true, *final(self), *final(consumer)),
            final(consumer).poll_error == old(consumer).poll_error,
            r is Some <==> sends_leave(
                old(self).member_id@,
                old(self).group_instance_id is Some,
                GroupMembershipOperation::Default,
            ),
            r matches Some(request) ==> leaves(
                request,
                old(consumer).settings.group_id@,
                old(self).member_id@,
                Some(POLL_TIMEOUT_LEAVE_REASON@),
            ),
    {
        let member_id = self.member_id.clone();
        self.lose_membership(consumer, true);
        self.leave_group(
            consumer,
            member_id.as_str(),
            GroupMembershipOperation::Default,
            POLL_TIMEOUT_LEAVE_REASON,
        )
    }

    /// The leave request of a member for an operation, if it leaves.
    pub fn leave_group(
        &self,
        consumer: &Consumer,
        member_id: &str,
        operation: GroupMembershipOperation,
        reason: &str,
    ) -> (r: Option<LeaveGroupRequest>)
        ensures
            r is Some <==> sends_leave(member_id@, self.group_instance_id is Some, operation),
            r matches Some(request) ==> leaves(
                request,
                consumer.settings.group_id@,
                member_id@,
                Some(reason@),
            ),
    {
        if !should_send_leave_group(member_id, &self.group_instance_id, operation) {
            return None;
        }
        Some(
            build_leave_group_request(
                consumer.settings.group_id.clone(),
                member_id.to_owned(),
                Some(reason),
            ),
        )
    }
}

/// Whether an error of the group work must reach the application.
pub open spec fn reaches_poll(error: ConsumerError) -> bool {
    error.fatal_offset_fetch_error() || (error matches ConsumerError::Client(client) && (
    client matches crate::error::ClientError::Sasl(_, refused) && refused))
}

impl Consumer {
    /// Keep `error` for the next `poll` if the application must see it: an
    /// offset fetch error that is not retried, or refused credentials.
    pub fn report_rejoin_error(&mut self, error: ConsumerError)
        ensures
            final(self).poll_error == if reaches_poll(error) {
                Some(error)
            } else {
                old(self).poll_error
            },
            *final(self) == (Consumer { poll_error: final(self).poll_error, ..*old(self) }),
    {
        let refused = match &error {
            ConsumerError::Client(client) => client.is_authentication_failure(),
            _ => false,
        };
        if error.is_fatal_offset_fetch_error() || refused {
            self.poll_error = Some(error);
        }
    }

    /// Whether an error waits for the next `poll`.
    pub fn poll_error_pending(&self) -> (r: bool)
        ensures
            r == self.poll_error is Some,
    {
        self.poll_error.is_some()
    }

    /// Take the error that the group work left for `poll`, if any.
    pub fn take_poll_error(&mut self) -> (r: Option<ConsumerError>)
        ensures
            r == old(self).poll_error,
            final(self).poll_error is None,
            *final(self) == (Consumer { poll_error: final(self).poll_error, ..*old(self) }),
    {
        self.poll_error.take()
    }
}

} // verus!
