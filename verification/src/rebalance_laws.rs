//! What a rebalance does to the assignment and to the member, stated over the
//! old and the new partitions.
use vstd::multiset::Multiset;
use vstd::prelude::*;

use crate::assignment::lemma_from_set;
use crate::collections::{lemma_pushed, SortedMap};
use crate::config::RebalanceProtocol;
use crate::consumer::{Consumer, Nanos};
use crate::coordinator::{event_handled, rejoin_ended, unsubscribed, TaskEvent, TaskStep};
use crate::error::ConsumerError;
use crate::group_wire::LeaveGroupRequest;
use crate::join::{of_subscription, prepare_call, protocol_index};
use crate::list_offsets::key_views;
use crate::membership::{
    membership_lost, owning, reaches_poll, retained, GroupMember, RejoinRequest,
};
use crate::rejoin::{
    beyond, plan, second_plan, step_done, step_model, ListenerCallKind, RebalanceStep, StepModel,
};
use crate::subscription::text_set;
use crate::text::views;
use crate::wire::PartitionKey;

verus! {

/// Each partition of an assignment that had no ownership gets the next id, and
/// one that had one keeps it. Partitions are taken in their order.
pub proof fn law_ownership_ids(
    ownership: Map<PartitionKey, u64>,
    a: Seq<PartitionKey>,
    b: Seq<PartitionKey>,
    x: PartitionKey,
    next_id: u64,
)
    ensures
        owning(ownership, a + b, next_id) == owning(
            owning(ownership, a, next_id).0,
            b,
            owning(ownership, a, next_id).1,
        ),
        ownership.contains_key(x) ==> owning(ownership, seq![x], next_id) == (ownership, next_id),
        !ownership.contains_key(x) ==> owning(ownership, seq![x], next_id) == (
            ownership.insert(x, next_id),
            if next_id == 18446744073709551615 {
                0
            } else {
                (next_id + 1) as u64
            },
        ),
    decreases b.len(),
{
    let none = Seq::<PartitionKey>::empty();
    assert(seq![x].drop_last() =~= none);
    assert(seq![x].last() == x);
    assert(owning(ownership, none, next_id) == (ownership, next_id));
    if b.len() == 0 {
        assert(a + b =~= a);
    } else {
        law_ownership_ids(ownership, a, b.drop_last(), x, next_id);
        assert((a + b).drop_last() =~= a + b.drop_last());
        assert((a + b).last() == b.last());
    }
}

/// A rejoin that was asked for after a poll is due once another poll came. One
/// that is asked for again stays as it is.
pub proof fn law_asked_rejoins(request: RejoinRequest, asked: u64, polls: u64)
    ensures
        !RejoinRequest::NotNeeded.is_due(polls),
        RejoinRequest::Now.is_due(polls),
        RejoinRequest::AfterPoll(asked).is_due(polls) <==> asked != polls,
        request == RejoinRequest::NotNeeded ==> request.asked_at(asked)
            == RejoinRequest::AfterPoll(asked),
        request != RejoinRequest::NotNeeded ==> request.asked_at(asked) == request,
{
}

/// What is beyond a set in a list are the items of the list that the set does not
/// have.
pub proof fn law_beyond(list: Seq<PartitionKey>, set: Set<PartitionKey>, key: PartitionKey)
    ensures
        beyond(list, set).contains(key) <==> list.contains(key) && !set.contains(key),
    decreases list.len(),
{
    if list.len() > 0 {
        let front = list.drop_last();
        law_beyond(front, set, key);
        assert(front.push(list.last()) =~= list);
        lemma_pushed(front, list.last(), key);
        lemma_pushed(beyond(front, set), list.last(), key);
    }
}

/// An eager rebalance installs the whole assignment as new: all of it waits for
/// its callback, the callback gets all of it, and only its offsets stay. Only the
/// partitions that were not owned have their offsets fetched.
pub proof fn law_eager_plan(
    owned: Set<PartitionKey>,
    assignment: Seq<PartitionKey>,
    generation: i32,
)
    ensures
        ({
            let steps = plan(RebalanceProtocol::Eager, owned, assignment, generation);
            &&& steps.len() == 6
            &&& steps[0] is Prime
            &&& forall|k: PartitionKey| #[trigger]
                steps[0]->Prime_0.count(k) == if assignment.contains(k) && !owned.contains(k) {
                    1nat
                } else {
                    0nat
                }
            &&& steps[1] is Gate
            &&& forall|k: PartitionKey| #[trigger]
                steps[1]->Gate_0.contains(k) <==> assignment.contains(k)
            &&& steps[2]
                == (StepModel::Publish { assignment, preserve_retained: false, generation })
            &&& steps[3] is KeepOnly
            &&& forall|k: PartitionKey| #[trigger]
                steps[3]->KeepOnly_0.contains(k) <==> assignment.contains(k)
            &&& steps[4] == (StepModel::Listener {
                kind: ListenerCallKind::Assigned,
                partitions: assignment.to_multiset(),
            })
            &&& steps[5] is Ungate
            &&& forall|k: PartitionKey| #[trigger]
                steps[5]->Ungate_0.contains(k) <==> assignment.contains(k)
        }),
{
    assignment.to_multiset_ensures();
    let added = assignment.to_set().difference(owned);
    assert(assignment.to_set().finite());
    assert(added.finite());
    lemma_from_set(added);
    assert forall|k: PartitionKey| #[trigger] assignment.to_multiset().dom().contains(
        k,
    ) <==> assignment.contains(k) by {
        assert(assignment.to_multiset().count(k) > 0 <==> assignment.contains(k));
    }
}

/// Whether steps install an assignment of which `added` are new: their offsets
/// are fetched, they wait for their callback, the assignment is published with
/// the ownerships that it keeps, and the callback gets them before their fetches
/// start.
pub open spec fn installs_added(
    steps: Seq<StepModel>,
    at: int,
    assignment: Seq<PartitionKey>,
    generation: i32,
    owned: Set<PartitionKey>,
) -> bool {
    &&& 0 <= at
    &&& at + 5 <= steps.len()
    &&& steps[at] is Prime
    &&& forall|k: PartitionKey| #[trigger]
        steps[at]->Prime_0.count(k) > 0 <==> assignment.contains(k) && !owned.contains(k)
    &&& steps[at + 1] is Gate
    &&& forall|k: PartitionKey| #[trigger]
        steps[at + 1]->Gate_0.contains(k) <==> assignment.contains(k) && !owned.contains(k)
    &&& steps[at + 2] == (StepModel::Publish { assignment, preserve_retained: true, generation })
    &&& steps[at + 3] is Listener
    &&& steps[at + 3]->kind == ListenerCallKind::Assigned
    &&& steps[at + 3]->Listener_partitions == steps[at]->Prime_0
    &&& steps[at + 4] is Ungate
    &&& forall|k: PartitionKey| #[trigger]
        steps[at + 4]->Ungate_0.contains(k) <==> assignment.contains(k) && !owned.contains(k)
}

/// Whether steps revoke what an assignment took away, under the new generation
/// and before anything is installed.
pub open spec fn revokes_taken(
    steps: Seq<StepModel>,
    assignment: Seq<PartitionKey>,
    generation: i32,
    owned: Set<PartitionKey>,
) -> bool {
    &&& steps.len() >= 2
    &&& steps[0] == StepModel::InstallGeneration(generation)
    &&& steps[1] is Listener
    &&& steps[1]->kind == ListenerCallKind::Revoked
    &&& forall|k: PartitionKey| #[trigger]
        steps[1]->Listener_partitions.count(k) > 0 <==> owned.contains(k) && !assignment.contains(
            k,
        )
}

/// A cooperative rebalance announces the new partitions only, and revokes only
/// those that were taken away; where there are any it revokes them first, forgets
/// them last and joins again.
pub proof fn law_cooperative_plan(
    owned: Set<PartitionKey>,
    assignment: Seq<PartitionKey>,
    generation: i32,
)
    requires
        owned.finite(),
    ensures
        ({
            let steps = plan(RebalanceProtocol::Cooperative, owned, assignment, generation);
            let taken = exists|k: PartitionKey| #[trigger]
                owned.contains(k) && !assignment.contains(k);
            &&& !taken ==> steps.len() == 5 && installs_added(
                steps,
                0,
                assignment,
                generation,
                owned,
            )
            &&& taken ==> {
                &&& steps.len() == 9
                &&& revokes_taken(steps, assignment, generation, owned)
                &&& installs_added(steps, 2, assignment, generation, owned)
                &&& steps[7] is Forget
                &&& forall|k: PartitionKey| #[trigger]
                    steps[7]->Forget_0.contains(k) <==> owned.contains(k) && !assignment.contains(k)
                &&& steps[8] == StepModel::JoinAgain
            }
        }),
{
    let new = assignment.to_set();
    let added = Multiset::from_set(new.difference(owned));
    let revoked = owned.difference(new);
    assert(new.finite());
    assert(new.difference(owned).finite());
    assert(revoked.finite());
    lemma_from_set(new.difference(owned));
    lemma_from_set(revoked);
    if exists|k: PartitionKey| #[trigger] owned.contains(k) && !assignment.contains(k) {
        let k = choose|k: PartitionKey| #[trigger] owned.contains(k) && !assignment.contains(k);
        assert(revoked.contains(k));
    } else {
        assert(revoked =~= Set::<PartitionKey>::empty());
    }
}

/// The second join of a cooperative rebalance revokes and announces in the same
/// way, and does not join again.
pub proof fn law_second_plan(
    owned: Seq<PartitionKey>,
    assignment: Seq<PartitionKey>,
    generation: i32,
)
    ensures
        ({
            let steps = second_plan(owned, assignment, generation);
            let taken = exists|k: PartitionKey| #[trigger]
                owned.contains(k) && !assignment.contains(k);
            &&& !taken ==> steps.len() == 5 && installs_added(
                steps,
                0,
                assignment,
                generation,
                owned.to_set(),
            )
            &&& taken ==> {
                &&& steps.len() == 7
                &&& revokes_taken(steps, assignment, generation, owned.to_set())
                &&& installs_added(steps, 2, assignment, generation, owned.to_set())
            }
        }),
{
    let added = beyond(assignment, owned.to_set());
    let revoked = beyond(owned, assignment.to_set());
    assert forall|k: PartitionKey| #[trigger] added.contains(k) <==> assignment.contains(k)
        && !owned.contains(k) by {
        law_beyond(assignment, owned.to_set(), k);
    }
    assert forall|k: PartitionKey| #[trigger] revoked.contains(k) <==> owned.contains(k)
        && !assignment.contains(k) by {
        law_beyond(owned, assignment.to_set(), k);
    }
    added.to_multiset_ensures();
    revoked.to_multiset_ensures();
    assert forall|k: PartitionKey| #[trigger] added.to_multiset().count(k) > 0
        <==> assignment.contains(k) && !owned.contains(k) by {
        assert(added.contains(k) <==> added.to_multiset().count(k) > 0);
    }
    assert forall|k: PartitionKey| #[trigger] revoked.to_multiset().count(k) > 0
        <==> owned.contains(k) && !assignment.contains(k) by {
        assert(revoked.contains(k) <==> revoked.to_multiset().count(k) > 0);
    }
    if exists|k: PartitionKey| #[trigger] owned.contains(k) && !assignment.contains(k) {
        let k = choose|k: PartitionKey| #[trigger] owned.contains(k) && !assignment.contains(k);
        assert(revoked.contains(k));
    } else if revoked.len() > 0 {
        assert(revoked.contains(revoked[0]));
    }
}

/// What a step does to the offsets of a partition: it keeps only those of the
/// given partitions, or forgets theirs. No other step touches them.
pub proof fn law_steps_and_offsets(
    step: RebalanceStep,
    member: GroupMember,
    consumer: Consumer,
    member_after: GroupMember,
    after: Consumer,
    key: PartitionKey,
)
    requires
        step_done(step_model(step), member, consumer, member_after, after),
    ensures
        ({
            let had = consumer.next_offsets@;
            let has = after.next_offsets@;
            let was_at = consumer.positions@;
            let is_at = after.positions@;
            let stays = match step {
                RebalanceStep::KeepOnly(list) => key_views(list@).contains(key),
                RebalanceStep::Forget(list) => !key_views(list@).contains(key),
                _ => true,
            };
            &&& has.contains_key(key) <==> had.contains_key(key) && stays
            &&& has.contains_key(key) ==> has[key] == had[key]
            &&& is_at.contains_key(key) <==> was_at.contains_key(key) && stays
            &&& is_at.contains_key(key) ==> is_at[key] == was_at[key]
            &&& after.paused_partitions == consumer.paused_partitions
            &&& after.fetch_buffer == consumer.fetch_buffer
            &&& after.fetches == consumer.fetches
        }),
{
}

/// Which partitions wait for their callback after a step: those that a step puts
/// on hold, where there is a listener, until a step lets them go.
pub proof fn law_steps_and_callbacks(
    step: RebalanceStep,
    member: GroupMember,
    consumer: Consumer,
    member_after: GroupMember,
    after: Consumer,
    key: PartitionKey,
)
    requires
        step_done(step_model(step), member, consumer, member_after, after),
    ensures
        after.assigned_callback_pending@.contains(key) <==> match step {
            RebalanceStep::Gate(list) => consumer.assigned_callback_pending@.contains(key) || (
            member.has_listener && key_views(list@).contains(key)),
            RebalanceStep::Ungate(list) => consumer.assigned_callback_pending@.contains(key)
                && !key_views(list@).contains(key),
            _ => consumer.assigned_callback_pending@.contains(key),
        },
        member_after.has_listener == member.has_listener,
        member_after.member_id == member.member_id,
{
}

/// Which step changes the assignment and the generation: a published assignment
/// is the new one, in its order, for the generation of the step; the ids of kept
/// partitions stay where the step says so.
pub proof fn law_steps_and_assignment(
    step: RebalanceStep,
    member: GroupMember,
    consumer: Consumer,
    member_after: GroupMember,
    after: Consumer,
    key: PartitionKey,
)
    requires
        step_done(step_model(step), member, consumer, member_after, after),
    ensures
        match step {
            RebalanceStep::Publish { assignment, preserve_retained, generation } => {
                &&& after.assigned.listed() == key_views(assignment@)
                &&& after.ownership_ids@.contains_key(key) <==> key_views(assignment@).contains(key)
                &&& preserve_retained && key_views(assignment@).contains(key)
                    && consumer.ownership_ids@.contains_key(key) ==> after.ownership_ids@[key]
                    == consumer.ownership_ids@[key]
                &&& member_after.generation_id == generation
                &&& after.commit_identity.generation == generation
                &&& after.commit_identity.member_id@ == member.member_id@
                &&& !after.commit_identity.rejoin_on_poll
                &&& after.end_offsets@ == Map::<PartitionKey, i64>::empty()
            },
            RebalanceStep::InstallGeneration(generation) => {
                &&& after.assigned == consumer.assigned
                &&& after.ownership_ids == consumer.ownership_ids
                &&& member_after.generation_id == generation
                &&& after.commit_identity.generation == generation
                &&& after.commit_identity.member_id@ == member.member_id@
            },
            _ => {
                &&& after.assigned == consumer.assigned
                &&& after.ownership_ids == consumer.ownership_ids
                &&& after.commit_identity == consumer.commit_identity
                &&& after.end_offsets == consumer.end_offsets
                &&& member_after.generation_id == member.generation_id
                &&& member_after.rejoin_reason@ == if step is JoinAgain {
                    "need to revoke partitions and re-join"@
                } else {
                    member.rejoin_reason@
                }
            },
        },
{
    if let RebalanceStep::Publish { assignment, preserve_retained, generation } = step {
        let list = key_views(assignment@);
        let start = retained(
            consumer.ownership_ids@,
            list,
            preserve_retained,
        );
        lemma_owned(start, list, member.next_ownership_id, key);
    }
}

proof fn lemma_owned(
    ownership: Map<PartitionKey, u64>,
    assignment: Seq<PartitionKey>,
    next_id: u64,
    key: PartitionKey,
)
    ensures
        owning(ownership, assignment, next_id).0.contains_key(key) <==> ownership.contains_key(key)
            || assignment.contains(key),
        ownership.contains_key(key) ==> owning(ownership, assignment, next_id).0[key]
            == ownership[key],
    decreases assignment.len(),
{
    if assignment.len() > 0 {
        let front = assignment.drop_last();
        lemma_owned(ownership, front, next_id, key);
        assert(front.push(assignment.last()) =~= assignment);
        lemma_pushed(front, assignment.last(), key);
    }
}

/// A lost member has no id, no generation and no partitions. What it had is
/// remembered as lost, after what was lost before, and commits fail until the
/// next join.
pub proof fn law_lost_members(
    member: GroupMember,
    consumer: Consumer,
    rejoin_on_poll: bool,
    member_after: GroupMember,
    after: Consumer,
    key: PartitionKey,
)
    requires
        membership_lost(member, consumer, rejoin_on_poll, member_after, after),
    ensures
        member_after.member_id@.len() == 0,
        member_after.generation_id == -1,
        member_after.lost_partitions@.contains(key) <==> member.lost_partitions@.contains(key)
            || consumer.assigned@.contains(key),
        !after.assigned@.contains(key),
        !after.ownership_ids@.contains_key(key),
        after.commit_identity.generation == -1,
        after.commit_identity.member_id@.len() == 0,
        after.commit_identity.rejoin_on_poll == rejoin_on_poll,
        after.rebalance_pending,
        after.next_offsets == consumer.next_offsets,
        after.positions == consumer.positions,
        after.fetch_buffer == consumer.fetch_buffer,
        member_after.rejoin == member.rejoin,
{
}

/// An event is answered by one thing, the first that holds: a poll with no join
/// due waits; a member whose poll timer ran out without a poll leaves; a metadata
/// check comes where it is time for one and no join was asked for; a due join
/// starts; a tick of a member beats. A poll starts the poll timer again.
pub proof fn law_events_of_a_member(
    member: GroupMember,
    consumer: Consumer,
    event: TaskEvent,
    polls: u64,
    polled: bool,
    now: Nanos,
    step: TaskStep,
    member_after: GroupMember,
    after: Consumer,
)
    requires
        event_handled(member, consumer, event, polls, polled, now, step, member_after, after),
        now + member.poll_timer.interval <= u64::MAX,
    ensures
        ({
            let joined = member.member_id@.len() > 0;
            let is_poll = event == TaskEvent::Poll;
            let due = match member.rejoin {
                RejoinRequest::NotNeeded => false,
                RejoinRequest::Now => true,
                RejoinRequest::AfterPoll(asked) => asked != polls,
            };
            let deadline: int = if is_poll || polled {
                now + member.poll_timer.interval
            } else {
                member.poll_timer.deadline as int
            };
            let late = !is_poll && joined && deadline <= now;
            let check = member.rejoin == RejoinRequest::NotNeeded && (
            member.metadata_refresh_interval == 0 || member.last_metadata_check
                + member.metadata_refresh_interval <= now);
            &&& step is Leave <==> late
            &&& step is CheckMetadata <==> !late && check && !is_poll
            &&& step is Rejoin <==> !late && due
            &&& step is Heartbeat <==> !late && !check && !due && event == TaskEvent::Tick && joined
            &&& !late ==> member_after.poll_timer.deadline == deadline && after == consumer
                && member_after.member_id == member.member_id && member_after.rejoin
                == member.rejoin
            &&& step is CheckMetadata ==> member_after.last_metadata_check == now
            &&& !(step is CheckMetadata) && !late ==> member_after.last_metadata_check
                == member.last_metadata_check
            &&& late ==> {
                &&& member_after.member_id@.len() == 0
                &&& member_after.generation_id == -1
                &&& after.assigned@ == Set::<PartitionKey>::empty()
                &&& after.commit_identity.rejoin_on_poll
                &&& step->Leave_0 is Some <==> member.group_instance_id is None
                &&& step->Leave_0 matches Some(request) ==> request.group_id@
                    == consumer.settings.group_id@ && request.member_id@ == member.member_id@
                &&& member_after.rejoin == if member.rejoin == RejoinRequest::NotNeeded {
                    RejoinRequest::AfterPoll(polls)
                } else {
                    member.rejoin
                }
            }
        }),
{
}

/// After a join no other is asked for, the poll timer starts again, and the
/// counts that the assignment was computed against are known. A fenced member,
/// and one that timed out in its callback, is lost. Any other error leaves the
/// member and its partitions as they are.
pub proof fn law_ends_of_a_join(
    result: Result<SortedMap<String, i32>, ConsumerError>,
    polls: u64,
    now: Nanos,
    member: GroupMember,
    consumer: Consumer,
    step: TaskStep,
    member_after: GroupMember,
    after: Consumer,
)
    requires
        rejoin_ended(result, polls, now, member, consumer, step, member_after, after),
        now + member.poll_timer.interval <= u64::MAX,
    ensures
        ({
            let fenced = result is Err && result->Err_0 is FencedInstanceId;
            let timed_out = result is Err && !fenced && member.poll_timeout_in_callback;
            &&& result is Ok ==> {
                &&& step == TaskStep::Wait
                &&& member_after.rejoin == RejoinRequest::NotNeeded
                &&& member_after.poll_timer.deadline == now + member.poll_timer.interval
                &&& member_after.member_id == member.member_id
                &&& member_after.generation_id == member.generation_id
                &&& !after.rebalance_pending
                &&& after.assigned == consumer.assigned
                &&& after.next_offsets == consumer.next_offsets
            }
            &&& fenced ==> {
                &&& step == TaskStep::WaitForPollAfterError
                &&& after.poll_error is Some
                &&& after.poll_error->Some_0 is FencedInstanceId
                &&& after.poll_error->Some_0->FencedInstanceId_0@
                    == result->Err_0->FencedInstanceId_0@
            }
            &&& timed_out ==> step is Leave && member_after.rejoin == RejoinRequest::AfterPoll(
                polls,
            ) && !member_after.poll_timeout_in_callback
            &&& fenced || timed_out ==> {
                &&& member_after.member_id@.len() == 0
                &&& member_after.generation_id == -1
                &&& after.assigned@ == Set::<PartitionKey>::empty()
                &&& after.commit_identity.rejoin_on_poll
            }
            &&& result is Err && !fenced && !timed_out ==> {
                &&& step == TaskStep::Wait
                &&& member_after.member_id == member.member_id
                &&& member_after.generation_id == member.generation_id
                &&& member_after.rejoin == member.rejoin
                &&& after.assigned == consumer.assigned
                &&& after.next_offsets == consumer.next_offsets
                &&& after.rebalance_pending == consumer.rebalance_pending
                &&& after.poll_error == if reaches_poll(result->Err_0) {
                    Some(result->Err_0)
                } else {
                    consumer.poll_error
                }
            }
        }),
{
}

/// An `unsubscribe` takes the member out of its group, with nothing owned,
/// nothing lost and no join asked for. Only a member without an instance id tells
/// the coordinator.
pub proof fn law_unsubscribed_members(
    member: GroupMember,
    consumer: Consumer,
    request: Option<LeaveGroupRequest>,
    member_after: GroupMember,
    after: Consumer,
    key: PartitionKey,
)
    requires
        unsubscribed(member, consumer, request, member_after, after),
    ensures
        member_after.member_id@.len() == 0,
        member_after.generation_id == -1,
        !member_after.lost_partitions@.contains(key),
        member_after.rejoin == RejoinRequest::NotNeeded,
        member_after.seen_unsubscribes == consumer.subscription.unsubscribes,
        !after.assigned@.contains(key),
        !after.ownership_ids@.contains_key(key),
        !after.end_offsets@.contains_key(key),
        !after.commit_identity.rejoin_on_poll,
        !after.rebalance_pending,
        request is Some <==> member.member_id@.len() > 0 && member.group_instance_id is None,
        request is Some ==> request->Some_0.group_id@ == consumer.settings.group_id@
            && request->Some_0.member_id@ == member.member_id@,
{
}

/// Before a join a member without a generation announces what it lost. Another
/// one revokes all that it has under the eager protocol, and under the
/// cooperative one what is no longer subscribed. Without any of it there is no
/// call, except under the eager protocol.
pub proof fn law_calls_before_a_join(member: GroupMember, consumer: Consumer, key: PartitionKey)
    ensures
        ({
            let call = prepare_call(member, consumer);
            let out = member.member_id@.len() == 0 || member.generation_id < 0;
            let eager = consumer.settings.rebalance_protocol == RebalanceProtocol::Eager;
            let topics = consumer.subscription.topics@;
            let subscribed = exists|i: int|
                0 <= i < topics.len() && (#[trigger] topics[i])@ == key.0;
            &&& out ==> match call {
                Some(c) => c.0 == ListenerCallKind::Lost && c.1 == member.lost_partitions.listed()
                    && exists|k: PartitionKey| #[trigger] member.lost_partitions@.contains(k),
                None => !member.lost_partitions@.contains(key),
            }
            &&& !out && eager ==> call == Some(
                (ListenerCallKind::Revoked, consumer.assigned.listed()),
            )
            &&& !out && !eager ==> match call {
                Some(c) => c.0 == ListenerCallKind::Revoked && (c.1.contains(key)
                    <==> consumer.assigned.listed().contains(key) && !subscribed),
                None => !(consumer.assigned.listed().contains(key) && !subscribed),
            }
        }),
{
    let topics = consumer.subscription.topics@;
    let set = text_set(topics);
    let owned = consumer.assigned.listed();
    if set.contains(key.0) {
        let i = choose|i: int| 0 <= i < views(topics).len() && views(topics)[i] == key.0;
        assert(topics[i]@ == key.0);
    }
    if exists|i: int| 0 <= i < topics.len() && (#[trigger] topics[i])@ == key.0 {
        let i = choose|i: int| 0 <= i < topics.len() && (#[trigger] topics[i])@ == key.0;
        assert(views(topics)[i] == key.0);
        assert(set.contains(key.0));
    }
    lemma_unsubscribed(owned, set, key);
    if forall|k: PartitionKey| !#[trigger] member.lost_partitions@.contains(k) {
        assert(member.lost_partitions@ =~= Set::<PartitionKey>::empty());
    }
    let revoked = of_subscription(owned, set, false);
    if revoked.len() == 0 {
        assert(!revoked.contains(key));
    }
}

proof fn lemma_unsubscribed(owned: Seq<PartitionKey>, topics: Set<Seq<char>>, key: PartitionKey)
    ensures
        of_subscription(owned, topics, false).contains(key) <==> owned.contains(key)
            && !topics.contains(key.0),
        of_subscription(owned, topics, true).contains(key) <==> owned.contains(key)
            && topics.contains(key.0),
    decreases owned.len(),
{
    if owned.len() > 0 {
        let front = owned.drop_last();
        lemma_unsubscribed(front, topics, key);
        assert(front.push(owned.last()) =~= owned);
        lemma_pushed(front, owned.last(), key);
        lemma_pushed(
            of_subscription(front, topics, false),
            owned.last(),
            key,
        );
        lemma_pushed(
            of_subscription(front, topics, true),
            owned.last(),
            key,
        );
    }
}

/// There is no selected protocol where no offered one has its name.
pub proof fn law_no_selected_protocol(offered: Seq<String>, name: Seq<char>)
    requires
        forall|i: int| 0 <= i < offered.len() ==> (#[trigger] offered[i])@ != name,
    ensures
        protocol_index(offered, name) is None,
    decreases offered.len(),
{
    if offered.len() > 0 {
        let front = offered.drop_last();
        assert forall|i: int| 0 <= i < front.len() implies (#[trigger] front[i])@ != name by {
            assert(offered[i] == front[i]);
        }
        law_no_selected_protocol(front, name);
        assert(offered[offered.len() - 1] == offered.last());
    }
}

/// The selected protocol is the first offered one with its name.
pub proof fn law_selected_protocol(offered: Seq<String>, name: Seq<char>, i: int)
    requires
        0 <= i < offered.len(),
        offered[i]@ == name,
        forall|j: int| 0 <= j < i ==> (#[trigger] offered[j])@ != name,
    ensures
        protocol_index(offered, name) == Some(i),
    decreases offered.len(),
{
    let front = offered.drop_last();
    assert forall|j: int| 0 <= j < i implies (#[trigger] front[j])@ != name by {
        assert(offered[j] == front[j]);
    }
    if i < offered.len() - 1 {
        assert(front[i] == offered[i]);
        law_selected_protocol(front, name, i);
    } else {
        law_no_selected_protocol(front, name);
    }
}

} // verus!
