//! The work of a group member between its joins: heartbeats, the poll timer,
//! subscription changes, and the start of the next join.
//!
//! Each function takes one event and says what to do next. The caller performs
//! it and hands back what came of it.
use vstd::prelude::*;

use crate::assignment::Assignment;
use crate::collections::SortedMap;
use crate::consumer::{Consumer, Nanos};
use crate::error::ConsumerError;
use crate::group_wire::{
    failure_name, heartbeat_reason, heartbeat_rejoin_reason, instance_of, instance_or_empty,
    leaves, rebalance_failure_reason, sends_leave, GroupMembershipOperation, HeartbeatOutcome,
    LeaveGroupRequest, CLOSE_LEAVE_REASON, FENCED_INSTANCE_ID, POLL_TIMEOUT_LEAVE_REASON,
    UNKNOWN_MEMBER_ID, UNSUBSCRIBE_LEAVE_REASON,
};
use crate::list_offsets::key_views;
use crate::membership::{membership_lost, reaches_poll, GroupMember, PollTimer, RejoinRequest};
use crate::metadata::MetadataResponse;
use crate::retry::{elapsed, retry_deadline_elapsed};
use crate::subscription::{
    copy_texts, same_texts, subscription_changed_reason, Subscription, TopicPattern,
};
use crate::text::{joined, views};
use crate::topic_counts::{grew, merge_counts, merged, subscribed_topics_grew};
use crate::wire::{PartitionKey, TopicPartition};

verus! {

/// What woke the member.
#[derive(Clone, Copy, Debug, PartialEq, Eq, Structural)]
pub enum TaskEvent {
    /// The heartbeat interval passed.
    Tick,
    /// The application called `poll`.
    Poll,
    /// The poll timer reached its deadline.
    PollTimeout,
}

/// What the member does next.
#[derive(Debug, PartialEq, Eq)]
pub enum TaskStep {
    /// Wait for the next event.
    Wait,
    /// Send the leave request, if there is one, and wait for the next event.
    Leave(Option<LeaveGroupRequest>),
    /// Look for changes of the subscribed topics, then go on with
    /// [`GroupMember::next_work`].
    CheckMetadata,
    /// Join the group.
    Rejoin,
    /// Send a heartbeat.
    Heartbeat,
    /// Wait for a `poll` after the one that returns the error, then go on with
    /// [`GroupMember::polled_after_error`].
    WaitForPollAfterError,
}

/// The reason of the join after a member left by itself.
pub const LEFT_REASON: &'static str = "consumer pro-actively leaving the group";

/// The reason of a join after topics of the subscription grew.
pub const METADATA_REASON: &'static str = "cached metadata has changed";

/// Whether the metadata of the subscribed topics is due at `now`.
pub fn subscription_metadata_refresh_due(last_check: Nanos, now: Nanos, interval: Nanos) -> (r:
    bool)
    ensures
        r == elapsed(last_check, now, interval),
{
    retry_deadline_elapsed(last_check, now, interval)
}

/// Whether a member has a rejoin asked for, with its reason, and changed in
/// nothing else.
pub open spec fn rejoin_asked(
    member: GroupMember,
    consumer: Consumer,
    polls: u64,
    reason: Seq<char>,
    member_after: GroupMember,
    after: Consumer,
) -> bool {
    &&& member_after.rejoin_reason@ == reason
    &&& member_after == (GroupMember {
        rejoin_reason: member_after.rejoin_reason,
        rejoin: member.rejoin.asked_at(polls),
        ..member
    })
    &&& after == (Consumer { rebalance_pending: true, ..consumer })
}

/// The member with its poll timer started again.
pub open spec fn timer_reset(member: GroupMember, now: Nanos) -> GroupMember {
    GroupMember {
        poll_timer: PollTimer {
            interval: member.poll_timer.interval,
            deadline: (now + member.poll_timer.interval) as u64,
        },
        ..member
    }
}

/// Whether a member left the group after its poll timer expired: the
/// membership is lost, the leave request goes out for a dynamic member, and
/// the next `poll` joins again.
pub open spec fn left_on_timeout(
    member: GroupMember,
    consumer: Consumer,
    rejoin: RejoinRequest,
    request: Option<LeaveGroupRequest>,
    member_after: GroupMember,
    after: Consumer,
) -> bool {
    &&& member_after.rejoin_reason@ == LEFT_REASON@
    &&& member_after.rejoin == rejoin
    &&& membership_lost(
        member,
        consumer,
        true,
        GroupMember {
            rejoin_reason: member.rejoin_reason,
            rejoin: member.rejoin,
            ..member_after
        },
        after,
    )
    &&& after.poll_error == consumer.poll_error
    &&& request is Some <==> sends_leave(
        member.member_id@,
        member.group_instance_id is Some,
        GroupMembershipOperation::Default,
    )
    &&& request matches Some(r) ==> leaves(
        r,
        consumer.settings.group_id@,
        member.member_id@,
        Some(POLL_TIMEOUT_LEAVE_REASON@),
    )
}

/// Whether a step and the state after it are those of an event at the `poll`
/// count `polls`: a `poll` without a join that waits for it only starts the poll
/// timer again, an expired poll timer ends the membership, metadata that is due
/// is checked where no join is asked for, and otherwise the due work comes.
pub open spec fn event_handled(
    member: GroupMember,
    consumer: Consumer,
    event: TaskEvent,
    polls: u64,
    polled: bool,
    now: Nanos,
    step: TaskStep,
    member_after: GroupMember,
    after: Consumer,
) -> bool {
    let reset = if event == TaskEvent::Poll || polled {
        timer_reset(member, now)
    } else {
        member
    };
    if event == TaskEvent::Poll && !member.rejoin.is_due(polls) {
        &&& step == TaskStep::Wait
        &&& member_after == reset
        &&& after == consumer
    } else if member.timed_out(event, polled, now) {
        step matches TaskStep::Leave(request) && left_on_timeout(
            reset,
            consumer,
            member.rejoin.asked_at(polls),
            request,
            member_after,
            after,
        )
    } else if member.rejoin == RejoinRequest::NotNeeded && elapsed(
        member.last_metadata_check,
        now,
        member.metadata_refresh_interval,
    ) {
        &&& step == TaskStep::CheckMetadata
        &&& member_after == (GroupMember { last_metadata_check: now, ..reset })
        &&& after == consumer
    } else {
        &&& step == reset.work(event, polls)
        &&& member_after == reset
        &&& after == consumer
    }
}

impl GroupMember {
    /// The work that is due: a join, or on a tick a heartbeat.
    pub open spec fn work(self, event: TaskEvent, polls: u64) -> TaskStep {
        if self.rejoin.is_due(polls) {
            TaskStep::Rejoin
        } else if event == TaskEvent::Tick && self.member_id@.len() > 0 {
            TaskStep::Heartbeat
        } else {
            TaskStep::Wait
        }
    }

    /// The work that is due.
    pub fn next_work(&self, event: TaskEvent, polls: u64) -> (r: TaskStep)
        ensures
            r == self.work(event, polls),
    {
        if self.rejoin.due(polls) {
            TaskStep::Rejoin
        } else if event == TaskEvent::Tick && !self.member_id.as_str().is_empty() {
            TaskStep::Heartbeat
        } else {
            TaskStep::Wait
        }
    }

    /// Whether an event finds the poll timer expired. A `poll` before the event
    /// starts the timer again.
    pub open spec fn timed_out(self, event: TaskEvent, polled: bool, now: Nanos) -> bool {
        event != TaskEvent::Poll && self.member_id@.len() > 0 && if polled {
            self.poll_timer.interval == 0
        } else {
            now >= self.poll_timer.deadline
        }
    }

    /// Act on an event at the `poll` count `polls`; `polled` says that the
    /// count changed since the last event.
    ///
    /// A `poll` starts the poll timer again and starts a join that waits for
    /// it. Without a `poll` the expired timer ends the membership.
    pub fn run(
        &mut self,
        consumer: &mut Consumer,
        event: TaskEvent,
        polls: u64,
        polled: bool,
        now: Nanos,
    ) -> (r: TaskStep)
        requires
            now + old(self).poll_timer.interval <= u64::MAX,
        ensures
            event_handled(
                *old(self),
                *old(consumer),
                event,
                polls,
                polled,
                now,
                r,
                *final(self),
                *final(consumer),
            ),
    {
        let is_poll = event == TaskEvent::Poll;
        if is_poll || polled {
            self.poll_timer.reset(now);
        }
        if is_poll && !self.rejoin.due(polls) {
            return TaskStep::Wait;
        }
        if !is_poll && !self.member_id.as_str().is_empty() && self.poll_timer.expired(now) {
            self.rejoin_reason = LEFT_REASON.to_owned();
            self.rejoin.request_after_poll(polls, &mut consumer.rebalance_pending);
            let request = self.leave_on_poll_timeout(consumer);
            return TaskStep::Leave(request);
        }
        if !self.rejoin.requested() && subscription_metadata_refresh_due(
            self.last_metadata_check,
            now,
            self.metadata_refresh_interval,
        ) {
            self.last_metadata_check = now;
            return TaskStep::CheckMetadata;
        }
        self.next_work(event, polls)
    }

    /// Act on a rebalance that the application asked for at the `poll` count
    /// `polls`.
    pub fn enforced_rebalance(&mut self, consumer: &mut Consumer, reason: String, polls: u64)
        ensures
            rejoin_asked(
                *old(self),
                *old(consumer),
                polls,
                reason@,
                *final(self),
                *final(consumer),
            ),
    {
        self.rejoin_reason = reason;
        self.rejoin.request_after_poll(polls, &mut consumer.rebalance_pending);
    }

    /// Whether a check of the metadata needs the partition counts: a change of
    /// the topics of a pattern that asks for a join comes before them.
    pub fn needs_counts(&self, consumer: &Consumer, pattern_changed: bool) -> (r: bool)
        ensures
            r == !(pattern_changed && views(consumer.subscription.topics@) != views(
                self.joined_topics@,
            )),
    {
        !pattern_changed || same_texts(&consumer.subscription.topics, &self.joined_topics)
    }

    /// Act on a check of the metadata: `pattern_changed` says that the topics
    /// of a pattern changed, and `current` are the partition counts of the
    /// subscribed topics, where they were asked for.
    ///
    /// The known counts advance only with the join, from the counts that its
    /// assignment was computed against.
    pub fn metadata_checked(
        &mut self,
        consumer: &mut Consumer,
        pattern_changed: bool,
        current: Option<&SortedMap<String, i32>>,
        polls: u64,
    )
        ensures
            ({
                let topics = views(old(consumer).subscription.topics@);
                let had = views(old(self).joined_topics@);
                if pattern_changed && topics != had {
                    rejoin_asked(
                        *old(self),
                        *old(consumer),
                        polls,
                        changed_reason(had, topics),
                        *final(self),
                        *final(consumer),
                    )
                } else if current is Some && grew(old(self).known_counts@, current->Some_0@) {
                    rejoin_asked(
                        *old(self),
                        *old(consumer),
                        polls,
                        METADATA_REASON@,
                        *final(self),
                        *final(consumer),
                    )
                } else {
                    *final(self) == *old(self) && *final(consumer) == *old(consumer)
                }
            }),
    {
        if !self.needs_counts(consumer, pattern_changed) {
            let reason = subscription_changed_reason(
                &self.joined_topics,
                &consumer.subscription.topics,
            );
            self.enforced_rebalance(consumer, reason, polls);
            return ;
        }
        if let Some(counts) = current {
            if subscribed_topics_grew(&self.known_counts, counts) {
                self.enforced_rebalance(consumer, METADATA_REASON.to_owned(), polls);
            }
        }
    }
}

/// A rejoin that is asked for at a `poll` count, with none asked for before,
/// keeps the partitions and the generation, and no event at that count starts
/// it. The `poll` that changes the count does.
pub proof fn law_asked_rejoin_starts_with_the_next_poll(
    member: GroupMember,
    consumer: Consumer,
    polls: u64,
    reason: Seq<char>,
    asked: GroupMember,
    pending: Consumer,
    event: TaskEvent,
    count: u64,
    polled: bool,
    now: Nanos,
    step: TaskStep,
    member_after: GroupMember,
    after: Consumer,
)
    requires
        member.rejoin == RejoinRequest::NotNeeded,
        rejoin_asked(member, consumer, polls, reason, asked, pending),
        event_handled(
            asked,
            pending,
            event,
            count,
            polled,
            now,
            step,
            member_after,
            after,
        ),
    ensures
        asked.generation_id == member.generation_id,
        pending.assigned == consumer.assigned,
        pending.commit_identity == consumer.commit_identity,
        count == polls ==> step != TaskStep::Rejoin,
        event == TaskEvent::Poll && count != polls ==> step == TaskStep::Rejoin,
        !(step is Leave) ==> after == pending && member_after.generation_id
            == member.generation_id,
        member_after.rejoin == RejoinRequest::AfterPoll(polls),
{
}

/// A rejoin that waits for a `poll` waits over any number of events at the same
/// `poll` count: none of them starts it, and unless the poll timer ends the
/// membership the partitions and the generation stay as they are.
pub proof fn law_asked_rejoin_waits_over_events(
    members: Seq<GroupMember>,
    consumers: Seq<Consumer>,
    events: Seq<TaskEvent>,
    polled: Seq<bool>,
    nows: Seq<Nanos>,
    steps: Seq<TaskStep>,
    polls: u64,
    n: int,
)
    requires
        0 <= n <= events.len(),
        members.len() == events.len() + 1,
        consumers.len() == events.len() + 1,
        polled.len() == events.len(),
        nows.len() == events.len(),
        steps.len() == events.len(),
        members[0].rejoin == RejoinRequest::AfterPoll(polls),
        forall|i: int|
            0 <= i < events.len() ==> event_handled(
                members[i],
                consumers[i],
                #[trigger] events[i],
                polls,
                polled[i],
                nows[i],
                steps[i],
                members[i + 1],
                consumers[i + 1],
            ),
    ensures
        members[n].rejoin == RejoinRequest::AfterPoll(polls),
        forall|i: int| 0 <= i < n ==> #[trigger] steps[i] != TaskStep::Rejoin,
        (forall|i: int| 0 <= i < n ==> !(#[trigger] steps[i] is Leave)) ==> consumers[n]
            == consumers[0] && members[n].generation_id == members[0].generation_id,
    decreases n,
{
    if n > 0 {
        law_asked_rejoin_waits_over_events(
            members,
            consumers,
            events,
            polled,
            nows,
            steps,
            polls,
            n - 1,
        );
        assert(event_handled(
            members[n - 1],
            consumers[n - 1],
            events[n - 1],
            polls,
            polled[n - 1],
            nows[n - 1],
            steps[n - 1],
            members[n],
            consumers[n],
        ));
        if forall|i: int| 0 <= i < n ==> !(#[trigger] steps[i] is Leave) {
            assert(!(steps[n - 1] is Leave));
        }
    }
}

/// A member that lost its membership is silent until it joins again: it sends
/// no heartbeat and has no poll timer to miss, and its consumer owns nothing.
pub proof fn law_lost_member_is_silent(
    member: GroupMember,
    consumer: Consumer,
    rejoin_on_poll: bool,
    member_after: GroupMember,
    after: Consumer,
    event: TaskEvent,
    polls: u64,
    polled: bool,
    now: Nanos,
)
    requires
        membership_lost(member, consumer, rejoin_on_poll, member_after, after),
    ensures
        member_after.work(event, polls) != TaskStep::Heartbeat,
        !member_after.timed_out(event, polled, now),
        after.assigned@ == Set::<PartitionKey>::empty(),
        consumer.assigned@.subset_of(member_after.lost_partitions@),
{
}

/// The reason of a join after the subscribed topics changed.
pub open spec fn changed_reason(had: Seq<Seq<char>>, now: Seq<Seq<char>>) -> Seq<char> {
    "the subscription has changed from ["@ + joined(had, ", "@) + "] to ["@ + joined(now, ", "@)
        + "] since the last group join"@
}

/// Whether a member is fenced: out of the group, with the error for `poll`.
pub open spec fn fenced(
    member: GroupMember,
    consumer: Consumer,
    id: Seq<char>,
    member_after: GroupMember,
    after: Consumer,
) -> bool {
    &&& membership_lost(member, consumer, true, member_after, after)
    &&& (after.poll_error matches Some(ConsumerError::FencedInstanceId(i)) && i@ == id)
}

/// Whether the state is the one after a join: completed, fenced, ended by the
/// poll timer, or failed.
pub open spec fn rejoin_ended(
    result: Result<SortedMap<String, i32>, ConsumerError>,
    polls: u64,
    now: Nanos,
    member: GroupMember,
    consumer: Consumer,
    step: TaskStep,
    member_after: GroupMember,
    after: Consumer,
) -> bool {
    match result {
        Ok(snapshot) => {
            &&& step == TaskStep::Wait
            &&& member_after.known_counts@ == merged(member.known_counts@, snapshot@)
            &&& member_after == (GroupMember {
                rejoin: RejoinRequest::NotNeeded,
                known_counts: member_after.known_counts,
                ..timer_reset(member, now)
            })
            &&& after == (Consumer { rebalance_pending: false, ..consumer })
        },
        Err(ConsumerError::FencedInstanceId(id)) => step == TaskStep::WaitForPollAfterError
            && fenced(member, consumer, id@, member_after, after),
        Err(e) => if member.poll_timeout_in_callback {
            step matches TaskStep::Leave(request) && left_on_timeout(
                GroupMember { poll_timeout_in_callback: false, ..member },
                consumer,
                RejoinRequest::AfterPoll(polls),
                request,
                member_after,
                after,
            )
        } else {
            &&& step == TaskStep::Wait
            &&& member_after.rejoin_reason@ == "rebalance failed due to "@ + failure_name(e)
            &&& member_after == (GroupMember {
                rejoin_reason: member_after.rejoin_reason,
                ..member
            })
            &&& after.poll_error == if reaches_poll(e) {
                Some(e)
            } else {
                consumer.poll_error
            }
            &&& after == (Consumer { poll_error: after.poll_error, ..consumer })
        },
    }
}

impl GroupMember {
    /// Act on the end of a join, with the partition counts that its assignment
    /// was computed against.
    pub fn rejoined(
        &mut self,
        consumer: &mut Consumer,
        result: Result<SortedMap<String, i32>, ConsumerError>,
        polls: u64,
        now: Nanos,
    ) -> (r: TaskStep)
        requires
            now + old(self).poll_timer.interval <= u64::MAX,
        ensures
            rejoin_ended(
                result,
                polls,
                now,
                *old(self),
                *old(consumer),
                r,
                *final(self),
                *final(consumer),
            ),
    {
        match result {
            Ok(snapshot) => {
                self.rejoin.complete(&mut consumer.rebalance_pending);
                self.poll_timer.reset(now);
                merge_counts(&mut self.known_counts, &snapshot);
                TaskStep::Wait
            },
            Err(ConsumerError::FencedInstanceId(group_instance_id)) => {
                self.fence_member(consumer, group_instance_id);
                TaskStep::WaitForPollAfterError
            },
            Err(e) => {
                if self.poll_timeout_in_callback {
                    self.poll_timeout_in_callback = false;
                    self.rejoin_reason = LEFT_REASON.to_owned();
                    self.rejoin = RejoinRequest::NotNeeded;
                    self.rejoin.request_after_poll(polls, &mut consumer.rebalance_pending);
                    let request = self.leave_on_poll_timeout(consumer);
                    return TaskStep::Leave(request);
                }
                self.rejoin_reason = rebalance_failure_reason(&e);
                consumer.report_rejoin_error(e);
                TaskStep::Wait
            },
        }
    }

    /// Act on a heartbeat.
    pub fn heartbeat_once(&mut self, consumer: &mut Consumer, outcome: HeartbeatOutcome, polls: u64) -> (r:
        TaskStep)
        ensures
            match outcome {
                HeartbeatOutcome::Alive | HeartbeatOutcome::Transient => {
                    &&& r == TaskStep::Wait
                    &&& *final(self) == *old(self)
                    &&& *final(consumer) == *old(consumer)
                },
                HeartbeatOutcome::NeedRejoin(code) => r == TaskStep::Wait && rejoin_asked(
                    *old(self),
                    *old(consumer),
                    polls,
                    heartbeat_reason(code),
                    *final(self),
                    *final(consumer),
                ),
                HeartbeatOutcome::RejoinFromScratch => {
                    &&& r == TaskStep::Wait
                    &&& final(self).rejoin_reason@ == heartbeat_reason(UNKNOWN_MEMBER_ID)
                    &&& final(self).rejoin == old(self).rejoin.asked_at(polls)
                    &&& membership_lost(
                        *old(self),
                        *old(consumer),
                        false,
                        GroupMember {
                            rejoin_reason: old(self).rejoin_reason,
                            rejoin: old(self).rejoin,
                            ..*final(self)
                        },
                        *final(consumer),
                    )
                    &&& final(consumer).poll_error == old(consumer).poll_error
                },
                HeartbeatOutcome::Fenced => r == TaskStep::WaitForPollAfterError && fenced(
                    *old(self),
                    *old(consumer),
                    instance_of(old(self).group_instance_id),
                    *final(self),
                    *final(consumer),
                ),
            },
    {
        match outcome {
            HeartbeatOutcome::Alive | HeartbeatOutcome::Transient => TaskStep::Wait,
            HeartbeatOutcome::NeedRejoin(error_code) => {
                self.enforced_rebalance(consumer, heartbeat_rejoin_reason(error_code), polls);
                TaskStep::Wait
            },
            HeartbeatOutcome::RejoinFromScratch => {
                self.forget_member(consumer);
                self.enforced_rebalance(
                    consumer,
                    heartbeat_rejoin_reason(UNKNOWN_MEMBER_ID),
                    polls,
                );
                TaskStep::Wait
            },
            HeartbeatOutcome::Fenced => {
                let group_instance_id = instance_or_empty(&self.group_instance_id);
                self.fence_member(consumer, group_instance_id);
                TaskStep::WaitForPollAfterError
            },
        }
    }

    /// Act on the `poll` after the one that returned a fenced error: the member
    /// joins from scratch at once. `in_join` says that the join was fenced, and
    /// not a heartbeat.
    pub fn polled_after_error(&mut self, consumer: &mut Consumer, in_join: bool, now: Nanos)
        requires
            now + old(self).poll_timer.interval <= u64::MAX,
        ensures
            final(self).rejoin_reason@ == if in_join {
                "rebalance failed due to "@ + "FencedInstanceIdException"@
            } else {
                heartbeat_reason(FENCED_INSTANCE_ID)
            },
            *final(self) == (GroupMember {
                rejoin_reason: final(self).rejoin_reason,
                rejoin: RejoinRequest::Now,
                ..timer_reset(*old(self), now)
            }),
            *final(consumer) == (Consumer { rebalance_pending: true, ..*old(consumer) }),
    {
        self.poll_timer.reset(now);
        self.rejoin_reason = if in_join {
            rebalance_failure_reason(&ConsumerError::FencedInstanceId(String::new()))
        } else {
            heartbeat_rejoin_reason(FENCED_INSTANCE_ID)
        };
        self.rejoin.request_now(&mut consumer.rebalance_pending);
    }

    /// Whether a `poll` is the one that a fenced member waits for: the error is
    /// no longer pending.
    pub fn wait_for_poll_after_error(consumer: &Consumer) -> (r: bool)
        ensures
            r == consumer.poll_error is None,
    {
        !consumer.poll_error_pending()
    }

    /// The leave request of a member whose consumer closes, if it leaves.
    pub fn close(&self, consumer: &Consumer, operation: GroupMembershipOperation) -> (r: Option<
        LeaveGroupRequest,
    >)
        ensures
            r is Some <==> sends_leave(
                self.member_id@,
                self.group_instance_id is Some,
                operation,
            ),
            r matches Some(request) ==> leaves(
                request,
                consumer.settings.group_id@,
                self.member_id@,
                Some(CLOSE_LEAVE_REASON@),
            ),
    {
        self.leave_group(consumer, self.member_id.as_str(), operation, CLOSE_LEAVE_REASON)
    }
}

/// Whether a member left its group on `unsubscribe`: no membership, no lost
/// partitions, and no rejoin.
pub open spec fn unsubscribed(
    member: GroupMember,
    consumer: Consumer,
    request: Option<LeaveGroupRequest>,
    member_after: GroupMember,
    after: Consumer,
) -> bool {
    &&& member_after.member_id@.len() == 0
    &&& member_after.lost_partitions.listed() == Seq::<PartitionKey>::empty()
    &&& member_after.lost_partitions@ == Set::<PartitionKey>::empty()
    &&& member_after.rejoin_reason@ == LEFT_REASON@
    &&& member_after == (GroupMember {
        member_id: member_after.member_id,
        generation_id: -1i32,
        seen_unsubscribes: consumer.subscription.unsubscribes,
        lost_partitions: member_after.lost_partitions,
        rejoin: RejoinRequest::NotNeeded,
        rejoin_reason: member_after.rejoin_reason,
        ..member
    })
    &&& after.assigned.listed() == Seq::<PartitionKey>::empty()
    &&& after.assigned@ == Set::<PartitionKey>::empty()
    &&& after.ownership_ids@ == Map::<PartitionKey, u64>::empty()
    &&& after.end_offsets@ == Map::<PartitionKey, i64>::empty()
    &&& after.commit_identity.generation == -1
    &&& after.commit_identity.member_id@.len() == 0
    &&& !after.commit_identity.rejoin_on_poll
    &&& after == (Consumer {
        assigned: after.assigned,
        ownership_ids: after.ownership_ids,
        commit_identity: after.commit_identity,
        end_offsets: after.end_offsets,
        rebalance_pending: false,
        ..consumer
    })
    &&& request is Some <==> sends_leave(
        member.member_id@,
        member.group_instance_id is Some,
        GroupMembershipOperation::Default,
    )
    &&& request matches Some(r) ==> leaves(
        r,
        consumer.settings.group_id@,
        member.member_id@,
        Some(UNSUBSCRIBE_LEAVE_REASON@),
    )
}

impl GroupMember {
    /// Act on a change of the subscription: an `unsubscribe` that was not
    /// handled yet takes the member out of the group. The flag says that there
    /// is a subscription: match its pattern, then go on with
    /// [`subscription_matched`](Self::subscription_matched).
    pub fn handle_subscription_change(&mut self, consumer: &mut Consumer) -> (r: (
        Option<LeaveGroupRequest>,
        bool,
    ))
        ensures
            r.1 == !old(consumer).subscription.none(),
            if old(consumer).subscription.unsubscribes != old(self).seen_unsubscribes {
                unsubscribed(*old(self), *old(consumer), r.0, *final(self), *final(consumer))
            } else {
                r.0 is None && *final(self) == *old(self) && *final(consumer) == *old(consumer)
            },
    {
        let proceed = !consumer.subscription.is_none();
        if consumer.subscription.unsubscribes == self.seen_unsubscribes {
            return (None, proceed);
        }
        self.seen_unsubscribes = consumer.subscription.unsubscribes;
        let member_id = self.member_id.clone();
        self.member_id = String::new();
        self.lost_partitions = Assignment::new();
        let none: Vec<TopicPartition> = Vec::new();
        let ghost keys = key_views(none@);
        self.install_assignment(consumer, &none, false, -1, false);
        proof {
            assert(keys =~= seq![]);
            assert(consumer.assigned@ =~= Set::<PartitionKey>::empty());
        }
        self.rejoin.complete(&mut consumer.rebalance_pending);
        self.rejoin_reason = LEFT_REASON.to_owned();
        let request = self.leave_group(
            consumer,
            member_id.as_str(),
            GroupMembershipOperation::Default,
            UNSUBSCRIBE_LEAVE_REASON,
        );
        (request, proceed)
    }

    /// Act on the topics of a changed subscription: a join is asked for when
    /// they are not the joined ones, or when there is no membership.
    pub fn subscription_matched(&mut self, consumer: &mut Consumer, polls: u64)
        ensures
            ({
                let topics = views(old(consumer).subscription.topics@);
                let had = views(old(self).joined_topics@);
                if topics != had {
                    rejoin_asked(
                        *old(self),
                        *old(consumer),
                        polls,
                        changed_reason(had, topics),
                        *final(self),
                        *final(consumer),
                    )
                } else if old(self).member_id@.len() == 0 {
                    rejoin_asked(
                        *old(self),
                        *old(consumer),
                        polls,
                        old(self).rejoin_reason@,
                        *final(self),
                        *final(consumer),
                    )
                } else {
                    *final(self) == *old(self) && *final(consumer) == *old(consumer)
                }
            }),
    {
        if !same_texts(&consumer.subscription.topics, &self.joined_topics) {
            let reason = subscription_changed_reason(
                &self.joined_topics,
                &consumer.subscription.topics,
            );
            self.enforced_rebalance(consumer, reason, polls);
        } else if self.member_id.as_str().is_empty() {
            let reason = self.rejoin_reason.clone();
            self.enforced_rebalance(consumer, reason, polls);
        }
    }
}

/// Whether `names` are the topics of metadata that a pattern matches.
pub open spec fn matches_pattern(
    pattern: TopicPattern,
    exclude_internal: bool,
    metadata: MetadataResponse,
    names: Seq<String>,
) -> bool {
    &&& crate::collections::ascending::<String>(views(names))
    &&& forall|t: Seq<char>| #[trigger]
        crate::subscription::text_set(names).contains(t) ==> pattern.answers(t, true) && exists|
            i: int,
        |
            0 <= i < metadata.topics@.len() && crate::subscription::offered(
                #[trigger] metadata.topics@[i],
                exclude_internal,
            ) && crate::metadata::topic_name(metadata.topics@[i]) == Some(t)
    &&& forall|i: int|
        0 <= i < metadata.topics@.len() && crate::subscription::offered(
            #[trigger] metadata.topics@[i],
            exclude_internal,
        ) && !crate::subscription::text_set(names).contains(metadata.topics@[i].name->Some_0@)
            ==> pattern.answers(metadata.topics@[i].name->Some_0@, false)
}

impl Consumer {
    /// The pattern of a pattern subscription and the version of the
    /// subscription, for a request of all topics.
    pub fn pattern_request(&self) -> (r: Option<(TopicPattern, u64)>)
        ensures
            r is Some <==> self.subscription.pattern is Some,
            r matches Some(request) ==> Some(request.0) == self.subscription.pattern && request.1
                == self.subscription.version,
    {
        match &self.subscription.pattern {
            Some(pattern) => Some((pattern.clone(), self.subscription.version)),
            None => None,
        }
    }

    /// Store the topics of the cluster that the pattern of `version` matches,
    /// unless the application changed the subscription since. Return whether
    /// the topics changed.
    pub fn refresh_pattern_topics(
        &mut self,
        pattern: TopicPattern,
        version: u64,
        metadata: &MetadataResponse,
    ) -> (r: bool)
        ensures
            exists|names: Seq<String>| #[trigger]
                matches_pattern(
                    pattern,
                    old(self).subscription.exclude_internal_topics,
                    *metadata,
                    names,
                ) && {
                    &&& r == (old(self).subscription.version == version && old(
                        self,
                    ).subscription.pattern is Some && views(old(self).subscription.topics@)
                        != views(names))
                    &&& r ==> views(final(self).subscription.topics@) == views(names)
                    &&& !r ==> final(self).subscription == old(self).subscription
                    &&& old(self).subscription.version == version ==> views(
                        final(self).metadata_topics@,
                    ) == views(names)
                    &&& old(self).subscription.version != version ==> final(self).metadata_topics
                        == old(self).metadata_topics
                },
            *final(self) == (Consumer {
                subscription: Subscription {
                    topics: final(self).subscription.topics,
                    ..old(self).subscription
                },
                metadata_topics: final(self).metadata_topics,
                ..*old(self)
            }),
    {
        let asked = Subscription {
            topics: Vec::new(),
            pattern: Some(pattern),
            regex: None,
            exclude_internal_topics: self.subscription.exclude_internal_topics,
            unsubscribes: 0,
            version: 0,
            manual_assignment: false,
        };
        let matched = match asked.matching_topics(metadata) {
            Some(matched) => matched,
            None => Vec::new(),
        };
        assert(matches_pattern(
            pattern,
            old(self).subscription.exclude_internal_topics,
            *metadata,
            matched@,
        ));
        let stored = self.subscription.store_pattern_topics(version, &matched);
        if self.subscription.version == version {
            self.metadata_topics = copy_texts(&matched);
        }
        stored
    }
}

} // verus!
