//! The join of a group: its preparation, the answers of the coordinator, and
//! the work of the group leader.
use bytes::Bytes;
use vstd::prelude::*;

use crate::assignment::{picked, Assignment};
use crate::collections::{SortedMap, SortedSet};
use crate::config::RebalanceProtocol;
use crate::consumer::{Consumer, Nanos};
use crate::error::{ClientError, ConsumerError};
use crate::group_wire::{
    build_heartbeat_request, build_sync_group_request, copy_optional_text, group_error,
    group_response_error, heartbeat_outcome, heartbeat_reason, heartbeat_rejoin_reason,
    instance_of, instance_or_empty, outcome_of, HeartbeatOutcome, HeartbeatRequest,
    JoinRequestFields, SyncGroupRequest, SyncGroupRequestAssignment, MEMBER_ID_REQUIRED,
    UNKNOWN_MEMBER_ID,
};
use crate::list_offsets::key_views;
use crate::membership::{assignment_installed, membership_lost, reaches_poll, GroupMember};
use crate::metadata::MetadataResponse;
use crate::rejoin::ListenerCallKind;
use crate::retry::{
    is_retriable_coordinator_code, is_retriable_transport_error, retriable_coordinator_code,
    retriable_transport_error,
};
use crate::subscription::{copy_texts, text_set};
use crate::text::{concat2, same_text, views};
use crate::topic_counts::{
    learn_topic_ids, member_partition_counts, subscribed_partition_counts, topic_counts,
    topic_ids_after,
};
use crate::wire::{copy_key, PartitionKey, TopicPartition};

verus! {

/// A callback that the preparation of a join asks for.
#[derive(Debug, PartialEq, Eq)]
pub struct PrepareCall {
    pub kind: ListenerCallKind,
    pub partitions: Vec<TopicPartition>,
    /// The assignment to publish after the callback, if it changes.
    pub keep: Option<Vec<TopicPartition>>,
}

/// The partitions of `owned` whose topic is subscribed, or is not, in order.
pub open spec fn of_subscription(
    owned: Seq<PartitionKey>,
    topics: Set<Seq<char>>,
    subscribed: bool,
) -> Seq<PartitionKey> {
    picked(owned, |k: PartitionKey| topics.contains(k.0) == subscribed)
}

/// The callback of the preparation of a join: the lost partitions of a member
/// without a generation, all partitions of an eager member, and the partitions
/// of topics that a cooperative member no longer subscribes to.
pub open spec fn prepare_call(
    member: GroupMember,
    consumer: Consumer,
) -> Option<(ListenerCallKind, Seq<PartitionKey>)> {
    if member.member_id@.len() == 0 || member.generation_id < 0 {
        if member.lost_partitions@ == Set::<PartitionKey>::empty() {
            None
        } else {
            Some((ListenerCallKind::Lost, member.lost_partitions.listed()))
        }
    } else if consumer.settings.rebalance_protocol == RebalanceProtocol::Eager {
        Some((ListenerCallKind::Revoked, consumer.assigned.listed()))
    } else {
        let revoked = of_subscription(
            consumer.assigned.listed(),
            text_set(consumer.subscription.topics@),
            false,
        );
        if revoked.len() == 0 {
            None
        } else {
            Some((ListenerCallKind::Revoked, revoked))
        }
    }
}

/// Whether a call is the one that the preparation asks for.
pub open spec fn calls(
    call: Option<PrepareCall>,
    expected: Option<(ListenerCallKind, Seq<PartitionKey>)>,
) -> bool {
    match expected {
        Some((kind, partitions)) => call matches Some(c) && c.kind == kind && key_views(
            c.partitions@,
        ) == partitions,
        None => call is None,
    }
}

/// The owned partitions whose topic is subscribed, or is not, in order.
fn split_subscription(consumer: &Consumer, subscribed: bool) -> (r: Vec<TopicPartition>)
    ensures
        key_views(r@) == of_subscription(
            consumer.assigned.listed(),
            text_set(consumer.subscription.topics@),
            subscribed,
        ),
{
    let owned = consumer.assigned.list();
    let mut r: Vec<TopicPartition> = Vec::new();
    let ghost all = key_views(owned@);
    let ghost topics = text_set(consumer.subscription.topics@);
    let ghost pick = |k: PartitionKey| topics.contains(k.0) == subscribed;
    let mut i: usize = 0;
    while i < owned.len()
        invariant
            i <= owned@.len(),
            all == key_views(owned@),
            topics == text_set(consumer.subscription.topics@),
            pick == (|k: PartitionKey| topics.contains(k.0) == subscribed),
            key_views(r@) =~= picked(all.take(i as int), pick),
        decreases owned.len() - i,
    {
        proof {
            assert(all.take(i + 1).drop_last() =~= all.take(i as int));
            assert(all.take(i + 1).last() == owned@[i as int]@);
        }
        if consumer.subscription.contains(owned[i].0.as_str()) == subscribed {
            let key = copy_key(&owned[i]);
            let ghost had = r@;
            r.push(key);
            assert(key_views(r@) =~= key_views(had).push(key@));
        }
        i = i + 1;
    }
    assert(all.take(i as int) =~= all);
    r
}

impl GroupMember {
    /// Prepare a join, once per join: the result is the callback to run first.
    ///
    /// The commit of the consumed positions goes before this call.
    pub fn join_prepare(&mut self, consumer: &Consumer) -> (r: Option<PrepareCall>)
        ensures
            old(self).join_prepared ==> r is None && *final(self) == *old(self),
            !old(self).join_prepared ==> {
                &&& calls(r, prepare_call(*old(self), *consumer))
                &&& final(self).join_prepared
                &&& final(self).lost_partitions.listed() == if old(self).member_id@.len() == 0 || old(
                    self,
                ).generation_id < 0 {
                    Seq::empty()
                } else {
                    old(self).lost_partitions.listed()
                }
                &&& *final(self) == (GroupMember {
                    join_prepared: true,
                    lost_partitions: final(self).lost_partitions,
                    ..*old(self)
                })
                &&& r matches Some(call) ==> {
                    let cooperative = old(self).member_id@.len() > 0 && old(self).generation_id >= 0
                        && consumer.settings.rebalance_protocol == RebalanceProtocol::Cooperative;
                    &&& call.keep is Some <==> cooperative
                    &&& call.keep matches Some(keep) ==> key_views(keep@) == of_subscription(
                        consumer.assigned.listed(),
                        text_set(consumer.subscription.topics@),
                        true,
                    )
                }
            },
    {
        if self.join_prepared {
            return None;
        }
        self.join_prepared = true;
        if self.member_id.as_str().is_empty() || self.generation_id < 0 {
            let lost = self.lost_partitions.list();
            let any = !self.lost_partitions.is_empty();
            self.lost_partitions = Assignment::new();
            if any {
                return Some(
                    PrepareCall { kind: ListenerCallKind::Lost, partitions: lost, keep: None },
                );
            }
            return None;
        }
        match consumer.settings.rebalance_protocol {
            RebalanceProtocol::Eager => Some(
                PrepareCall {
                    kind: ListenerCallKind::Revoked,
                    partitions: consumer.assigned.list(),
                    keep: None,
                },
            ),
            RebalanceProtocol::Cooperative => {
                let revoked = split_subscription(consumer, false);
                if revoked.is_empty() {
                    return None;
                }
                let keep = split_subscription(consumer, true);
                Some(
                    PrepareCall {
                        kind: ListenerCallKind::Revoked,
                        partitions: revoked,
                        keep: Some(keep),
                    },
                )
            },
        }
    }

    /// Publish the assignment that is left after the callback of a preparation.
    pub fn prepared(&mut self, consumer: &mut Consumer, call: &PrepareCall)
        ensures
            match call.keep {
                Some(keep) => assignment_installed(
                    *old(self),
                    *old(consumer),
                    key_views(keep@),
                    true,
                    old(self).generation_id,
                    false,
                    *final(self),
                    *final(consumer),
                ),
                None => *final(self) == *old(self) && *final(consumer) == *old(consumer),
            },
    {
        if let Some(keep) = &call.keep {
            let generation = self.generation_id;
            self.publish_assignment(consumer, keep, true, generation);
        }
    }
}

/// How the wait for a listener call ended.
#[derive(Clone, Copy, Debug, PartialEq, Eq, Structural)]
pub enum CallWait {
    /// The callback ran, so a `poll` came.
    Ran,
    /// The call was dropped before the callback ended, with the poll deadline
    /// after the last `poll`.
    Dropped(Nanos),
    /// No `poll` came before the poll timer expired.
    PollTimeout,
}

/// What follows a listener call.
#[derive(Debug, PartialEq, Eq)]
pub enum ListenerStep {
    /// The rebalance goes on.
    Done,
    /// Ask for the callback again.
    Resend,
    /// The rebalance fails.
    Fail(ConsumerError),
}

/// The message of a poll timer that expired during a callback.
pub const CALLBACK_TIMEOUT: &'static str =
    "max_poll_interval expired while a rebalance listener callback waited";

/// Whether a heartbeat ends the preparation of a join.
pub open spec fn ends_prepare(outcome: HeartbeatOutcome) -> bool {
    outcome == HeartbeatOutcome::RejoinFromScratch || outcome == HeartbeatOutcome::Fenced
}

/// Whether a heartbeat that runs beside the preparation of a join ends it: the
/// member is fenced or unknown.
pub fn heartbeat_during_join_prepare(outcome: HeartbeatOutcome) -> (r: bool)
    ensures
        r == ends_prepare(outcome),
{
    match outcome {
        HeartbeatOutcome::Alive | HeartbeatOutcome::NeedRejoin(_) | HeartbeatOutcome::Transient => {
            false
        },
        HeartbeatOutcome::RejoinFromScratch | HeartbeatOutcome::Fenced => true,
    }
}

/// Whether the member was forgotten, with the reason for the next join.
pub open spec fn forgotten(
    member: GroupMember,
    consumer: Consumer,
    member_after: GroupMember,
    after: Consumer,
) -> bool {
    &&& member_after.rejoin_reason@ == heartbeat_reason(UNKNOWN_MEMBER_ID)
    &&& membership_lost(
        member,
        consumer,
        false,
        GroupMember { rejoin_reason: member.rejoin_reason, ..member_after },
        after,
    )
    &&& after.poll_error == consumer.poll_error
}

/// What a heartbeat beside the preparation of a join does: a fenced member
/// fails, an unknown one is forgotten, and any other heartbeat changes nothing.
pub open spec fn prepare_heartbeat_done(
    heartbeat: Option<HeartbeatOutcome>,
    member: GroupMember,
    consumer: Consumer,
    result: Result<(), ConsumerError>,
    member_after: GroupMember,
    after: Consumer,
) -> bool {
    match heartbeat {
        Some(HeartbeatOutcome::Fenced) => {
            &&& result is Err
            &&& (result->Err_0 matches ConsumerError::FencedInstanceId(id) && id@ == instance_of(
                member.group_instance_id,
            ))
            &&& member_after == member
            &&& after == consumer
        },
        Some(HeartbeatOutcome::RejoinFromScratch) => result is Ok && forgotten(
            member,
            consumer,
            member_after,
            after,
        ),
        _ => result is Ok && member_after == member && after == consumer,
    }
}

impl GroupMember {
    /// Act on the heartbeat that ran beside the commit before a join.
    pub fn commit_before_join(
        &mut self,
        consumer: &mut Consumer,
        heartbeat: Option<HeartbeatOutcome>,
    ) -> (r: Result<(), ConsumerError>)
        ensures
            prepare_heartbeat_done(
                heartbeat,
                *old(self),
                *old(consumer),
                r,
                *final(self),
                *final(consumer),
            ),
    {
        match heartbeat {
            Some(HeartbeatOutcome::Fenced) => Err(
                ConsumerError::FencedInstanceId(instance_or_empty(&self.group_instance_id)),
            ),
            Some(HeartbeatOutcome::RejoinFromScratch) => {
                self.forget_member(consumer);
                self.rejoin_reason = heartbeat_rejoin_reason(UNKNOWN_MEMBER_ID);
                Ok(())
            },
            _ => Ok(()),
        }
    }

    /// The poll deadline after a wait for a callback reached its deadline, or
    /// `None` when no `poll` came since `polls`.
    pub fn wait_for_listener_call(&self, polls: u64, now_polls: u64, now: Nanos) -> (r: Option<
        Nanos,
    >)
        requires
            now + self.poll_timer.interval <= u64::MAX,
        ensures
            r == if now_polls == polls {
                None::<u64>
            } else {
                Some((now + self.poll_timer.interval) as u64)
            },
    {
        if now_polls == polls {
            None
        } else {
            Some(now + self.poll_timer.interval)
        }
    }

    /// Act on the end of the wait for a listener call, and on the heartbeat
    /// that ran beside it.
    pub fn call_listener(
        &mut self,
        consumer: &mut Consumer,
        wait: CallWait,
        heartbeat: Option<HeartbeatOutcome>,
        now: Nanos,
    ) -> (r: ListenerStep)
        requires
            now + old(self).poll_timer.interval <= u64::MAX,
        ensures
            ({
                let timer = old(self).poll_timer;
                match wait {
                    CallWait::PollTimeout => {
                        &&& (r matches ListenerStep::Fail(ConsumerError::RebalanceFailed(m)) && m@
                            == CALLBACK_TIMEOUT@)
                        &&& *final(self) == (GroupMember {
                            poll_timeout_in_callback: true,
                            ..*old(self)
                        })
                        &&& *final(consumer) == *old(consumer)
                    },
                    _ => {
                        let deadline: u64 = match wait {
                            CallWait::Dropped(deadline) => deadline,
                            _ => (now + timer.interval) as u64,
                        };
                        let reset = GroupMember {
                            poll_timer: crate::membership::PollTimer {
                                interval: timer.interval,
                                deadline,
                            },
                            ..*old(self)
                        };
                        let result = match r {
                            ListenerStep::Fail(e) => Err::<(), ConsumerError>(e),
                            _ => Ok::<(), ConsumerError>(()),
                        };
                        &&& prepare_heartbeat_done(
                            heartbeat,
                            reset,
                            *old(consumer),
                            result,
                            *final(self),
                            *final(consumer),
                        )
                        &&& r is Resend <==> wait != CallWait::Ran && !(heartbeat matches Some(
                            outcome,
                        ) && ends_prepare(outcome))
                    },
                }
            }),
    {
        let resend = match wait {
            CallWait::Ran => {
                self.poll_timer.reset(now);
                false
            },
            CallWait::Dropped(deadline) => {
                self.poll_timer.deadline = deadline;
                true
            },
            CallWait::PollTimeout => {
                self.poll_timeout_in_callback = true;
                return ListenerStep::Fail(
                    ConsumerError::RebalanceFailed(CALLBACK_TIMEOUT.to_owned()),
                );
            },
        };
        let ended = match heartbeat {
            Some(outcome) => heartbeat_during_join_prepare(outcome),
            None => false,
        };
        match self.commit_before_join(consumer, heartbeat) {
            Err(e) => ListenerStep::Fail(e),
            Ok(_) => {
                if resend && !ended {
                    ListenerStep::Resend
                } else {
                    ListenerStep::Done
                }
            },
        }
    }
}

/// A member in the answer to a join.
#[derive(Debug, PartialEq, Eq)]
pub struct JoinGroupResponseMember {
    pub member_id: String,
    pub group_instance_id: Option<String>,
    pub metadata: Bytes,
}

/// The answer to a join.
#[derive(Debug, PartialEq, Eq)]
pub struct JoinGroupResponse {
    pub error_code: i16,
    pub generation_id: i32,
    pub protocol_name: Option<String>,
    pub leader: String,
    pub member_id: String,
    pub members: Vec<JoinGroupResponseMember>,
}

/// What follows the answer to a join.
#[derive(Debug, PartialEq, Eq)]
pub enum JoinStep {
    /// The member is in the group.
    Joined,
    /// Join again with the member id that the coordinator gave.
    JoinAgain,
    /// The join fails.
    Fail(ConsumerError),
}

/// The message of a coordinator that gives no member id.
pub const NO_MEMBER_ID: &'static str = "broker did not assign a member_id";

/// What the subscription of a member says in a join: the partitions it owns,
/// and its last assignment.
#[derive(Debug, PartialEq, Eq)]
pub struct JoinOwnership {
    /// The owned partitions. An eager member gave up all of them.
    pub owned: Vec<TopicPartition>,
    /// The last assignment, for a member with a generation.
    pub last_assignment: Option<Vec<TopicPartition>>,
}

impl GroupMember {
    /// What the subscriptions of the next join say of the partitions.
    pub fn join_ownership(&self, consumer: &Consumer) -> (r: JoinOwnership)
        ensures
            key_views(r.owned@) == if consumer.settings.rebalance_protocol
                == RebalanceProtocol::Eager {
                seq![]
            } else {
                consumer.assigned.listed()
            },
            r.last_assignment is Some <==> self.generation_id >= 0,
            r.last_assignment matches Some(list) ==> key_views(list@)
                == consumer.assigned.listed(),
    {
        let owned: Vec<TopicPartition> = match consumer.settings.rebalance_protocol {
            RebalanceProtocol::Eager => Vec::new(),
            RebalanceProtocol::Cooperative => consumer.assigned.list(),
        };
        assert(consumer.settings.rebalance_protocol == RebalanceProtocol::Eager ==> key_views(
            owned@,
        ) =~= seq![]);
        let last_assignment = if self.generation_id >= 0 {
            Some(consumer.assigned.list())
        } else {
            None
        };
        JoinOwnership { owned, last_assignment }
    }

    /// The fields of the next join, with one encoded subscription per
    /// assignment protocol. The subscribed topics become the joined ones.
    pub fn join_fields(&mut self, consumer: &Consumer, protocols: Vec<(String, Bytes)>) -> (r:
        JoinRequestFields)
        ensures
            r.group_id@ == consumer.settings.group_id@,
            r.group_instance_id == old(self).group_instance_id,
            r.session_timeout_ms == old(self).session_timeout_ms,
            r.rebalance_timeout_ms == old(self).rebalance_timeout_ms,
            r.protocols == protocols,
            r.reason@ == old(self).rejoin_reason@,
            views(final(self).joined_topics@) == views(consumer.subscription.topics@),
            *final(self) == (GroupMember {
                joined_topics: final(self).joined_topics,
                ..*old(self)
            }),
    {
        self.joined_topics = copy_texts(&consumer.subscription.topics);
        JoinRequestFields {
            group_id: consumer.settings.group_id.clone(),
            group_instance_id: copy_optional_text(&self.group_instance_id),
            session_timeout_ms: self.session_timeout_ms,
            rebalance_timeout_ms: self.rebalance_timeout_ms,
            protocols,
            reason: self.rejoin_reason.clone(),
        }
    }

    /// Act on the answer to a join. The first answer can give the member an id
    /// to join again with.
    pub fn perform_join(&mut self, response: &JoinGroupResponse, first: bool) -> (r: JoinStep)
        ensures
            ({
                let code = response.error_code;
                if code == 0 {
                    r == JoinStep::Joined && *final(self) == *old(self)
                } else if first && code == MEMBER_ID_REQUIRED {
                    if response.member_id@.len() == 0 {
                        &&& (r matches JoinStep::Fail(ConsumerError::RebalanceFailed(m)) && m@
                            == NO_MEMBER_ID@)
                        &&& *final(self) == *old(self)
                    } else {
                        &&& r == JoinStep::JoinAgain
                        &&& final(self).member_id@ == response.member_id@
                        &&& final(self).rejoin_reason@
                            == "need to re-join with the given member-id: "@ + response.member_id@
                        &&& *final(self) == (GroupMember {
                            member_id: final(self).member_id,
                            rejoin_reason: final(self).rejoin_reason,
                            ..*old(self)
                        })
                    }
                } else {
                    &&& r matches JoinStep::Fail(e) && group_error(
                        e,
                        code,
                        old(self).group_instance_id,
                    )
                    &&& *final(self) == *old(self)
                }
            }),
    {
        if response.error_code == 0 {
            return JoinStep::Joined;
        }
        if first && response.error_code == MEMBER_ID_REQUIRED {
            if response.member_id.as_str().is_empty() {
                return JoinStep::Fail(ConsumerError::RebalanceFailed(NO_MEMBER_ID.to_owned()));
            }
            self.member_id = response.member_id.clone();
            self.rejoin_reason =
            concat2("need to re-join with the given member-id: ", response.member_id.as_str());
            return JoinStep::JoinAgain;
        }
        JoinStep::Fail(group_response_error(response.error_code, &self.group_instance_id))
    }

    /// The fields of a join that starts again with the member id that the
    /// coordinator gave: the same, with the reason of the new start.
    pub fn join_again(&self, fields: &mut JoinRequestFields)
        ensures
            final(fields).reason@ == self.rejoin_reason@,
            *final(fields) == (JoinRequestFields { reason: final(fields).reason, ..*old(fields) }),
    {
        fields.reason = self.rejoin_reason.clone();
    }

    /// Take the member id of a completed join. The result says whether the
    /// member leads the group.
    pub fn joined(&mut self, response: &JoinGroupResponse) -> (r: bool)
        ensures
            final(self).member_id@ == if response.member_id@.len() > 0 {
                response.member_id@
            } else {
                old(self).member_id@
            },
            r == (response.leader@ == final(self).member_id@),
            *final(self) == (GroupMember { member_id: final(self).member_id, ..*old(self) }),
    {
        if !response.member_id.as_str().is_empty() {
            self.member_id = response.member_id.clone();
        }
        same_text(response.leader.as_str(), self.member_id.as_str())
    }

    /// The sync of the generation that a join answered, with the protocol that
    /// the coordinator selected and the assignments of the leader.
    pub fn sync_request(
        &self,
        consumer: &Consumer,
        response: &JoinGroupResponse,
        assignments: Vec<SyncGroupRequestAssignment>,
    ) -> (r: SyncGroupRequest)
        ensures
            r.group_id@ == consumer.settings.group_id@,
            r.generation_id == response.generation_id,
            r.member_id@ == self.member_id@,
            r.group_instance_id == self.group_instance_id,
            r.protocol_type matches Some(t) && t@ == "consumer"@,
            r.protocol_name matches Some(name) && name@ == selected(*response),
            r.assignments == assignments,
    {
        build_sync_group_request(
            consumer.settings.group_id.clone(),
            response.generation_id,
            self.member_id.clone(),
            copy_optional_text(&self.group_instance_id),
            selected_protocol(response),
            assignments,
        )
    }

    /// The heartbeat of the member in its generation.
    pub fn heartbeat_request(&self, consumer: &Consumer) -> (r: HeartbeatRequest)
        ensures
            r.group_id@ == consumer.settings.group_id@,
            r.generation_id == self.generation_id,
            r.member_id@ == self.member_id@,
            r.group_instance_id == self.group_instance_id,
    {
        build_heartbeat_request(
            consumer.settings.group_id.clone(),
            self.generation_id,
            self.member_id.clone(),
            copy_optional_text(&self.group_instance_id),
        )
    }

    /// Take the assignment of a sync, or its error. A completed sync ends the
    /// preparation of the join and its reason.
    pub fn join_and_sync(&mut self, error_code: i16, assignment: Vec<TopicPartition>) -> (r: Result<
        Vec<TopicPartition>,
        ConsumerError,
    >)
        ensures
            error_code != 0 ==> r is Err && group_error(
                r->Err_0,
                error_code,
                old(self).group_instance_id,
            ) && *final(self) == *old(self),
            error_code == 0 ==> {
                &&& r == Ok::<Vec<TopicPartition>, ConsumerError>(assignment)
                &&& final(self).rejoin_reason@.len() == 0
                &&& *final(self) == (GroupMember {
                    join_prepared: false,
                    rejoin_reason: final(self).rejoin_reason,
                    ..*old(self)
                })
            },
    {
        match sync_assignment(error_code, assignment, &self.group_instance_id) {
            Ok(assignment) => {
                self.join_prepared = false;
                self.rejoin_reason = String::new();
                Ok(assignment)
            },
            Err(e) => Err(e),
        }
    }
}

/// The assignment of a sync, or the error of its code.
pub fn sync_assignment(
    error_code: i16,
    assignment: Vec<TopicPartition>,
    group_instance_id: &Option<String>,
) -> (r: Result<Vec<TopicPartition>, ConsumerError>)
    ensures
        error_code == 0 ==> r == Ok::<Vec<TopicPartition>, ConsumerError>(assignment),
        error_code != 0 ==> r is Err && group_error(r->Err_0, error_code, *group_instance_id),
{
    if error_code != 0 {
        return Err(group_response_error(error_code, group_instance_id));
    }
    Ok(assignment)
}

/// The first protocol with a name.
pub open spec fn protocol_index(offered: Seq<String>, name: Seq<char>) -> Option<int>
    decreases offered.len(),
{
    if offered.len() == 0 {
        None
    } else if protocol_index(offered.drop_last(), name) is Some {
        protocol_index(offered.drop_last(), name)
    } else if offered.last()@ == name {
        Some(offered.len() - 1)
    } else {
        None
    }
}

/// The name of the protocol that the coordinator selected, empty for none.
pub open spec fn selected(response: JoinGroupResponse) -> Seq<char> {
    match response.protocol_name {
        Some(name) => name@,
        None => seq![],
    }
}

/// The name of the protocol that the coordinator selected, empty for none.
fn selected_protocol(response: &JoinGroupResponse) -> (r: String)
    ensures
        r@ == selected(*response),
{
    let name = match &response.protocol_name {
        Some(name) => name.clone(),
        None => String::new(),
    };
    assert(name@ =~= selected(*response));
    name
}

/// The topics that any member subscribes to.
pub open spec fn all_topics(topics: Seq<Vec<String>>) -> Set<Seq<char>> {
    Set::new(
        |t: Seq<char>|
            exists|i: int| 0 <= i < topics.len() && text_set((#[trigger] topics[i])@).contains(t),
    )
}

/// What the leader assigns: the selected assignment protocol, and the partition
/// counts of every topic that a member subscribes to.
#[derive(Debug, PartialEq, Eq)]
pub struct LeaderInput {
    /// The place of the selected protocol among the offered ones.
    pub protocol: usize,
    pub topic_partitions: SortedMap<String, i32>,
}

proof fn lemma_protocol_index_stays(offered: Seq<String>, name: Seq<char>, n: int)
    requires
        0 <= n <= offered.len(),
        protocol_index(offered.take(n), name) is Some,
    ensures
        protocol_index(offered, name) == protocol_index(offered.take(n), name),
    decreases offered.len() - n,
{
    if n < offered.len() {
        assert(offered.take(n + 1).drop_last() =~= offered.take(n));
        lemma_protocol_index_stays(offered, name, n + 1);
    } else {
        assert(offered.take(n) =~= offered);
    }
}

/// What the leader of the group assigns, from the subscribed topics of each
/// member. It is an error when the coordinator selected a protocol that this
/// member did not offer.
pub fn leader_input(
    offered: &Vec<String>,
    response: &JoinGroupResponse,
    member_topics: &Vec<Vec<String>>,
    metadata: &MetadataResponse,
) -> (r: Result<LeaderInput, ConsumerError>)
    ensures
        match protocol_index(offered@, selected(*response)) {
            Some(index) => r is Ok && r->Ok_0.protocol == index && r->Ok_0.topic_partitions@
                == topic_counts(metadata.topics@, all_topics(member_topics@)),
            None => r is Err && (r->Err_0 matches ConsumerError::IllegalState(m) && m@
                == "Coordinator selected invalid assignment protocol: "@ + selected(*response)),
        },
{
    let name = selected_protocol(response);
    let mut i: usize = 0;
    while i < offered.len() && !same_text(offered[i].as_str(), name.as_str())
        invariant
            i <= offered@.len(),
            protocol_index(offered@.take(i as int), name@) is None,
        decreases offered.len() - i,
    {
        assert(offered@.take(i + 1).drop_last() =~= offered@.take(i as int));
        i = i + 1;
    }
    if i == offered.len() {
        assert(offered@.take(i as int) =~= offered@);
        return Err(
            ConsumerError::IllegalState(
                concat2("Coordinator selected invalid assignment protocol: ", name.as_str()),
            ),
        );
    }
    proof {
        assert(offered@.take(i + 1).drop_last() =~= offered@.take(i as int));
        lemma_protocol_index_stays(offered@, name@, i + 1);
    }
    let topics = union_topics(member_topics);
    Ok(LeaderInput { protocol: i, topic_partitions: member_partition_counts(metadata, &topics) })
}

/// What a member brings to its sync: the input of the assignment, for a leader,
/// and the partition counts of its own subscribed topics that the assignment is
/// computed against.
#[derive(Debug, PartialEq, Eq)]
pub struct LeaderAssignment {
    pub input: Option<LeaderInput>,
    pub topic_partitions: SortedMap<String, i32>,
}

/// What a member brings to its sync. A leader takes it from fresh metadata, and
/// learns the ids of its subscribed topics; any other member has no metadata,
/// and brings nothing.
pub fn compute_leader_assignment(
    consumer: &mut Consumer,
    offered: &Vec<String>,
    response: &JoinGroupResponse,
    member_topics: &Vec<Vec<String>>,
    metadata: Option<&MetadataResponse>,
) -> (r: Result<LeaderAssignment, ConsumerError>)
    ensures
        match metadata {
            None => {
                &&& r is Ok
                &&& r->Ok_0.input is None
                &&& r->Ok_0.topic_partitions@ == Map::<Seq<char>, i32>::empty()
                &&& *final(consumer) == *old(consumer)
            },
            Some(metadata) => {
                let wanted = text_set(old(consumer).subscription.topics@);
                &&& match protocol_index(offered@, selected(*response)) {
                    Some(index) => {
                        &&& r is Ok
                        &&& (r->Ok_0.input matches Some(input) && input.protocol == index
                            && input.topic_partitions@ == topic_counts(
                            metadata.topics@,
                            all_topics(member_topics@),
                        ))
                        &&& r->Ok_0.topic_partitions@ == topic_counts(metadata.topics@, wanted)
                    },
                    None => r is Err && (r->Err_0 matches ConsumerError::IllegalState(m) && m@
                        == "Coordinator selected invalid assignment protocol: "@ + selected(
                        *response,
                    )),
                }
                &&& final(consumer).topic_ids@ == topic_ids_after(
                    old(consumer).topic_ids@,
                    metadata.topics@,
                    wanted,
                )
                &&& *final(consumer) == (Consumer {
                    topic_ids: final(consumer).topic_ids,
                    ..*old(consumer)
                })
            },
        },
{
    let metadata = match metadata {
        Some(metadata) => metadata,
        None => {
            return Ok(LeaderAssignment { input: None, topic_partitions: SortedMap::new() });
        },
    };
    let topic_partitions = subscribed_partition_counts(metadata, &consumer.subscription);
    learn_topic_ids(&mut consumer.topic_ids, metadata, &consumer.subscription);
    match leader_input(offered, response, member_topics, metadata) {
        Ok(input) => Ok(LeaderAssignment { input: Some(input), topic_partitions }),
        Err(e) => Err(e),
    }
}

fn union_topics(member_topics: &Vec<Vec<String>>) -> (r: SortedSet<String>)
    ensures
        r@ == all_topics(member_topics@),
{
    let mut r: SortedSet<String> = SortedSet::new();
    let mut i: usize = 0;
    while i < member_topics.len()
        invariant
            i <= member_topics@.len(),
            forall|t: Seq<char>| #[trigger]
                r@.contains(t) <==> exists|j: int|
                    0 <= j < i && text_set((#[trigger] member_topics@[j])@).contains(t),
        decreases member_topics.len() - i,
    {
        let topics = &member_topics[i];
        let ghost had = r@;
        let mut j: usize = 0;
        while j < topics.len()
            invariant
                j <= topics@.len(),
                forall|t: Seq<char>| #[trigger]
                    r@.contains(t) <==> had.contains(t) || exists|k: int|
                        0 <= k < j && (#[trigger] topics@[k])@ == t,
            decreases topics.len() - j,
        {
            let ghost before = r@;
            r.insert(topics[j].clone());
            proof {
                assert forall|t: Seq<char>| #[trigger] r@.contains(t) <==> had.contains(t)
                    || exists|k: int| 0 <= k < j + 1 && (#[trigger] topics@[k])@ == t by {
                    if before.contains(t) && !had.contains(t) {
                        let k = choose|k: int| 0 <= k < j && (#[trigger] topics@[k])@ == t;
                        assert(topics@[k]@ == t);
                    }
                    assert(topics@[j as int]@ == topics@[j as int]@);
                }
            }
            j = j + 1;
        }
        proof {
            assert forall|t: Seq<char>| #[trigger] r@.contains(t) <==> exists|a: int|
                0 <= a < i + 1 && text_set((#[trigger] member_topics@[a])@).contains(t) by {
                if had.contains(t) {
                    let a = choose|a: int|
                        0 <= a < i && text_set((#[trigger] member_topics@[a])@).contains(t);
                    assert(text_set(member_topics@[a]@).contains(t));
                } else if r@.contains(t) {
                    let k = choose|k: int| 0 <= k < j && (#[trigger] topics@[k])@ == t;
                    assert(views(topics@)[k] == t);
                    assert(text_set(member_topics@[i as int]@).contains(t));
                }
                if exists|a: int|
                    0 <= a < i + 1 && text_set((#[trigger] member_topics@[a])@).contains(t) {
                    let a = choose|a: int|
                        0 <= a < i + 1 && text_set((#[trigger] member_topics@[a])@).contains(t);
                    if a == i {
                        let k = choose|k: int|
                            0 <= k < views(topics@).len() && views(topics@)[k] == t;
                        assert(topics@[k]@ == t);
                    } else {
                        assert(had.contains(t));
                    }
                }
            }
        }
        i = i + 1;
    }
    assert(r@ =~= all_topics(member_topics@));
    r
}

/// The sync group assignments of the leader: one per member, in the order of
/// the member ids.
pub fn leader_assignments(assigned: SortedMap<String, Vec<TopicPartition>>) -> (r: Vec<
    SyncGroupRequestAssignment,
>)
    ensures
        r@.len() == assigned.keys().len(),
        assigned.keys_listed(),
        forall|i: int|
            0 <= i < r@.len() ==> {
                &&& (#[trigger] r@[i]).member_id@ == assigned.keys()[i]
                &&& r@[i].partitions == assigned@[assigned.keys()[i]]
            },
{
    let ghost keys = assigned.keys();
    let ghost map = assigned@;
    let entries = assigned.into_entries();
    let ghost all = entries@;
    let mut r: Vec<SyncGroupRequestAssignment> = Vec::new();
    for entry in iter: entries
        invariant
            iter.seq() == all,
            all.len() == keys.len(),
            forall|i: int|
                0 <= i < all.len() ==> {
                    &&& (#[trigger] all[i]).0@ == keys[i]
                    &&& all[i].1 == map[all[i].0@]
                },
            r@.len() == iter.index(),
            forall|i: int|
                0 <= i < r@.len() ==> {
                    &&& (#[trigger] r@[i]).member_id@ == keys[i]
                    &&& r@[i].partitions == map[keys[i]]
                },
    {
        assert(entry == all[iter.index() as int]);
        r.push(crate::group_wire::build_sync_group_assignment(entry.0, entry.1));
    }
    r
}

/// What a heartbeat asks for beside its outcome.
#[derive(Clone, Copy, Debug, PartialEq, Eq, Structural)]
pub enum HeartbeatFollowUp {
    Nothing,
    /// Find the coordinator again.
    Refind,
    /// Drop the connection to the coordinator and find it again.
    EvictAndRefind,
}

/// The outcome of a heartbeat and what it asks for: after the code of a moved
/// coordinator, and after a connection that is gone, the coordinator is found
/// again. Any other error of the connection is kept for `poll` if the
/// application must see it.
pub open spec fn heartbeat_done(
    result: Result<i16, ClientError>,
    consumer: Consumer,
    outcome: (HeartbeatOutcome, HeartbeatFollowUp),
    after: Consumer,
) -> bool {
    match result {
        Ok(code) => {
            &&& outcome.0 == outcome_of(code)
            &&& outcome.1 == if outcome_of(code) == HeartbeatOutcome::Transient
                && retriable_coordinator_code(code) {
                HeartbeatFollowUp::Refind
            } else {
                HeartbeatFollowUp::Nothing
            }
            &&& after == consumer
        },
        Err(e) => {
            &&& outcome.0 == HeartbeatOutcome::Transient
            &&& if retriable_transport_error(e) {
                outcome.1 == HeartbeatFollowUp::EvictAndRefind && after == consumer
            } else {
                &&& outcome.1 == HeartbeatFollowUp::Nothing
                &&& after.poll_error == if reaches_poll(ConsumerError::Client(e)) {
                    Some(ConsumerError::Client(e))
                } else {
                    consumer.poll_error
                }
                &&& after == (Consumer { poll_error: after.poll_error, ..consumer })
            }
        },
    }
}

/// Classify the error code of a heartbeat answer, or the error of its
/// connection.
pub fn heartbeat_result_outcome(consumer: &mut Consumer, result: Result<i16, ClientError>) -> (r: (
    HeartbeatOutcome,
    HeartbeatFollowUp,
))
    ensures
        heartbeat_done(result, *old(consumer), r, *final(consumer)),
{
    match result {
        Ok(code) => {
            let outcome = heartbeat_outcome(code);
            if outcome == HeartbeatOutcome::Transient && is_retriable_coordinator_code(code) {
                (outcome, HeartbeatFollowUp::Refind)
            } else {
                (outcome, HeartbeatFollowUp::Nothing)
            }
        },
        Err(e) => {
            if is_retriable_transport_error(&e) {
                return (HeartbeatOutcome::Transient, HeartbeatFollowUp::EvictAndRefind);
            }
            consumer.report_rejoin_error(ConsumerError::Client(e));
            (HeartbeatOutcome::Transient, HeartbeatFollowUp::Nothing)
        },
    }
}

/// How an auto commit ended.
#[derive(Clone, Copy, Debug, PartialEq, Eq, Structural)]
pub enum AutoCommitOutcome {
    Committed,
    /// The commit can be tried again; the flag says that the coordinator moved.
    Retriable { moved: bool },
    Failed,
}

/// What follows a try of the commit before a join.
#[derive(Clone, Copy, Debug, PartialEq, Eq, Structural)]
pub enum CommitStep {
    /// Go on with the join.
    Join,
    /// Wait, then commit again.
    Again { wait: Nanos },
}

/// Whether the coordinator must be found before the commit is tried again.
pub fn commit_needs_refind(outcome: AutoCommitOutcome) -> (r: bool)
    ensures
        r == (outcome == AutoCommitOutcome::Retriable { moved: true }),
{
    match outcome {
        AutoCommitOutcome::Retriable { moved } => moved,
        _ => false,
    }
}

/// What follows a try of the commit before a join: a retriable failure is
/// tried again until the deadline, and every other end goes on with the join.
pub fn commit_consumed_before_join(
    outcome: AutoCommitOutcome,
    now: Nanos,
    deadline: Nanos,
    backoff: Nanos,
) -> (r: CommitStep)
    ensures
        r == if outcome is Retriable && now < deadline {
            CommitStep::Again {
                wait: if backoff < deadline - now {
                    backoff
                } else {
                    (deadline - now) as u64
                },
            }
        } else {
            CommitStep::Join
        },
{
    match outcome {
        AutoCommitOutcome::Retriable { .. } => {
            if now >= deadline {
                return CommitStep::Join;
            }
            let left: Nanos = deadline - now;
            CommitStep::Again {
                wait: if backoff < left {
                    backoff
                } else {
                    left
                },
            }
        },
        AutoCommitOutcome::Committed | AutoCommitOutcome::Failed => CommitStep::Join,
    }
}

} // verus!
