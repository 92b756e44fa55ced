//! The requests of a group member, and what it reads in the answers.
use bytes::Bytes;
use vstd::prelude::*;

use crate::collections::SortedSet;
use crate::error::{ClientError, ConsumerError};
use crate::records::buffer_bytes;
use crate::text::concat2;
use crate::text::concat3;
use crate::wire::TopicPartition;

verus! {

/// Another consumer joined the group with the same `group.instance.id`.
pub const FENCED_INSTANCE_ID: i16 = 82;

/// The coordinator does not know the member.
pub const UNKNOWN_MEMBER_ID: i16 = 25;

/// The generation is not the one of the group.
pub const ILLEGAL_GENERATION: i16 = 22;

/// The group is rebalancing.
pub const REBALANCE_IN_PROGRESS: i16 = 27;

/// The member must join again with the id that the coordinator gave it.
pub const MEMBER_ID_REQUIRED: i16 = 79;

/// The reason of a member that leaves when the consumer closes.
pub const CLOSE_LEAVE_REASON: &'static str = "the consumer is being closed";

/// The reason of a member that leaves because nobody called `poll`.
pub const POLL_TIMEOUT_LEAVE_REASON: &'static str = "consumer poll timeout has expired.";

/// The reason of a member that leaves on `unsubscribe`.
pub const UNSUBSCRIBE_LEAVE_REASON: &'static str = "the consumer unsubscribed from all topics";

/// The most characters of a reason.
pub const MAX_REASON: usize = 255;

/// The reason as a request carries it.
pub open spec fn truncated(reason: Seq<char>) -> Seq<char> {
    if reason.len() <= MAX_REASON {
        reason
    } else {
        reason.take(MAX_REASON as int)
    }
}

/// The first 255 characters of a reason.
pub fn truncate_reason(reason: &str) -> (r: &str)
    ensures
        r@ == truncated(reason@),
{
    if reason.unicode_len() <= MAX_REASON {
        reason
    } else {
        let cut = reason.substring_char(0, MAX_REASON);
        assert(cut@ =~= reason@.take(MAX_REASON as int));
        cut
    }
}

/// The name of the error in the reason of a rejoin after a heartbeat.
pub open spec fn heartbeat_error_name(error_code: i16) -> Seq<char> {
    if error_code == ILLEGAL_GENERATION {
        "ILLEGAL_GENERATION"@
    } else if error_code == UNKNOWN_MEMBER_ID {
        "UNKNOWN_MEMBER_ID"@
    } else if error_code == FENCED_INSTANCE_ID {
        "FENCED_INSTANCE_ID"@
    } else {
        "UNKNOWN_SERVER_ERROR"@
    }
}

/// The reason of a rejoin after a heartbeat error.
pub open spec fn heartbeat_reason(error_code: i16) -> Seq<char> {
    if error_code == REBALANCE_IN_PROGRESS {
        "group is already rebalancing"@
    } else {
        "encountered "@ + heartbeat_error_name(error_code) + " from HEARTBEAT response"@
    }
}

/// The reason of a rejoin after a heartbeat error.
pub fn heartbeat_rejoin_reason(error_code: i16) -> (r: String)
    ensures
        r@ == heartbeat_reason(error_code),
{
    let error = match error_code {
        REBALANCE_IN_PROGRESS => {
            return "group is already rebalancing".to_owned();
        },
        ILLEGAL_GENERATION => "ILLEGAL_GENERATION",
        UNKNOWN_MEMBER_ID => "UNKNOWN_MEMBER_ID",
        FENCED_INSTANCE_ID => "FENCED_INSTANCE_ID",
        _ => "UNKNOWN_SERVER_ERROR",
    };
    concat3("encountered ", error, " from HEARTBEAT response")
}

/// The name of a failure in the reason of the next join.
pub open spec fn failure_name(error: ConsumerError) -> Seq<char> {
    match error {
        ConsumerError::Server(14) => "CoordinatorLoadInProgressException"@,
        ConsumerError::Server(15) => "CoordinatorNotAvailableException"@,
        ConsumerError::CoordinatorUnavailable => "CoordinatorNotAvailableException"@,
        ConsumerError::Server(16) => "NotCoordinatorException"@,
        ConsumerError::Server(22) => "IllegalGenerationException"@,
        ConsumerError::Server(23) => "InconsistentGroupProtocolException"@,
        ConsumerError::Server(24) => "InvalidGroupIdException"@,
        ConsumerError::Server(25) => "UnknownMemberIdException"@,
        ConsumerError::Server(26) => "InvalidSessionTimeoutException"@,
        ConsumerError::Server(27) => "RebalanceInProgressException"@,
        ConsumerError::Server(30) => "GroupAuthorizationException"@,
        ConsumerError::GroupAuthorizationFailed(_) => "GroupAuthorizationException"@,
        ConsumerError::Server(81) => "GroupMaxSizeReachedException"@,
        ConsumerError::FencedInstanceId(_) => "FencedInstanceIdException"@,
        ConsumerError::TopicAuthorizationFailed(_) => "TopicAuthorizationException"@,
        ConsumerError::Client(ClientError::Timeout(_)) => "TimeoutException"@,
        ConsumerError::Client(_) => "DisconnectException"@,
        _ => "KafkaException"@,
    }
}

/// The reason of a rejoin after a failed join.
pub fn rebalance_failure_reason(error: &ConsumerError) -> (r: String)
    ensures
        r@ == "rebalance failed due to "@ + failure_name(*error),
{
    let exception = match error {
        ConsumerError::Server(14) => "CoordinatorLoadInProgressException",
        ConsumerError::Server(15) => "CoordinatorNotAvailableException",
        ConsumerError::CoordinatorUnavailable => "CoordinatorNotAvailableException",
        ConsumerError::Server(16) => "NotCoordinatorException",
        ConsumerError::Server(22) => "IllegalGenerationException",
        ConsumerError::Server(23) => "InconsistentGroupProtocolException",
        ConsumerError::Server(24) => "InvalidGroupIdException",
        ConsumerError::Server(25) => "UnknownMemberIdException",
        ConsumerError::Server(26) => "InvalidSessionTimeoutException",
        ConsumerError::Server(27) => "RebalanceInProgressException",
        ConsumerError::Server(30) => "GroupAuthorizationException",
        ConsumerError::GroupAuthorizationFailed(_) => "GroupAuthorizationException",
        ConsumerError::Server(81) => "GroupMaxSizeReachedException",
        ConsumerError::FencedInstanceId(_) => "FencedInstanceIdException",
        ConsumerError::TopicAuthorizationFailed(_) => "TopicAuthorizationException",
        ConsumerError::Client(ClientError::Timeout(_)) => "TimeoutException",
        ConsumerError::Client(_) => "DisconnectException",
        _ => "KafkaException",
    };
    concat2("rebalance failed due to ", exception)
}

/// A row of a find coordinator answer.
#[derive(Debug, PartialEq, Eq)]
pub struct Coordinator {
    pub key: String,
    pub node_id: i32,
    pub host: String,
    pub port: i32,
    pub error_code: i16,
}

/// The answer to a find coordinator request. From version 4 the rows carry the
/// coordinators; before, the fields at the top do.
#[derive(Debug, PartialEq, Eq)]
pub struct FindCoordinatorResponse {
    pub error_code: i16,
    pub node_id: i32,
    pub coordinators: Vec<Coordinator>,
}

/// A find coordinator request.
#[derive(Debug, PartialEq, Eq)]
pub struct FindCoordinatorRequest {
    pub key: String,
    /// 0: the key is a group.
    pub key_type: i8,
    pub coordinator_keys: Vec<String>,
}

/// Build a find coordinator request, with the group at both of its places.
pub fn build_find_coordinator_request(group_id: String) -> (r: FindCoordinatorRequest)
    ensures
        r.key@ == group_id@,
        r.key_type == 0,
        r.coordinator_keys@.len() == 1,
        r.coordinator_keys@[0]@ == group_id@,
{
    let mut coordinator_keys: Vec<String> = Vec::new();
    coordinator_keys.push(group_id.clone());
    FindCoordinatorRequest { key: group_id, key_type: 0, coordinator_keys }
}

/// The error code of a find coordinator answer: that of its first row, or the
/// one at the top.
pub open spec fn found_code(r: FindCoordinatorResponse) -> i16 {
    if r.coordinators@.len() > 0 {
        r.coordinators@[0].error_code
    } else {
        r.error_code
    }
}

/// The coordinator of a find coordinator answer.
pub open spec fn found_node(r: FindCoordinatorResponse) -> i32 {
    if r.coordinators@.len() > 0 {
        r.coordinators@[0].node_id
    } else {
        r.node_id
    }
}

/// The error code of a find coordinator answer.
pub fn coordinator_error_code(r: &FindCoordinatorResponse) -> (code: i16)
    ensures
        code == found_code(*r),
{
    if r.coordinators.len() > 0 {
        r.coordinators[0].error_code
    } else {
        r.error_code
    }
}

/// The coordinator of a find coordinator answer.
pub fn coordinator_node_id(r: &FindCoordinatorResponse) -> (id: i32)
    ensures
        id == found_node(*r),
{
    if r.coordinators.len() > 0 {
        r.coordinators[0].node_id
    } else {
        r.node_id
    }
}

/// The coordinator that an answer names. It is an error when the answer has a
/// code, and when the broker is not one of `dialable`, those with an address
/// after a metadata refresh.
pub fn find_coordinator(r: &FindCoordinatorResponse, dialable: &SortedSet<i32>) -> (id: Result<
    i32,
    ConsumerError,
>)
    ensures
        id == if found_code(*r) != 0 {
            Err::<i32, ConsumerError>(ConsumerError::Server(found_code(*r)))
        } else if dialable@.contains(found_node(*r)) {
            Ok(found_node(*r))
        } else {
            Err(ConsumerError::CoordinatorUnavailable)
        },
{
    let code = coordinator_error_code(r);
    if code != 0 {
        return Err(ConsumerError::Server(code));
    }
    let id = coordinator_node_id(r);
    if !dialable.contains(&id) {
        return Err(ConsumerError::CoordinatorUnavailable);
    }
    Ok(id)
}

/// A member that leaves.
#[derive(Debug, PartialEq, Eq)]
pub struct MemberIdentity {
    pub member_id: String,
    pub group_instance_id: Option<String>,
    pub reason: Option<String>,
}

/// A leave group request.
#[derive(Debug, PartialEq, Eq)]
pub struct LeaveGroupRequest {
    pub group_id: String,
    pub member_id: String,
    pub members: Vec<MemberIdentity>,
}

/// Whether a request takes a member out of its group with a reason.
pub open spec fn leaves(
    r: LeaveGroupRequest,
    group_id: Seq<char>,
    member_id: Seq<char>,
    reason: Option<Seq<char>>,
) -> bool {
    &&& r.group_id@ == group_id
    &&& r.member_id@ == member_id
    &&& r.members@.len() == 1
    &&& r.members@[0].member_id@ == member_id
    &&& r.members@[0].group_instance_id is None
    &&& match reason {
        Some(text) => r.members@[0].reason matches Some(m) && m@ == truncated(text),
        None => r.members@[0].reason is None,
    }
}

/// The text of an optional reason.
pub open spec fn reason_view(reason: Option<&str>) -> Option<Seq<char>> {
    match reason {
        Some(text) => Some(text@),
        None => None,
    }
}

/// Build the leave group request of one member. It names the member by its id
/// only, also for a static member.
pub fn build_leave_group_request(group_id: String, member_id: String, reason: Option<&str>) -> (r:
    LeaveGroupRequest)
    ensures
        leaves(r, group_id@, member_id@, reason_view(reason)),
{
    let reason = match reason {
        Some(text) => Some(truncate_reason(text).to_owned()),
        None => None,
    };
    let mut members: Vec<MemberIdentity> = Vec::new();
    members.push(
        MemberIdentity { member_id: member_id.clone(), group_instance_id: None, reason },
    );
    LeaveGroupRequest { group_id, member_id, members }
}

/// A heartbeat.
#[derive(Debug, PartialEq, Eq)]
pub struct HeartbeatRequest {
    pub group_id: String,
    pub generation_id: i32,
    pub member_id: String,
    pub group_instance_id: Option<String>,
}

/// Build a heartbeat.
pub fn build_heartbeat_request(
    group_id: String,
    generation_id: i32,
    member_id: String,
    group_instance_id: Option<String>,
) -> (r: HeartbeatRequest)
    ensures
        r == (HeartbeatRequest { group_id, generation_id, member_id, group_instance_id }),
{
    HeartbeatRequest { group_id, generation_id, member_id, group_instance_id }
}

/// The subscription of a member under one assignment protocol.
#[derive(Debug, PartialEq, Eq)]
pub struct JoinGroupRequestProtocol {
    pub name: String,
    pub metadata: Bytes,
}

/// A join group request.
#[derive(Debug, PartialEq, Eq)]
pub struct JoinGroupRequest {
    pub group_id: String,
    pub session_timeout_ms: i32,
    pub rebalance_timeout_ms: i32,
    pub member_id: String,
    pub group_instance_id: Option<String>,
    pub protocol_type: String,
    pub protocols: Vec<JoinGroupRequestProtocol>,
    pub reason: Option<String>,
}

/// The fields of the join group requests of one join. Only the member id
/// differs between its requests.
#[derive(Debug, PartialEq, Eq)]
pub struct JoinRequestFields {
    pub group_id: String,
    pub group_instance_id: Option<String>,
    pub session_timeout_ms: i32,
    pub rebalance_timeout_ms: i32,
    /// The name and the encoded subscription of each assignment protocol, in
    /// the order of preference.
    pub protocols: Vec<(String, Bytes)>,
    pub reason: String,
}

/// The view of an optional text.
pub open spec fn optional_text(text: Option<String>) -> Option<Seq<char>> {
    match text {
        Some(t) => Some(t@),
        None => None,
    }
}

/// A second value equal to an optional text.
pub fn copy_optional_text(text: &Option<String>) -> (r: Option<String>)
    ensures
        r == *text,
{
    match text {
        Some(t) => Some(t.clone()),
        None => None,
    }
}

impl JoinRequestFields {
    /// The join group request of these fields for a member id.
    pub fn request(&self, member_id: String) -> (r: JoinGroupRequest)
        ensures
            r.group_id@ == self.group_id@,
            r.protocol_type@ == "consumer"@,
            r.member_id == member_id,
            r.group_instance_id == self.group_instance_id,
            r.session_timeout_ms == self.session_timeout_ms,
            r.rebalance_timeout_ms == self.rebalance_timeout_ms,
            r.reason matches Some(m) && m@ == truncated(self.reason@),
            r.protocols@.len() == self.protocols@.len(),
            forall|i: int|
                0 <= i < r.protocols@.len() ==> {
                    &&& (#[trigger] r.protocols@[i]).name@ == self.protocols@[i].0@
                    &&& buffer_bytes(r.protocols@[i].metadata) == buffer_bytes(
                        self.protocols@[i].1,
                    )
                },
    {
        let mut protocols: Vec<JoinGroupRequestProtocol> = Vec::new();
        let mut i: usize = 0;
        while i < self.protocols.len()
            invariant
                i <= self.protocols@.len(),
                protocols@.len() == i,
                forall|j: int|
                    0 <= j < i ==> {
                        &&& (#[trigger] protocols@[j]).name@ == self.protocols@[j].0@
                        &&& buffer_bytes(protocols@[j].metadata) == buffer_bytes(
                            self.protocols@[j].1,
                        )
                    },
            decreases self.protocols.len() - i,
        {
            protocols.push(
                JoinGroupRequestProtocol {
                    name: self.protocols[i].0.clone(),
                    metadata: self.protocols[i].1.clone(),
                },
            );
            i = i + 1;
        }
        JoinGroupRequest {
            group_id: self.group_id.clone(),
            session_timeout_ms: self.session_timeout_ms,
            rebalance_timeout_ms: self.rebalance_timeout_ms,
            member_id,
            group_instance_id: copy_optional_text(&self.group_instance_id),
            protocol_type: "consumer".to_owned(),
            protocols,
            reason: Some(truncate_reason(self.reason.as_str()).to_owned()),
        }
    }
}

/// The partitions of one member in a sync group request.
#[derive(Debug, PartialEq, Eq)]
pub struct SyncGroupRequestAssignment {
    pub member_id: String,
    pub partitions: Vec<TopicPartition>,
}

/// A sync group request.
#[derive(Debug, PartialEq, Eq)]
pub struct SyncGroupRequest {
    pub group_id: String,
    pub generation_id: i32,
    pub member_id: String,
    pub group_instance_id: Option<String>,
    pub protocol_type: Option<String>,
    pub protocol_name: Option<String>,
    pub assignments: Vec<SyncGroupRequestAssignment>,
}

/// The partitions of one member.
pub fn build_sync_group_assignment(member_id: String, partitions: Vec<TopicPartition>) -> (r:
    SyncGroupRequestAssignment)
    ensures
        r == (SyncGroupRequestAssignment { member_id, partitions }),
{
    SyncGroupRequestAssignment { member_id, partitions }
}

/// Build a sync group request.
pub fn build_sync_group_request(
    group_id: String,
    generation_id: i32,
    member_id: String,
    group_instance_id: Option<String>,
    chosen_protocol: String,
    assignments: Vec<SyncGroupRequestAssignment>,
) -> (r: SyncGroupRequest)
    ensures
        r.group_id == group_id,
        r.generation_id == generation_id,
        r.member_id == member_id,
        r.group_instance_id == group_instance_id,
        r.protocol_type matches Some(t) && t@ == "consumer"@,
        r.protocol_name == Some(chosen_protocol),
        r.assignments == assignments,
{
    SyncGroupRequest {
        group_id,
        generation_id,
        member_id,
        group_instance_id,
        protocol_type: Some("consumer".to_owned()),
        protocol_name: Some(chosen_protocol),
        assignments,
    }
}

/// Whether an error is the one of a join group or sync group answer.
pub open spec fn group_error(
    e: ConsumerError,
    error_code: i16,
    group_instance_id: Option<String>,
) -> bool {
    if error_code == FENCED_INSTANCE_ID {
        e matches ConsumerError::FencedInstanceId(id) && id@ == instance_of(group_instance_id)
    } else {
        e == ConsumerError::Server(error_code)
    }
}

/// The instance id of a member, empty for a dynamic one.
pub open spec fn instance_of(group_instance_id: Option<String>) -> Seq<char> {
    match group_instance_id {
        Some(id) => id@,
        None => seq![],
    }
}

/// The instance id of a member, empty for a dynamic one.
pub fn instance_or_empty(group_instance_id: &Option<String>) -> (r: String)
    ensures
        r@ == instance_of(*group_instance_id),
{
    match group_instance_id {
        Some(id) => id.clone(),
        None => String::new(),
    }
}

/// The error of a join group or sync group answer with an error code.
pub fn group_response_error(error_code: i16, group_instance_id: &Option<String>) -> (r:
    ConsumerError)
    ensures
        group_error(r, error_code, *group_instance_id),
{
    if error_code == FENCED_INSTANCE_ID {
        ConsumerError::FencedInstanceId(instance_or_empty(group_instance_id))
    } else {
        ConsumerError::Server(error_code)
    }
}

/// What a member does with its membership when it stops.
#[derive(Clone, Copy, Debug, PartialEq, Eq, Structural)]
pub enum GroupMembershipOperation {
    /// Leave, unless the member is static.
    Default,
    /// Leave.
    LeaveGroup,
    /// Stay.
    RemainInGroup,
}

/// Whether a member leaves for an operation: a member with an id leaves when
/// it is told to, and a dynamic one also by default.
pub open spec fn sends_leave(
    member_id: Seq<char>,
    is_static: bool,
    operation: GroupMembershipOperation,
) -> bool {
    member_id.len() > 0 && (operation == GroupMembershipOperation::LeaveGroup || (operation
        == GroupMembershipOperation::Default && !is_static))
}

/// Whether a member sends a leave group request for `operation`.
pub fn should_send_leave_group(
    member_id: &str,
    group_instance_id: &Option<String>,
    operation: GroupMembershipOperation,
) -> (r: bool)
    ensures
        r == sends_leave(member_id@, group_instance_id is Some, operation),
{
    !member_id.is_empty() && match operation {
        GroupMembershipOperation::LeaveGroup => true,
        GroupMembershipOperation::RemainInGroup => false,
        GroupMembershipOperation::Default => group_instance_id.is_none(),
    }
}

/// What a heartbeat says.
#[derive(Clone, Copy, Debug, PartialEq, Eq, Structural)]
pub enum HeartbeatOutcome {
    /// The member is in the group.
    Alive,
    /// The group is rebalancing, or has a newer generation. Join again with
    /// the same member id.
    NeedRejoin(i16),
    /// The coordinator does not know the member. Join again from scratch.
    RejoinFromScratch,
    /// Another consumer has the same `group.instance.id`. The member is out of
    /// the group until the next `poll`.
    Fenced,
    /// Another error. Try again on the next tick.
    Transient,
}

/// What the error code of a heartbeat says.
pub open spec fn outcome_of(error_code: i16) -> HeartbeatOutcome {
    if error_code == 0 {
        HeartbeatOutcome::Alive
    } else if error_code == REBALANCE_IN_PROGRESS || error_code == ILLEGAL_GENERATION {
        HeartbeatOutcome::NeedRejoin(error_code)
    } else if error_code == UNKNOWN_MEMBER_ID {
        HeartbeatOutcome::RejoinFromScratch
    } else if error_code == FENCED_INSTANCE_ID {
        HeartbeatOutcome::Fenced
    } else {
        HeartbeatOutcome::Transient
    }
}

/// What the error code of a heartbeat says.
pub fn heartbeat_outcome(error_code: i16) -> (r: HeartbeatOutcome)
    ensures
        r == outcome_of(error_code),
{
    match error_code {
        0 => HeartbeatOutcome::Alive,
        REBALANCE_IN_PROGRESS | ILLEGAL_GENERATION => HeartbeatOutcome::NeedRejoin(error_code),
        UNKNOWN_MEMBER_ID => HeartbeatOutcome::RejoinFromScratch,
        FENCED_INSTANCE_ID => HeartbeatOutcome::Fenced,
        _ => HeartbeatOutcome::Transient,
    }
}

} // verus!
