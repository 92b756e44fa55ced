//! What the answers of the group coordinator lead to, stated over their error
//! codes.
use vstd::prelude::*;

use crate::consumer::{Consumer, Nanos};
use crate::coordinator::rejoin_asked;
use crate::error::{ClientError, ConsumerError};
use crate::group_wire::{
    found_code, found_node, group_error, leaves, sends_leave, FindCoordinatorResponse,
    GroupMembershipOperation, HeartbeatOutcome, LeaveGroupRequest,
};
use crate::join::{ends_prepare, heartbeat_done, prepare_heartbeat_done, HeartbeatFollowUp};
use crate::membership::{reaches_poll, GroupMember, RejoinRequest};
use crate::offset_wire::{
    expected_code, first_code, first_group_error, retriable_code, OffsetFetchAction,
    OffsetFetchGroup, OffsetFetchResponse, OffsetRow,
};
use crate::retry::{
    backoff_after, classified, fetch_step_of, step_of, CoordinatorRetry, OffsetFetchStep, RetryStep,
};
use crate::wire::PartitionKey;

verus! {

/// The next wait is twice the last one, or the longest one where that is
/// shorter.
pub proof fn law_next_wait(backoff: int, max_backoff: int)
    ensures
        backoff_after(backoff, max_backoff) <= 2 * backoff,
        backoff_after(backoff, max_backoff) <= max_backoff,
        backoff_after(backoff, max_backoff) == 2 * backoff || backoff_after(backoff, max_backoff)
            == max_backoff,
{
}

/// Whether no time is left: the timeout passed since the start, where a clock
/// before the start shows that no time passed.
pub open spec fn out_of_time(start: Nanos, now: Nanos, timeout: Nanos) -> bool {
    start + timeout <= now || timeout == 0
}

/// Whether an error of the connection to the coordinator is tried again: all of
/// the transient ones but a timeout.
pub open spec fn tried_again(error: ClientError) -> bool {
    match error {
        ClientError::Connect(_)
        | ClientError::Tls(_)
        | ClientError::Sasl(_, _)
        | ClientError::Disconnected
        | ClientError::Io(_) => true,
        _ => false,
    }
}

/// An answer is returned unless its code says that the coordinator loads, is
/// missing or moved and time is left; then the request goes out again after the
/// wait, over the same connection.
pub proof fn law_coordinator_answers<R>(
    retry: CoordinatorRetry,
    response: R,
    code: i16,
    now: Nanos,
)
    ensures
        ({
            let step = step_of(retry, Ok::<R, ConsumerError>(response), code, now);
            let late = out_of_time(retry.start, now, retry.policy.timeout);
            &&& (code == 14 || code == 15 || code == 16) && !late ==> step == (RetryStep::<
                R,
            >::Again { wait: retry.backoff, evict: false })
            &&& !(code == 14 || code == 15 || code == 16) || late ==> step == RetryStep::<R>::Done(
                Ok(response),
            )
        }),
{
}

/// A lost connection is made anew for the next try while time is left, and then
/// the coordinator is unavailable. Any other error is returned as it is.
pub proof fn law_coordinator_errors<R>(
    retry: CoordinatorRetry,
    error: ConsumerError,
    code: i16,
    now: Nanos,
)
    ensures
        ({
            let step = step_of(retry, Err::<R, ConsumerError>(error), code, now);
            let late = out_of_time(retry.start, now, retry.policy.timeout);
            let lost = error is Client && tried_again(error->Client_0);
            &&& lost && !late ==> step == (RetryStep::<R>::Again {
                wait: retry.backoff,
                evict: true,
            })
            &&& lost && late ==> step == RetryStep::<R>::Done(
                Err(ConsumerError::CoordinatorUnavailable),
            )
            &&& !lost ==> step == RetryStep::<R>::Done(Err(error))
        }),
{
}

proof fn lemma_no_group_error(groups: Seq<OffsetFetchGroup>)
    requires
        forall|i: int| 0 <= i < groups.len() ==> !group_fails(#[trigger] groups[i]),
    ensures
        first_group_error(0, groups) is None,
    decreases groups.len(),
{
    if groups.len() > 0 {
        let front = groups.drop_last();
        assert forall|i: int| 0 <= i < front.len() implies !group_fails(#[trigger] front[i]) by {
            assert(groups[i] == front[i]);
        }
        lemma_no_group_error(front);
        assert(groups[groups.len() - 1] == groups.last());
    }
}

proof fn lemma_first_group_error(groups: Seq<OffsetFetchGroup>, i: int)
    requires
        0 <= i < groups.len(),
        group_fails(groups[i]),
        forall|j: int| 0 <= j < i ==> !group_fails(#[trigger] groups[j]),
    ensures
        first_group_error(0, groups) == Some(groups[i].error_code),
    decreases groups.len(),
{
    let front = groups.drop_last();
    assert forall|j: int| 0 <= j < i implies !group_fails(#[trigger] front[j]) by {
        assert(groups[j] == front[j]);
    }
    if i < groups.len() - 1 {
        assert(front[i] == groups[i]);
        lemma_first_group_error(front, i);
    } else {
        lemma_no_group_error(front);
    }
}

/// Whether a group has an error.
pub open spec fn group_fails(group: OffsetFetchGroup) -> bool {
    group.error_code != 0
}

proof fn lemma_error_of_the_answer(top: i16, groups: Seq<OffsetFetchGroup>)
    requires
        top != 0,
    ensures
        first_group_error(top, groups) == Some(top),
    decreases groups.len(),
{
    if groups.len() > 0 {
        lemma_error_of_the_answer(top, groups.drop_last());
    }
}

proof fn lemma_no_code(rows: Seq<OffsetRow>, p: spec_fn(i16) -> bool)
    requires
        forall|i: int| 0 <= i < rows.len() ==> !row_has(#[trigger] rows[i], p),
    ensures
        first_code(rows, p) is None,
    decreases rows.len(),
{
    if rows.len() > 0 {
        let front = rows.drop_last();
        assert forall|i: int| 0 <= i < front.len() implies !row_has(#[trigger] front[i], p) by {
            assert(rows[i] == front[i]);
        }
        lemma_no_code(front, p);
        assert(rows[rows.len() - 1] == rows.last());
    }
}

proof fn lemma_first_code(rows: Seq<OffsetRow>, p: spec_fn(i16) -> bool, i: int)
    requires
        0 <= i < rows.len(),
        row_has(rows[i], p),
        forall|j: int| 0 <= j < i ==> !row_has(#[trigger] rows[j], p),
    ensures
        first_code(rows, p) == Some(rows[i].1.error_code),
    decreases rows.len(),
{
    let front = rows.drop_last();
    assert forall|j: int| 0 <= j < i implies !row_has(#[trigger] front[j], p) by {
        assert(rows[j] == front[j]);
    }
    if i < rows.len() - 1 {
        assert(front[i] == rows[i]);
        lemma_first_code(front, p, i);
    } else {
        lemma_no_code(front, p);
    }
}

/// Whether the code of a row is one of some.
pub open spec fn row_has(row: OffsetRow, p: spec_fn(i16) -> bool) -> bool {
    p(row.1.error_code)
}

/// Where a row has one of some codes, one is the first that does.
proof fn lemma_first_row(rows: Seq<OffsetRow>, p: spec_fn(i16) -> bool, i: int) -> (first: int)
    requires
        0 <= i < rows.len(),
        row_has(rows[i], p),
    ensures
        0 <= first <= i,
        row_has(rows[first], p),
        forall|j: int| 0 <= j < first ==> !row_has(#[trigger] rows[j], p),
    decreases i,
{
    if exists|j: int| 0 <= j < i && row_has(#[trigger] rows[j], p) {
        let j = choose|j: int| 0 <= j < i && row_has(#[trigger] rows[j], p);
        lemma_first_row(rows, p, j)
    } else {
        i
    }
}

/// The first of some codes in rows is that of a row, and there is none where no
/// row has one of them.
proof fn lemma_code_of_a_row(rows: Seq<OffsetRow>, p: spec_fn(i16) -> bool)
    ensures
        first_code(rows, p) is None <==> (forall|i: int|
            0 <= i < rows.len() ==> !row_has(#[trigger] rows[i], p)),
        first_code(rows, p) is Some ==> row_with(rows, first_code(rows, p)->Some_0),
{
    if forall|i: int| 0 <= i < rows.len() ==> !row_has(#[trigger] rows[i], p) {
        lemma_no_code(rows, p);
    } else {
        let i = choose|i: int| 0 <= i < rows.len() && row_has(#[trigger] rows[i], p);
        let first = lemma_first_row(rows, p, i);
        lemma_first_code(rows, p, first);
        assert(rows[first].1.error_code == first_code(rows, p)->Some_0);
    }
}

/// An error of the group decides over the rows: that of the answer, else that of
/// the first group with one. A missing or moved coordinator is looked for again,
/// a refused group fails, a retriable error is tried again, and any other fails.
pub proof fn law_group_errors_of_an_offset_fetch(
    response: OffsetFetchResponse,
    action: OffsetFetchAction,
    code: i16,
)
    requires
        classified(response, action),
        code != 0,
        response.error_code == code || (response.error_code == 0 && exists|g: int|
            0 <= g < response.groups@.len() && (#[trigger] response.groups@[g]).error_code == code
                && (forall|h: int|
                0 <= h < g ==> (#[trigger] response.groups@[h]).error_code == 0)),
    ensures
        code == 15 || code == 16 ==> action == OffsetFetchAction::FindCoordinator(code),
        code == 30 ==> action == OffsetFetchAction::GroupAuthorizationFailed,
        code != 15 && code != 16 && code != 30 && retriable_code(code) ==> action
            == OffsetFetchAction::Retry(code),
        code != 15 && code != 16 && code != 30 && !retriable_code(code) ==> action
            == OffsetFetchAction::Fatal(code),
{
    if response.error_code != 0 {
        lemma_error_of_the_answer(response.error_code, response.groups@);
    } else {
        let g = choose|g: int|
            0 <= g < response.groups@.len() && (#[trigger] response.groups@[g]).error_code == code
                && (forall|h: int|
                0 <= h < g ==> (#[trigger] response.groups@[h]).error_code == 0);
        assert forall|h: int| 0 <= h < g implies !group_fails(#[trigger] response.groups@[h]) by {
            assert(response.groups@[h].error_code == 0);
        }
        lemma_first_group_error(response.groups@, g);
    }
}

/// Whether a row of an offset fetch has a code.
pub open spec fn row_with(rows: Seq<OffsetRow>, code: i16) -> bool {
    exists|i: int| 0 <= i < rows.len() && (#[trigger] rows[i]).1.error_code == code
}

/// Whether a code is one that a row may have.
pub open spec fn row_expected(code: i16) -> bool {
    code == 0 || code == 3 || code == 100 || code == 29 || code == 88
}

/// Without an error of a group the rows decide: a row with a code that is not
/// expected fails; else refused topics fail, all of them; else a pending
/// transaction is tried again; else an unknown topic is; else the answer is
/// complete.
pub proof fn law_row_errors_of_an_offset_fetch(
    response: OffsetFetchResponse,
    action: OffsetFetchAction,
)
    requires
        classified(response, action),
        response.error_code == 0,
        forall|g: int|
            0 <= g < response.groups@.len() ==> (#[trigger] response.groups@[g]).error_code == 0,
    ensures
        ({
            let rows = response.all_rows();
            let expected = forall|i: int|
                0 <= i < rows.len() ==> row_expected((#[trigger] rows[i]).1.error_code);
            &&& !expected ==> action is Fatal && row_with(rows, action->Fatal_0)
            &&& forall|i: int|
                0 <= i < rows.len() && !row_expected((#[trigger] rows[i]).1.error_code) && (forall|
                    j: int,
                |
                    0 <= j < i ==> row_expected((#[trigger] rows[j]).1.error_code)) ==> action
                    == OffsetFetchAction::Fatal(rows[i].1.error_code)
            &&& expected && row_with(rows, 29) ==> {
                &&& action is TopicAuthorizationFailed
                &&& forall|t: Seq<char>|
                    #![trigger action->TopicAuthorizationFailed_0@.contains(t)]
                    action->TopicAuthorizationFailed_0@.contains(t) <==> exists|i: int|
                        0 <= i < rows.len() && (#[trigger] rows[i]).0 == t && rows[i].1.error_code
                            == 29
            }
            &&& expected && !row_with(rows, 29) && row_with(rows, 88) ==> action
                == OffsetFetchAction::Retry(88)
            &&& expected && !row_with(rows, 29) && !row_with(rows, 88) && (row_with(rows, 3)
                || row_with(rows, 100)) ==> action is RetryUnknownTopic
            &&& action is Complete <==> forall|i: int|
                0 <= i < rows.len() ==> (#[trigger] rows[i]).1.error_code == 0
        }),
{
    let rows = response.all_rows();
    assert forall|g: int| 0 <= g < response.groups@.len() implies !group_fails(
        #[trigger] response.groups@[g],
    ) by {
        assert(response.groups@[g].error_code == 0);
    }
    lemma_no_group_error(response.groups@);
    let odd = |c: i16| !expected_code(c);
    let unknown = |c: i16| c == 3 || c == 100;
    lemma_code_of_a_row(rows, odd);
    lemma_code_of_a_row(rows, unknown);
    assert forall|i: int|
        0 <= i < rows.len() && !row_expected((#[trigger] rows[i]).1.error_code) && (forall|j: int|
            0 <= j < i ==> row_expected((#[trigger] rows[j]).1.error_code)) implies action
        == OffsetFetchAction::Fatal(rows[i].1.error_code) by {
        assert(row_has(rows[i], odd));
        assert forall|j: int| 0 <= j < i implies !row_has(#[trigger] rows[j], odd) by {
            assert(row_expected(rows[j].1.error_code));
        }
        lemma_first_code(rows, odd, i);
    }
    assert forall|i: int| 0 <= i < rows.len() implies row_has(#[trigger] rows[i], odd)
        == !row_expected(rows[i].1.error_code) by {}
    assert forall|i: int| 0 <= i < rows.len() implies row_has(#[trigger] rows[i], unknown) == (
    rows[i].1.error_code == 3 || rows[i].1.error_code == 100) by {}
}

/// A complete answer is returned, and at the end of the time also one with
/// unknown topics. What can be tried again is tried after the wait while time is
/// left, with a new search for the coordinator where it is missing or moved.
pub proof fn law_steps_of_an_offset_fetch(
    action: OffsetFetchAction,
    response: OffsetFetchResponse,
    group_id: Seq<char>,
    late: bool,
    wait: Nanos,
    step: OffsetFetchStep,
)
    requires
        fetch_step_of(action, response, group_id, late, wait, step),
    ensures
        step is Again <==> !late && (action is RetryUnknownTopic || action is Retry
            || action is FindCoordinator),
        step matches OffsetFetchStep::Again { wait: w, refind } ==> w == wait && refind
            == (action is FindCoordinator),
        step matches OffsetFetchStep::Done(r) ==> {
            &&& r is Ok <==> action is Complete || action is RetryUnknownTopic
            &&& r matches Ok(answer) ==> answer == response
            &&& action is Retry ==> r == Err::<OffsetFetchResponse, ConsumerError>(
                ConsumerError::Server(action->Retry_0),
            )
            &&& action is FindCoordinator ==> r == Err::<OffsetFetchResponse, ConsumerError>(
                ConsumerError::Server(action->FindCoordinator_0),
            )
            &&& action is Fatal ==> r == Err::<OffsetFetchResponse, ConsumerError>(
                ConsumerError::OffsetFetchFailed(action->Fatal_0),
            )
            &&& action is GroupAuthorizationFailed ==> r->Err_0 is GroupAuthorizationFailed
                && r->Err_0->GroupAuthorizationFailed_0@ == group_id
        },
{
}

/// What an answered heartbeat says: a rebalance and an old generation ask for a
/// rejoin, an unknown member joins anew, a fenced instance ends, and any other
/// error passes. Only an error of the coordinator has it looked for again.
pub proof fn law_heartbeat_answers(
    code: i16,
    consumer: Consumer,
    outcome: (HeartbeatOutcome, HeartbeatFollowUp),
    after: Consumer,
)
    requires
        heartbeat_done(Ok(code), consumer, outcome, after),
    ensures
        code == 0 ==> outcome.0 == HeartbeatOutcome::Alive,
        code == 27 || code == 22 ==> outcome.0 == HeartbeatOutcome::NeedRejoin(code),
        code == 25 ==> outcome.0 == HeartbeatOutcome::RejoinFromScratch,
        code == 82 ==> outcome.0 == HeartbeatOutcome::Fenced,
        code != 0 && code != 27 && code != 22 && code != 25 && code != 82 ==> outcome.0
            == HeartbeatOutcome::Transient,
        code == 14 || code == 15 || code == 16 ==> outcome.1 == HeartbeatFollowUp::Refind,
        code != 14 && code != 15 && code != 16 ==> outcome.1 == HeartbeatFollowUp::Nothing,
        after == consumer,
{
}

/// A heartbeat that failed passes. A lost connection is dropped and the
/// coordinator is looked for again. No error of a connection goes to the poll.
pub proof fn law_failed_heartbeats(
    error: ClientError,
    consumer: Consumer,
    outcome: (HeartbeatOutcome, HeartbeatFollowUp),
    after: Consumer,
)
    requires
        heartbeat_done(Err(error), consumer, outcome, after),
    ensures
        outcome.0 == HeartbeatOutcome::Transient,
        tried_again(error) ==> outcome.1 == HeartbeatFollowUp::EvictAndRefind && after == consumer,
        !tried_again(error) ==> outcome.1 == HeartbeatFollowUp::Nothing && after.poll_error
            == consumer.poll_error,
        after == (Consumer { poll_error: after.poll_error, ..consumer }),
{
}

/// A member with an id leaves where it is told to, and by default where it has no
/// instance id.
pub proof fn law_leaving_members(
    member_id: Seq<char>,
    is_static: bool,
    operation: GroupMembershipOperation,
)
    ensures
        member_id.len() == 0 ==> !sends_leave(member_id, is_static, operation),
        operation == GroupMembershipOperation::RemainInGroup ==> !sends_leave(
            member_id,
            is_static,
            operation,
        ),
        member_id.len() > 0 && operation == GroupMembershipOperation::LeaveGroup ==> sends_leave(
            member_id,
            is_static,
            operation,
        ),
        member_id.len() > 0 && operation == GroupMembershipOperation::Default ==> sends_leave(
            member_id,
            is_static,
            operation,
        ) == !is_static,
{
}

/// A leave request names the member and the first 255 characters of its reason.
pub proof fn law_leave_requests(
    request: LeaveGroupRequest,
    group_id: Seq<char>,
    member_id: Seq<char>,
    reason: Seq<char>,
)
    requires
        leaves(request, group_id, member_id, Some(reason)),
    ensures
        request.group_id@ == group_id,
        request.member_id@ == member_id,
        request.members@.len() == 1,
        request.members@[0].member_id@ == member_id,
        request.members@[0].reason is Some,
        ({
            let text = request.members@[0].reason->Some_0@;
            &&& text.len() == if reason.len() < 255 {
                reason.len()
            } else {
                255
            }
            &&& forall|i: int| 0 <= i < text.len() ==> #[trigger] text[i] == reason[i]
        }),
{
}

/// The coordinator of an answer is its first listed one, else that of its own
/// fields.
pub proof fn law_found_coordinator(response: FindCoordinatorResponse)
    ensures
        response.coordinators@.len() > 0 ==> found_code(response)
            == response.coordinators@[0].error_code && found_node(response)
            == response.coordinators@[0].node_id,
        response.coordinators@.len() == 0 ==> found_code(response) == response.error_code
            && found_node(response) == response.node_id,
{
}

/// The error of a group request: a fenced instance is named, any other code is
/// reported as it is.
pub proof fn law_group_request_errors(
    error: ConsumerError,
    code: i16,
    group_instance_id: Option<String>,
)
    requires
        group_error(error, code, group_instance_id),
    ensures
        code != 82 ==> error == ConsumerError::Server(code),
        code == 82 ==> error is FencedInstanceId,
        code == 82 && group_instance_id is Some ==> error->FencedInstanceId_0@
            == group_instance_id->Some_0@,
        code == 82 && group_instance_id is None ==> error->FencedInstanceId_0@.len() == 0,
{
}

/// Which errors of a join wait for the next poll: refused groups and topics, an
/// offset fetch that cannot be tried again, and refused credentials.
pub proof fn law_errors_that_reach_the_poll(error: ConsumerError)
    ensures
        reaches_poll(error) <==> match error {
            ConsumerError::GroupAuthorizationFailed(_) => true,
            ConsumerError::TopicAuthorizationFailed(_) => true,
            ConsumerError::OffsetFetchFailed(_) => true,
            ConsumerError::Client(ClientError::Sasl(_, refused)) => refused,
            _ => false,
        },
{
}

/// A rejoin that is asked for has its reason and comes after the next poll, or
/// when it was due already. The member stays in its group meanwhile.
pub proof fn law_rejoin_requests(
    member: GroupMember,
    consumer: Consumer,
    polls: u64,
    reason: Seq<char>,
    member_after: GroupMember,
    after: Consumer,
)
    requires
        rejoin_asked(member, consumer, polls, reason, member_after, after),
    ensures
        member_after.rejoin_reason@ == reason,
        member.rejoin == RejoinRequest::NotNeeded ==> member_after.rejoin
            == RejoinRequest::AfterPoll(polls),
        member.rejoin != RejoinRequest::NotNeeded ==> member_after.rejoin == member.rejoin,
        member_after.member_id == member.member_id,
        member_after.generation_id == member.generation_id,
        after.rebalance_pending,
        after.assigned == consumer.assigned,
        after.next_offsets == consumer.next_offsets,
        after.poll_error == consumer.poll_error,
{
}

/// A heartbeat beside the preparation of a join ends it for a fenced member, with
/// its instance id in the error, and for an unknown one, which is forgotten. Any
/// other changes nothing.
pub proof fn law_heartbeats_before_a_join(
    heartbeat: Option<HeartbeatOutcome>,
    member: GroupMember,
    consumer: Consumer,
    result: Result<(), ConsumerError>,
    member_after: GroupMember,
    after: Consumer,
)
    requires
        prepare_heartbeat_done(heartbeat, member, consumer, result, member_after, after),
    ensures
        result is Err <==> heartbeat == Some(HeartbeatOutcome::Fenced),
        result is Err ==> result->Err_0 is FencedInstanceId,
        result is Err && member.group_instance_id is Some
            ==> result->Err_0->FencedInstanceId_0@ == member.group_instance_id->Some_0@,
        heartbeat == Some(HeartbeatOutcome::RejoinFromScratch) ==> {
            &&& member_after.member_id@.len() == 0
            &&& member_after.generation_id == -1
            &&& after.assigned@ == Set::<PartitionKey>::empty()
            &&& !after.commit_identity.rejoin_on_poll
            &&& after.rebalance_pending
            &&& after.poll_error == consumer.poll_error
        },
        heartbeat != Some(HeartbeatOutcome::RejoinFromScratch) ==> member_after == member && after
            == consumer,
        forall|outcome: HeartbeatOutcome| #[trigger]
            ends_prepare(outcome) <==> outcome is RejoinFromScratch || outcome is Fenced,
{
}

} // verus!
