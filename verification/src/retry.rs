//! Retries of requests to the group coordinator.
use vstd::prelude::*;

use crate::consumer::Nanos;
use crate::error::{ClientError, ConsumerError};
use crate::offset_wire::{
    classify_offset_fetch, first_group_error, group_action, rows_action, OffsetFetchAction,
    OffsetFetchResponse, COORDINATOR_LOAD_IN_PROGRESS, COORDINATOR_NOT_AVAILABLE,
    NOT_COORDINATOR,
};

verus! {

/// How long a request to the coordinator is tried, and the waits in between.
#[derive(Clone, Copy, Debug, PartialEq, Eq, Structural)]
pub struct CoordinatorRetryPolicy {
    pub timeout: Nanos,
    pub initial_backoff: Nanos,
    pub max_backoff: Nanos,
}

/// The codes of a coordinator that is loading, missing or moved.
pub open spec fn retriable_coordinator_code(code: i16) -> bool {
    code == COORDINATOR_LOAD_IN_PROGRESS || code == COORDINATOR_NOT_AVAILABLE || code
        == NOT_COORDINATOR
}

/// Whether the coordinator is loading, missing or moved.
pub fn is_retriable_coordinator_code(code: i16) -> (r: bool)
    ensures
        r == retriable_coordinator_code(code),
{
    matches!(
        code,
        COORDINATOR_LOAD_IN_PROGRESS | COORDINATOR_NOT_AVAILABLE | NOT_COORDINATOR
    )
}

/// Errors of a connection to the coordinator that a new connection can clear.
pub open spec fn retriable_transport_error(e: ClientError) -> bool {
    e is Connect || e is Tls || e is Sasl || e is Disconnected || e is Io
}

/// Whether a new connection to the coordinator can clear the error.
pub fn is_retriable_transport_error(e: &ClientError) -> (r: bool)
    ensures
        r == retriable_transport_error(*e),
{
    matches!(
        e,
        ClientError::Connect(_)
            | ClientError::Tls(_)
            | ClientError::Sasl(_, _)
            | ClientError::Disconnected
            | ClientError::Io(_)
    )
}

/// Whether `timeout` passed between `start` and `now`.
pub open spec fn elapsed(start: Nanos, now: Nanos, timeout: Nanos) -> bool {
    if now >= start {
        now - start >= timeout
    } else {
        timeout == 0
    }
}

/// Whether `timeout` passed since `start`. A clock that stands before `start`
/// shows no time passed.
pub fn retry_deadline_elapsed(start: Nanos, now: Nanos, timeout: Nanos) -> (r: bool)
    ensures
        r == elapsed(start, now, timeout),
{
    if now >= start {
        now - start >= timeout
    } else {
        timeout == 0
    }
}

/// The wait after a wait: twice as long, at most the longest one.
pub open spec fn backoff_after(backoff: int, max_backoff: int) -> int {
    if 2 * backoff < max_backoff {
        2 * backoff
    } else {
        max_backoff
    }
}

/// The wait after a wait of `backoff`.
pub fn next_backoff(backoff: Nanos, max_backoff: Nanos) -> (r: Nanos)
    ensures
        r == backoff_after(backoff as int, max_backoff as int),
{
    if backoff < max_backoff && backoff < max_backoff - backoff {
        backoff + backoff
    } else {
        max_backoff
    }
}

/// A wait is never longer than the longest one, and never shorter than the
/// wait before it, if that one was in bounds.
pub proof fn law_backoff_grows_to_its_cap(backoff: int, max_backoff: int)
    requires
        0 <= backoff <= max_backoff,
    ensures
        backoff <= backoff_after(backoff, max_backoff) <= max_backoff,
        0 < backoff < max_backoff ==> backoff < backoff_after(backoff, max_backoff),
{
}

/// The retries of one request to the coordinator.
#[derive(Clone, Copy, Debug, PartialEq, Eq, Structural)]
pub struct CoordinatorRetry {
    pub policy: CoordinatorRetryPolicy,
    pub start: Nanos,
    /// The wait before the next try.
    pub backoff: Nanos,
}

/// What follows a try.
#[derive(Debug, PartialEq, Eq)]
pub enum RetryStep<R> {
    /// Return the result.
    Done(Result<R, ConsumerError>),
    /// Wait, then try again.
    Again {
        wait: Nanos,
        /// The connection is gone: drop it before the next try.
        evict: bool,
    },
}

/// What follows a try with `result`, whose response has the error code `code`:
/// a coordinator that is loading, missing or moved, and a connection that is
/// gone, are tried again until the timeout. Then the last response comes back,
/// or the error that there is no coordinator.
pub open spec fn step_of<R>(
    retry: CoordinatorRetry,
    result: Result<R, ConsumerError>,
    code: i16,
    now: Nanos,
) -> RetryStep<R> {
    let late = elapsed(retry.start, now, retry.policy.timeout);
    match result {
        Ok(response) => if !retriable_coordinator_code(code) || late {
            RetryStep::Done(Ok(response))
        } else {
            RetryStep::Again { wait: retry.backoff, evict: false }
        },
        Err(ConsumerError::Client(e)) => if !retriable_transport_error(e) {
            RetryStep::Done(Err(ConsumerError::Client(e)))
        } else if late {
            RetryStep::Done(Err(ConsumerError::CoordinatorUnavailable))
        } else {
            RetryStep::Again { wait: retry.backoff, evict: true }
        },
        Err(e) => RetryStep::Done(Err(e)),
    }
}

impl CoordinatorRetry {
    /// The first try, at time `start`.
    pub fn new(policy: CoordinatorRetryPolicy, start: Nanos) -> (r: Self)
        ensures
            r == (CoordinatorRetry { policy, start, backoff: policy.initial_backoff }),
    {
        CoordinatorRetry { policy, start, backoff: policy.initial_backoff }
    }

    fn wait_longer(&mut self) -> (r: Nanos)
        ensures
            r == old(self).backoff,
            final(self).policy == old(self).policy,
            final(self).start == old(self).start,
            final(self).backoff == backoff_after(
                old(self).backoff as int,
                old(self).policy.max_backoff as int,
            ),
    {
        let wait = self.backoff;
        self.backoff = next_backoff(wait, self.policy.max_backoff);
        wait
    }

    /// What follows a try: whether the request goes out again, to the same
    /// coordinator.
    pub fn with_coordinator_retry<R>(
        &mut self,
        result: Result<R, ConsumerError>,
        code: i16,
        now: Nanos,
    ) -> (r: RetryStep<R>)
        ensures
            r == step_of(*old(self), result, code, now),
            r is Done ==> *final(self) == *old(self),
            r is Again ==> final(self).policy == old(self).policy && final(self).start == old(
                self,
            ).start && final(self).backoff == backoff_after(
                old(self).backoff as int,
                old(self).policy.max_backoff as int,
            ),
    {
        let late = retry_deadline_elapsed(self.start, now, self.policy.timeout);
        match result {
            Ok(response) => {
                if !is_retriable_coordinator_code(code) || late {
                    return RetryStep::Done(Ok(response));
                }
                RetryStep::Again { wait: self.wait_longer(), evict: false }
            },
            Err(ConsumerError::Client(e)) => {
                if !is_retriable_transport_error(&e) {
                    return RetryStep::Done(Err(ConsumerError::Client(e)));
                }
                if late {
                    return RetryStep::Done(Err(ConsumerError::CoordinatorUnavailable));
                }
                RetryStep::Again { wait: self.wait_longer(), evict: true }
            },
            Err(e) => RetryStep::Done(Err(e)),
        }
    }

    /// What follows a try: whether the request goes out again, to the
    /// coordinator that is found anew before. The connection to the old one is
    /// dropped first where it is gone.
    pub fn with_coordinator_refind<R>(
        &mut self,
        result: Result<R, ConsumerError>,
        code: i16,
        now: Nanos,
    ) -> (r: RetryStep<R>)
        ensures
            r == step_of(*old(self), result, code, now),
            r is Done ==> *final(self) == *old(self),
            r is Again ==> final(self).policy == old(self).policy && final(self).start == old(
                self,
            ).start && final(self).backoff == backoff_after(
                old(self).backoff as int,
                old(self).policy.max_backoff as int,
            ),
    {
        self.with_coordinator_retry(result, code, now)
    }
}

/// What follows the answer to an offset fetch.
#[derive(Debug, PartialEq, Eq)]
pub enum OffsetFetchStep {
    /// Return the result.
    Done(Result<OffsetFetchResponse, ConsumerError>),
    /// Wait, then send the request again.
    Again {
        wait: Nanos,
        /// Find the coordinator first.
        refind: bool,
    },
}

/// Whether a step is the one for an answer that was classified as `action`.
pub open spec fn fetch_step_of(
    action: OffsetFetchAction,
    response: OffsetFetchResponse,
    group_id: Seq<char>,
    late: bool,
    wait: Nanos,
    step: OffsetFetchStep,
) -> bool {
    match action {
        OffsetFetchAction::Complete => step == OffsetFetchStep::Done(Ok(response)),
        OffsetFetchAction::RetryUnknownTopic(_) => step == if late {
            OffsetFetchStep::Done(Ok(response))
        } else {
            OffsetFetchStep::Again { wait, refind: false }
        },
        OffsetFetchAction::Retry(code) => step == if late {
            OffsetFetchStep::Done(Err(ConsumerError::Server(code)))
        } else {
            OffsetFetchStep::Again { wait, refind: false }
        },
        OffsetFetchAction::FindCoordinator(code) => step == if late {
            OffsetFetchStep::Done(Err(ConsumerError::Server(code)))
        } else {
            OffsetFetchStep::Again { wait, refind: true }
        },
        OffsetFetchAction::GroupAuthorizationFailed => step matches OffsetFetchStep::Done(
            Err(ConsumerError::GroupAuthorizationFailed(group)),
        ) && group@ == group_id,
        OffsetFetchAction::TopicAuthorizationFailed(topics) => step == OffsetFetchStep::Done(
            Err(ConsumerError::TopicAuthorizationFailed(topics)),
        ),
        OffsetFetchAction::Fatal(code) => step == OffsetFetchStep::Done(
            Err(ConsumerError::OffsetFetchFailed(code)),
        ),
    }
}

/// Whether an action is what the classification of an answer gives.
pub open spec fn classified(response: OffsetFetchResponse, action: OffsetFetchAction) -> bool {
    match first_group_error(response.error_code, response.groups@) {
        Some(code) => action == group_action(code),
        None => rows_action(action, response.all_rows()),
    }
}

impl CoordinatorRetry {
    /// What follows the answer to an offset fetch.
    ///
    /// A partition of an unknown topic is asked for again until the timeout.
    /// After it the last answer comes back, and its partitions with an error
    /// start from the reset policy. A retriable code is asked for again until
    /// the timeout, and then is the error. Other codes fail at once.
    pub fn send_offset_fetch(
        &mut self,
        response: OffsetFetchResponse,
        group_id: &str,
        now: Nanos,
    ) -> (r: OffsetFetchStep)
        ensures
            exists|action: OffsetFetchAction| #[trigger]
                classified(response, action) && fetch_step_of(
                    action,
                    response,
                    group_id@,
                    elapsed(old(self).start, now, old(self).policy.timeout),
                    old(self).backoff,
                    r,
                ),
            r is Done ==> *final(self) == *old(self),
            r is Again ==> final(self).policy == old(self).policy && final(self).start == old(
                self,
            ).start && final(self).backoff == backoff_after(
                old(self).backoff as int,
                old(self).policy.max_backoff as int,
            ),
    {
        let late = retry_deadline_elapsed(self.start, now, self.policy.timeout);
        let action = classify_offset_fetch(&response);
        assert(classified(response, action));
        match action {
            OffsetFetchAction::Complete => OffsetFetchStep::Done(Ok(response)),
            OffsetFetchAction::RetryUnknownTopic(_) => {
                if late {
                    return OffsetFetchStep::Done(Ok(response));
                }
                OffsetFetchStep::Again { wait: self.wait_longer(), refind: false }
            },
            OffsetFetchAction::Retry(code) => {
                if late {
                    return OffsetFetchStep::Done(Err(ConsumerError::Server(code)));
                }
                OffsetFetchStep::Again { wait: self.wait_longer(), refind: false }
            },
            OffsetFetchAction::FindCoordinator(code) => {
                if late {
                    return OffsetFetchStep::Done(Err(ConsumerError::Server(code)));
                }
                OffsetFetchStep::Again { wait: self.wait_longer(), refind: true }
            },
            OffsetFetchAction::GroupAuthorizationFailed => OffsetFetchStep::Done(
                Err(ConsumerError::GroupAuthorizationFailed(group_id.to_owned())),
            ),
            OffsetFetchAction::TopicAuthorizationFailed(topics) => OffsetFetchStep::Done(
                Err(ConsumerError::TopicAuthorizationFailed(topics)),
            ),
            OffsetFetchAction::Fatal(code) => OffsetFetchStep::Done(
                Err(ConsumerError::OffsetFetchFailed(code)),
            ),
        }
    }
}

} // verus!
