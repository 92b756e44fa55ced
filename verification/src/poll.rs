//! The decisions of `poll`.
//!
//! `poll` checks the subscription and a pending wakeup, updates the positions,
//! waits for a join where it has to, and returns buffered records. Without
//! buffered records it starts fetches, waits for the first answer, and returns
//! what the answers give. The caller performs the waits and the requests.
use vstd::prelude::*;

use crate::config::RebalanceProtocol;
use crate::consumer::{Consumer, Nanos};
use crate::error::ConsumerError;
use crate::fetch::{asks_for, FetchRequest, FetchSpec};
use crate::fetch_buffer::{
    distinct_usable, drained, gave, law_each_partition_gives_its_first_records,
    lemma_drain_keeps_paused, lemma_drain_skips_paused, of_unpaused, record_key, usable,
    BufferedModel,
};
use crate::fetch_flow::lemma_asked_is_fetchable;
use crate::grouping::ByBroker;
use crate::partition_state::{pauses_in_effect, valid_position_of};
use crate::records::ConsumerRecord;
use crate::text::views;
use crate::wire::PartitionKey;

verus! {

impl Consumer {
    /// The error of a `poll` before it does anything: no subscription, then a
    /// pending wakeup, then an error that the group work left.
    pub open spec fn poll_refused(self, e: ConsumerError) -> bool {
        if self.not_subscribed() {
            e is NotSubscribed
        } else if self.wakeup_pending {
            e is Wakeup
        } else {
            self.poll_error == Some(e)
        }
    }

    /// Whether a `poll` has neither a subscription nor assigned partitions to
    /// read from.
    pub open spec fn not_subscribed(self) -> bool {
        self.subscription.none() && !self.subscription.manual_assignment
    }

    /// The consumer after the start of a `poll`. A pending wakeup and an error
    /// of the group work come back once.
    pub open spec fn poll_started(self) -> Consumer {
        if self.not_subscribed() {
            self
        } else if self.wakeup_pending {
            Consumer { wakeup_pending: false, ..self }
        } else {
            Consumer { poll_error: None, ..self }
        }
    }

    /// Whether the start of a `poll` returns no error.
    pub open spec fn poll_accepted(self) -> bool {
        !self.not_subscribed() && !self.wakeup_pending && self.poll_error is None
    }

    /// Start a `poll`. A pending wakeup and an error of the group work come
    /// back once.
    pub fn poll(&mut self) -> (r: Result<(), ConsumerError>)
        ensures
            r is Ok <==> old(self).poll_accepted(),
            r matches Err(e) ==> old(self).poll_refused(e),
            *final(self) == old(self).poll_started(),
    {
        if self.subscription.is_none() && !self.subscription.manual_assignment {
            return Err(ConsumerError::NotSubscribed);
        }
        if self.wakeup_pending {
            self.wakeup_pending = false;
            return Err(ConsumerError::Wakeup);
        }
        match self.take_poll_error() {
            Some(e) => Err(e),
            None => Ok(()),
        }
    }

    /// Prepare a `poll` after its interval commit: the metadata requests name
    /// the subscribed topics. The update of the fetch positions follows.
    pub fn prepare_poll(&mut self)
        ensures
            views(final(self).metadata_topics@) == if old(self).subscription.none() {
                views(old(self).metadata_topics@)
            } else {
                views(old(self).subscription.topics@)
            },
            *final(self) == (Consumer {
                metadata_topics: final(self).metadata_topics,
                ..*old(self)
            }),
    {
        self.sync_metadata_topics();
    }
}

/// A wakeup and an error of the group work each end one `poll`: with a wakeup
/// pending the error waits for the `poll` after it, and after both a `poll`
/// goes on.
pub proof fn law_poll_errors_come_back_once(consumer: Consumer)
    requires
        !consumer.not_subscribed(),
    ensures
        consumer.wakeup_pending ==> consumer.poll_started().poll_error == consumer.poll_error,
        !consumer.wakeup_pending ==> consumer.poll_started().poll_accepted(),
        consumer.poll_started().poll_started().poll_accepted(),
{
}

/// What a `poll` does while a join is asked for.
#[derive(Debug, PartialEq, Eq)]
pub enum RebalanceWait {
    /// Go on with the fetches.
    GoOn,
    /// Return the error of a listener call.
    Fail(ConsumerError),
    /// Wait for the join, with the first error of the listener calls so far.
    Wait(Option<ConsumerError>),
}

/// How the wait for a join ended.
#[derive(Clone, Copy, Debug, PartialEq, Eq, Structural)]
pub enum WaitEnd {
    /// The join is complete.
    Joined,
    /// The timeout of the `poll` passed.
    Deadline,
    /// A wakeup came.
    Woken,
}

/// The first of two errors.
pub open spec fn first_of(first: Option<ConsumerError>, next: Option<ConsumerError>) -> Option<
    ConsumerError,
> {
    if first is Some {
        first
    } else {
        next
    }
}

/// Keeps the first error of the listener calls.
pub fn keep_first_error(first: &mut Option<ConsumerError>, next: Option<ConsumerError>)
    ensures
        *final(first) == first_of(*old(first), next),
{
    if first.is_none() {
        *first = next;
    }
}

impl Consumer {
    /// Decide whether a `poll` waits for the join. A listener error comes back
    /// when no join is pending. An eager member has nothing to fetch before its
    /// join, and neither has a member without partitions; a cooperative member
    /// fetches the partitions it keeps.
    pub open spec fn rebalance_wait(self, listener_error: Option<ConsumerError>) -> RebalanceWait {
        if !self.rebalance_pending {
            match listener_error {
                Some(e) => RebalanceWait::Fail(e),
                None => RebalanceWait::GoOn,
            }
        } else if listener_error is None && self.settings.rebalance_protocol
            == RebalanceProtocol::Cooperative && self.assigned@ != Set::<PartitionKey>::empty() {
            RebalanceWait::GoOn
        } else {
            RebalanceWait::Wait(listener_error)
        }
    }

    /// Decide whether a `poll` waits for the join that is asked for, after the
    /// listener calls that waited ran with the first error `listener_error`.
    pub fn wait_for_rebalance(&self, listener_error: Option<ConsumerError>) -> (r: RebalanceWait)
        ensures
            r == self.rebalance_wait(listener_error),
    {
        if !self.rebalance_pending {
            return match listener_error {
                Some(e) => RebalanceWait::Fail(e),
                None => RebalanceWait::GoOn,
            };
        }
        let eager = match self.settings.rebalance_protocol {
            RebalanceProtocol::Eager => true,
            RebalanceProtocol::Cooperative => false,
        };
        if listener_error.is_none() && !eager && !self.assigned.is_empty() {
            return RebalanceWait::GoOn;
        }
        RebalanceWait::Wait(listener_error)
    }

    /// The end of the wait for a join: the first error of the listener calls,
    /// then a wakeup, else whether the join is complete. The listener calls that
    /// waited at the end ran with the first error `last_error`.
    pub fn rebalance_waited(
        first_error: Option<ConsumerError>,
        end: WaitEnd,
        last_error: Option<ConsumerError>,
    ) -> (r: Result<bool, ConsumerError>)
        ensures
            r == ({
                let woken = if end == WaitEnd::Woken {
                    Some(ConsumerError::Wakeup)
                } else {
                    None
                };
                match first_of(first_of(first_error, woken), last_error) {
                    Some(e) => Err::<bool, ConsumerError>(e),
                    None => Ok(end == WaitEnd::Joined),
                }
            }),
    {
        let mut first = first_error;
        if end == WaitEnd::Woken {
            keep_first_error(&mut first, Some(ConsumerError::Wakeup));
        }
        keep_first_error(&mut first, last_error);
        match first {
            Some(e) => Err(e),
            None => Ok(end == WaitEnd::Joined),
        }
    }
}

/// While a join is asked for, a `poll` of an eager member fetches nothing, and
/// neither does one without partitions. A cooperative member goes on with the
/// partitions it has.
pub proof fn law_poll_waits_for_a_join_that_takes_its_partitions(
    consumer: Consumer,
    listener_error: Option<ConsumerError>,
)
    requires
        consumer.rebalance_pending,
    ensures
        consumer.settings.rebalance_protocol == RebalanceProtocol::Eager
            ==> consumer.rebalance_wait(listener_error) == RebalanceWait::Wait(listener_error),
        consumer.assigned@ == Set::<PartitionKey>::empty() ==> consumer.rebalance_wait(
            listener_error,
        ) == RebalanceWait::Wait(listener_error),
        consumer.settings.rebalance_protocol == RebalanceProtocol::Cooperative
            && consumer.assigned@ != Set::<PartitionKey>::empty() ==> consumer.rebalance_wait(None)
            == RebalanceWait::GoOn,
{
}

/// What a `poll` does next.
pub enum PollStep {
    /// Return the records.
    Records(Vec<ConsumerRecord>),
    /// There is nothing to fetch: wait for the timeout.
    WaitForDeadline,
    /// Send the requests, after a metadata refresh where the flag says so.
    Fetch { requests: Vec<(i32, FetchRequest)>, refresh: bool },
}

impl Consumer {
    /// Whether a step and the state after it are those of a `poll` at `now`.
    /// Records of an earlier fetch come first, without a new fetch.
    pub open spec fn polled(self, now: Nanos, step: PollStep, after: Consumer) -> bool {
        exists|out: Seq<ConsumerRecord>, middle: Consumer| #[trigger]
            self.drained_to(out, middle) && if out.len() > 0 {
                step matches PollStep::Records(records) && records@ == out && after == middle
            } else if self.assigned@ == Set::<PartitionKey>::empty() {
                step is WaitForDeadline && after == middle
            } else {
                step matches PollStep::Fetch { requests, refresh } && middle.fetching(
                    now,
                    requests@,
                    refresh,
                    after,
                )
            }
    }

    /// Whether the requests are those for the partitions that can be fetched.
    pub open spec fn fetching(
        self,
        now: Nanos,
        requests: Seq<(i32, FetchRequest)>,
        refresh: bool,
        after: Consumer,
    ) -> bool {
        exists|grouped: ByBroker<FetchSpec>, ready: Consumer| #[trigger]
            self.fetches_grouped(now, grouped, refresh, ready) && grouped.keys_listed()
                && ready.fetches_sent(grouped, requests, after)
    }

    /// Return the buffered records, or start the next fetches.
    pub fn poll_records(&mut self, now: Nanos) -> (r: PollStep)
        requires
            old(self).wf(),
        ensures
            final(self).wf(),
            old(self).polled(now, r, *final(self)),
    {
        let records = self.drain_fetch_buffer();
        let ghost middle = *self;
        assert(old(self).drained_to(records@, middle));
        if !records.is_empty() {
            return PollStep::Records(records);
        }
        if self.assigned.is_empty() {
            return PollStep::WaitForDeadline;
        }
        let (grouped, refresh) = self.group_fetches(now);
        let ghost ready = *self;
        assert(middle.fetches_grouped(now, grouped, refresh, ready));
        let requests = self.send_fetches(&grouped);
        assert(ready.fetches_sent(grouped, requests@, *self));
        assert(middle.fetching(now, requests@, refresh, *self));
        PollStep::Fetch { requests, refresh }
    }

    /// Whether every owned partition has a valid position.
    pub open spec fn all_positions_valid(self) -> bool {
        forall|k: PartitionKey| #[trigger]
            self.assigned@.contains(k) ==> valid_position_of(
                self.next_offsets@,
                self.positions@,
                k,
            ) is Some
    }

    fn has_all_positions(&self) -> (r: bool)
        ensures
            r == self.all_positions_valid(),
    {
        let n = self.assigned.len();
        let ghost items = self.assigned.items();
        let mut i: usize = 0;
        while i < n
            invariant
                n == items.len(),
                items == self.assigned.items(),
                self.assigned.items_listed(),
                i <= n,
                forall|j: int|
                    0 <= j < i ==> valid_position_of(
                        self.next_offsets@,
                        self.positions@,
                        #[trigger] items[j],
                    ) is Some,
            decreases n - i,
        {
            let key = self.assigned.at(i);
            if self.valid_position(key).is_none() {
                assert(self.assigned@.contains(items[i as int]));
                return false;
            }
            i = i + 1;
        }
        proof {
            assert forall|k: PartitionKey| #[trigger]
                self.assigned@.contains(k) implies valid_position_of(
                self.next_offsets@,
                self.positions@,
                k,
            ) is Some by {
                assert(items.contains(k));
                let j = choose|j: int| 0 <= j < items.len() && items[j] == k;
                assert(valid_position_of(self.next_offsets@, self.positions@, items[j]) is Some);
            }
        }
        true
    }

    /// How long a `poll` waits that sends no fetch and has none in flight: to
    /// its deadline, or only for the retry backoff while a partition has no
    /// valid position or a listener call waits.
    pub fn wait_without_fetches(&self, listener_call_waits: bool, now: Nanos, deadline: Nanos) -> (r:
        Nanos)
        requires
            now + self.settings.initial_backoff <= u64::MAX,
        ensures
            r == if self.all_positions_valid() && !listener_call_waits {
                deadline
            } else if deadline < now + self.settings.initial_backoff {
                deadline
            } else {
                (now + self.settings.initial_backoff) as u64
            },
    {
        if self.has_all_positions() && !listener_call_waits {
            return deadline;
        }
        let retry: Nanos = now + self.settings.initial_backoff;
        if deadline < retry {
            deadline
        } else {
            retry
        }
    }

    /// Whether a `poll` waits for a fetch: one is in flight, and none has
    /// ended.
    pub fn wait_for_fetches(&self) -> (r: bool)
        ensures
            r == (self.fetches.in_flight@.len() > 0 && self.fetches.ready@.len() == 0),
    {
        !self.fetches.in_flight.is_empty() && self.fetches.ready.is_empty()
    }

    /// Whether a `poll` has no fetch to wait for.
    pub fn has_no_fetches(&self) -> (r: bool)
        ensures
            r == (self.fetches.in_flight@.len() == 0 && self.fetches.ready@.len() == 0),
    {
        self.fetches.in_flight.is_empty() && self.fetches.ready.is_empty()
    }
}

/// A partition that waits for a reset or for validation, or that is paused, is
/// not fetched.
pub proof fn law_fetched_partitions_are_valid_and_not_paused(consumer: Consumer, key: PartitionKey)
    requires
        consumer.fetchable(key),
        consumer.next_offsets@.contains_key(key),
    ensures
        valid_position_of(consumer.next_offsets@, consumer.positions@, key) is Some,
        !crate::partition_state::pauses_in_effect(
            consumer.paused_partitions@,
            consumer.ownership_ids@,
        ).contains_key(key),
        !consumer.assigned_callback_pending@.contains(key),
{
}

/// Whether a step of a `poll` has nothing to do with a partition: it returns no
/// record of it, and no fetch that it starts asks for it.
pub open spec fn leaves_alone(step: PollStep, key: PartitionKey) -> bool {
    match step {
        PollStep::Records(records) => forall|i: int|
            0 <= i < records@.len() ==> record_key(#[trigger] records@[i]) != key,
        PollStep::WaitForDeadline => true,
        PollStep::Fetch { requests, refresh: _ } => forall|i: int|
            0 <= i < requests@.len() ==> !asks_for((#[trigger] requests@[i]).1, key),
    }
}

impl Consumer {
    /// Whether the pause of a partition is in effect.
    pub open spec fn is_paused(self, key: PartitionKey) -> bool {
        pauses_in_effect(self.paused_partitions@, self.ownership_ids@).contains_key(key)
    }

    /// Whether `part` waits in the buffer and can still be used.
    pub open spec fn holds(self, part: BufferedModel) -> bool {
        self.fetch_buffer@.contains(part) && usable(part, self.assigned@, self.next_offsets@)
    }

    /// Whether the consumer became `after` with the pause, the position and the
    /// buffered data of a partition as they were.
    pub open spec fn untouched(self, after: Consumer, key: PartitionKey) -> bool {
        &&& self.is_paused(key) ==> after.is_paused(key)
        &&& forall|part: BufferedModel| #[trigger]
            self.holds(part) && part.key == key ==> after.holds(part)
    }
}

/// A drain of the buffer, with which a `poll` starts and ends, returns no record
/// of a paused partition. It keeps the pause and what was buffered of the
/// partition before, and leaves nothing of it to fetch.
pub proof fn law_drain_leaves_paused_partitions_alone(
    consumer: Consumer,
    out: Seq<ConsumerRecord>,
    middle: Consumer,
    key: PartitionKey,
)
    requires
        consumer.wf(),
        consumer.is_paused(key),
        consumer.drained_to(out, middle),
    ensures
        forall|i: int| 0 <= i < out.len() ==> record_key(#[trigger] out[i]) != key,
        consumer.untouched(middle, key),
        !middle.fetchable(key),
{
    let parts = consumer.fetch_buffer@;
    let paused = pauses_in_effect(consumer.paused_partitions@, consumer.ownership_ids@);
    let max = consumer.settings.max_poll_records as nat;
    let none = Seq::<ConsumerRecord>::empty();
    lemma_drain_skips_paused(
        parts,
        max,
        consumer.assigned@,
        paused.dom(),
        none,
        consumer.next_offsets@,
        consumer.positions@,
    );
    assert forall|i: int| 0 <= i < out.len() implies record_key(#[trigger] out[i]) != key by {
        assert(of_unpaused(out[i], parts, paused.dom()));
        let (j, r) = choose|j: int, r: int|
            0 <= j < parts.len() && !paused.dom().contains(parts[j].key) && 0 <= r
                < parts[j].records.len() && #[trigger] parts[j].records[r] == out[i];
        assert(parts[j].belongs());
        assert(record_key(parts[j].records[r]) == parts[j].key);
    }
    assert(pauses_in_effect(middle.paused_partitions@, middle.ownership_ids@).contains_key(key));
    assert forall|part: BufferedModel| #[trigger]
        consumer.holds(part) && part.key == key implies middle.holds(part) by {
        let i = choose|i: int| 0 <= i < parts.len() && parts[i] == part;
        lemma_drain_keeps_paused(
            parts,
            max,
            consumer.assigned@,
            paused.dom(),
            none,
            consumer.next_offsets@,
            consumer.positions@,
            i,
        );
    }
}

/// A `poll` returns no record of a paused partition and does not ask for it. It
/// keeps the pause, and what was buffered of the partition before.
pub proof fn law_poll_leaves_paused_partitions_alone(
    consumer: Consumer,
    now: Nanos,
    step: PollStep,
    after: Consumer,
    key: PartitionKey,
)
    requires
        consumer.wf(),
        consumer.polled(now, step, after),
        consumer.is_paused(key),
    ensures
        leaves_alone(step, key),
        consumer.untouched(after, key),
{
    let (out, middle) = choose|out: Seq<ConsumerRecord>, middle: Consumer| #[trigger]
        consumer.drained_to(out, middle) && if out.len() > 0 {
            step matches PollStep::Records(records) && records@ == out && after == middle
        } else if consumer.assigned@ == Set::<PartitionKey>::empty() {
            step is WaitForDeadline && after == middle
        } else {
            step matches PollStep::Fetch { requests, refresh } && middle.fetching(
                now,
                requests@,
                refresh,
                after,
            )
        };
    law_drain_leaves_paused_partitions_alone(consumer, out, middle, key);
    if let PollStep::Fetch { requests, refresh } = step {
        let (grouped, ready) = choose|grouped: ByBroker<FetchSpec>, ready: Consumer| #[trigger]
            middle.fetches_grouped(now, grouped, refresh, ready) && grouped.keys_listed()
                && ready.fetches_sent(grouped, requests@, after);
        assert forall|i: int| 0 <= i < requests@.len() implies !asks_for(
            (#[trigger] requests@[i]).1,
            key,
        ) by {
            if asks_for(requests@[i].1, key) {
                lemma_asked_is_fetchable(
                    middle,
                    now,
                    grouped,
                    refresh,
                    ready,
                    requests@,
                    after,
                    i,
                    key,
                );
            }
        }
        assert(pauses_in_effect(ready.paused_partitions@, ready.ownership_ids@).contains_key(key));
        assert(after.is_paused(key));
        assert forall|part: BufferedModel| #[trigger]
            consumer.holds(part) && part.key == key implies after.holds(part) by {
            assert(middle.holds(part));
        }
    }
}

/// A partition stays paused over any number of `poll`s that nothing in between
/// touches: none of them returns a record of it or asks for it, and what was
/// buffered of it before the pause is there after each, for the `poll` after its
/// resume.
pub proof fn law_paused_data_waits_for_the_resume(
    befores: Seq<Consumer>,
    nows: Seq<Nanos>,
    steps: Seq<PollStep>,
    afters: Seq<Consumer>,
    key: PartitionKey,
    n: int,
)
    requires
        0 < n <= befores.len(),
        nows.len() == befores.len(),
        steps.len() == befores.len(),
        afters.len() == befores.len(),
        forall|j: int|
            0 <= j < befores.len() ==> (#[trigger] befores[j]).wf() && befores[j].polled(
                nows[j],
                steps[j],
                afters[j],
            ),
        forall|j: int|
            0 <= j < befores.len() - 1 ==> (#[trigger] afters[j]).untouched(befores[j + 1], key),
        befores[0].is_paused(key),
    ensures
        leaves_alone(steps[n - 1], key),
        befores[0].untouched(afters[n - 1], key),
        afters[n - 1].is_paused(key),
    decreases n,
{
    if n > 1 {
        law_paused_data_waits_for_the_resume(befores, nows, steps, afters, key, n - 1);
        assert(afters[n - 2].untouched(befores[n - 1], key));
    }
    let consumer = befores[n - 1];
    assert(consumer.wf());
    law_poll_leaves_paused_partitions_alone(
        consumer,
        nows[n - 1],
        steps[n - 1],
        afters[n - 1],
        key,
    );
    assert forall|part: BufferedModel| #[trigger]
        befores[0].holds(part) && part.key == key implies afters[n - 1].holds(part) by {
        if n > 1 {
            assert(afters[n - 2].holds(part));
        }
        assert(consumer.holds(part));
    }
}

/// What was kept of a paused partition comes out after its resume: a `poll`
/// takes its first records in order, and keeps the others for the next one.
pub proof fn law_resumed_partition_gives_its_buffered_records(
    consumer: Consumer,
    out: Seq<ConsumerRecord>,
    after: Consumer,
    part: BufferedModel,
)
    requires
        consumer.drained_to(out, after),
        !consumer.is_paused(part.key),
        consumer.holds(part),
        distinct_usable(consumer.fetch_buffer@, consumer.assigned@, consumer.next_offsets@),
    ensures
        exists|n: int, at: int|
            0 <= n <= part.records.len() && 0 <= at <= at + n <= out.len() && #[trigger]
                out.subrange(at, at + n) == part.records.take(n) && (n < part.records.len()
                ==> after.holds(part.after(n)) && out.len()
                >= consumer.settings.max_poll_records),
{
    let parts = consumer.fetch_buffer@;
    let paused = pauses_in_effect(consumer.paused_partitions@, consumer.ownership_ids@).dom();
    let max = consumer.settings.max_poll_records as nat;
    let i = choose|i: int| 0 <= i < parts.len() && parts[i] == part;
    law_each_partition_gives_its_first_records(
        parts,
        max,
        consumer.assigned@,
        paused,
        consumer.next_offsets@,
        consumer.positions@,
        i,
    );
    let d = drained(
        parts,
        max,
        consumer.assigned@,
        paused,
        seq![],
        consumer.next_offsets@,
        consumer.positions@,
    );
    let (n, at) = choose|n: int, at: int| #[trigger] gave(part, max, paused, d, n, at);
    assert(out.subrange(at, at + n) == part.records.take(n));
}

} // verus!
