//! The rebalance listener: callbacks for the partitions that a rebalance takes
//! from or gives to the consumer.
use vstd::prelude::*;

use crate::collections::{in_order, MapKey};
use crate::consumer::Consumer;
use crate::error::ConsumerError;
use crate::list_offsets::key_views;
use crate::rejoin::ListenerCallKind;
use crate::text::Relation;
use crate::wire::{copy_key, TopicPartition};

verus! {

/// The error text that a listener callback returns.
pub type RebalanceListenerError = String;

/// Callbacks for the partitions that a rebalance takes from or gives to the
/// consumer. They run inside `poll` and `close`, in this order:
///
/// - Eager protocol: `on_partitions_revoked` with all owned partitions before
///   the join, then `on_partitions_assigned` with the new assignment.
/// - Cooperative protocol: after the sync, `on_partitions_revoked` with the
///   partitions that left the assignment, only when there are some, then
///   `on_partitions_assigned` with the added partitions, also when there are
///   none.
/// - `on_partitions_lost` in place of `on_partitions_revoked` when the member
///   lost its generation.
///
/// Each list is sorted by topic and partition. A callback can use the consumer.
pub trait ConsumerRebalanceListener {
    /// The consumer gives partitions up.
    fn on_partitions_revoked(&mut self, consumer: &Consumer, partitions: &Vec<TopicPartition>) -> (r:
        Result<(), RebalanceListenerError>)
        requires
            in_order::<TopicPartition>(key_views(partitions@)),
    ;

    /// The consumer got partitions.
    fn on_partitions_assigned(&mut self, consumer: &Consumer, partitions: &Vec<TopicPartition>) -> (r:
        Result<(), RebalanceListenerError>)
        requires
            in_order::<TopicPartition>(key_views(partitions@)),
    ;

    /// The consumer lost partitions. By default this is the callback of
    /// partitions that it gives up.
    fn on_partitions_lost(&mut self, consumer: &Consumer, partitions: &Vec<TopicPartition>) -> (r:
        Result<(), RebalanceListenerError>)
        requires
            in_order::<TopicPartition>(key_views(partitions@)),
        default_ensures
            exists|listener: &mut Self| #[trigger]
                call_ensures(Self::on_partitions_revoked, (listener, consumer, partitions), r)
                    && &*listener == &*old(self) && &*final(listener) == &*final(self),
    {
        self.on_partitions_revoked(consumer, partitions)
    }
}

/// The result of a callback as `poll` returns it.
pub open spec fn listener_outcome(result: Result<(), String>) -> Result<(), ConsumerError> {
    match result {
        Ok(_) => Ok(()),
        Err(text) => Err(ConsumerError::RebalanceListenerFailed(text)),
    }
}

/// The result of a callback as `poll` returns it.
pub fn listener_result(result: Result<(), RebalanceListenerError>) -> (r: Result<(), ConsumerError>)
    ensures
        r == listener_outcome(result),
{
    match result {
        Ok(_) => Ok(()),
        Err(text) => Err(ConsumerError::RebalanceListenerFailed(text)),
    }
}

/// Puts a partition into a sorted list, behind those that do not come after it.
fn insert_sorted(sorted: &mut Vec<TopicPartition>, key: TopicPartition)
    requires
        in_order::<TopicPartition>(key_views(old(sorted)@)),
    ensures
        in_order::<TopicPartition>(key_views(final(sorted)@)),
        key_views(final(sorted)@).to_multiset() == key_views(old(sorted)@).to_multiset().insert(
            key@,
        ),
{
    let ghost had = key_views(sorted@);
    let mut p: usize = sorted.len();
    let mut placed = false;
    while p > 0 && !placed
        invariant
            p <= sorted@.len(),
            had == key_views(sorted@),
            in_order::<TopicPartition>(had),
            forall|i: int|
                p <= i < had.len() ==> <TopicPartition as MapKey>::before(
                    key@,
                    #[trigger] had[i],
                ),
            placed ==> p > 0 && (had[p - 1] == key@ || <TopicPartition as MapKey>::before(
                had[p - 1],
                key@,
            )),
        decreases
                p + if placed {
                    0int
                } else {
                    1int
                },
    {
        match sorted[p - 1].compare(&key) {
            Relation::After => {
                p = p - 1;
            },
            _ => {
                placed = true;
            },
        }
    }
    sorted.insert(p, key);
    proof {
        let now = key_views(sorted@);
        assert(now =~= had.insert(p as int, key@));
        vstd::seq_lib::to_multiset_insert(had, p as int, key@);
        assert forall|i: int| 0 <= i < p implies #[trigger] had[i] == key@ || <TopicPartition as
            MapKey>::before(had[i], key@) by {
            if i < p - 1 && had[i] != had[p - 1] && had[p - 1] != key@ {
                <TopicPartition as MapKey>::before_transitive(had[i], had[p - 1], key@);
            }
        }
        assert forall|i: int, j: int| 0 <= i < j < now.len() implies #[trigger] now[i]
            == #[trigger] now[j] || <TopicPartition as MapKey>::before(now[i], now[j]) by {
            if j < p {
                assert(had[i] == had[j] || <TopicPartition as MapKey>::before(had[i], had[j]));
            } else if j == p {
                assert(now[i] == had[i]);
            } else if i > p {
                assert(had[i - 1] == had[j - 1] || <TopicPartition as MapKey>::before(
                    had[i - 1],
                    had[j - 1],
                ));
            } else if i == p {
                assert(now[j] == had[j - 1]);
            } else {
                assert(had[i] == had[j - 1] || <TopicPartition as MapKey>::before(
                    had[i],
                    had[j - 1],
                ));
            }
        }
    }
}

/// The partitions of a listener call, sorted by topic and partition.
pub fn listener_partitions(partitions: &Vec<TopicPartition>) -> (r: Vec<TopicPartition>)
    ensures
        in_order::<TopicPartition>(key_views(r@)),
        key_views(r@).to_multiset() == key_views(partitions@).to_multiset(),
{
    let mut r: Vec<TopicPartition> = Vec::new();
    let ghost all = key_views(partitions@);
    let mut i: usize = 0;
    assert(key_views(r@) =~= all.take(0));
    while i < partitions.len()
        invariant
            i <= partitions@.len(),
            all == key_views(partitions@),
            in_order::<TopicPartition>(key_views(r@)),
            key_views(r@).to_multiset() == all.take(i as int).to_multiset(),
        decreases partitions.len() - i,
    {
        proof {
            assert(all.take(i + 1) =~= all.take(i as int).push(all[i as int]));
            vstd::seq_lib::to_multiset_build(all.take(i as int), all[i as int]);
        }
        insert_sorted(&mut r, copy_key(&partitions[i]));
        i = i + 1;
    }
    assert(all.take(i as int) =~= all);
    r
}

/// Whether the callback of `kind` on `partitions` can give `result`.
pub open spec fn callback_gives<L: ConsumerRebalanceListener>(
    kind: ListenerCallKind,
    listener: &mut L,
    consumer: &Consumer,
    partitions: &Vec<TopicPartition>,
    result: Result<(), RebalanceListenerError>,
) -> bool {
    match kind {
        ListenerCallKind::Revoked => call_ensures(
            L::on_partitions_revoked,
            (listener, consumer, partitions),
            result,
        ),
        ListenerCallKind::Assigned => call_ensures(
            L::on_partitions_assigned,
            (listener, consumer, partitions),
            result,
        ),
        ListenerCallKind::Lost => call_ensures(
            L::on_partitions_lost,
            (listener, consumer, partitions),
            result,
        ),
    }
}

impl Consumer {
    /// Run one listener callback on `partitions`, in their order. The callback
    /// decides whether the call succeeds and what becomes of the listener, which
    /// stays set also after an error. Without a listener nothing is called.
    pub fn run_listener<L: ConsumerRebalanceListener>(
        &self,
        listener: &mut Option<L>,
        kind: ListenerCallKind,
        partitions: &Vec<TopicPartition>,
    ) -> (r: Result<(), ConsumerError>)
        ensures
            *old(listener) is None ==> r is Ok && *final(listener) is None,
            *old(listener) is Some ==> *final(listener) is Some && exists|
                called: &mut L,
                sorted: Vec<TopicPartition>,
                result: Result<(), RebalanceListenerError>,
            | #[trigger]
                callback_gives(kind, called, self, &sorted, result) && {
                    &&& *called == old(listener)->Some_0
                    &&& *final(called) == final(listener)->Some_0
                    &&& in_order::<TopicPartition>(key_views(sorted@))
                    &&& key_views(sorted@).to_multiset() == key_views(partitions@).to_multiset()
                    &&& r == listener_outcome(result)
                },
    {
        let mut set = match listener.take() {
            Some(set) => set,
            None => {
                return Ok(());
            },
        };
        let ghost had = set;
        let sorted = listener_partitions(partitions);
        let result = match kind {
            ListenerCallKind::Revoked => {
                let result = set.on_partitions_revoked(self, &sorted);
                proof {
                    let called = choose|called: &mut L| #[trigger]
                        call_ensures(L::on_partitions_revoked, (called, self, &sorted), result)
                            && *called == had && *final(called) == set;
                    assert(callback_gives(kind, called, self, &sorted, result));
                }
                result
            },
            ListenerCallKind::Assigned => {
                let result = set.on_partitions_assigned(self, &sorted);
                proof {
                    let called = choose|called: &mut L| #[trigger]
                        call_ensures(L::on_partitions_assigned, (called, self, &sorted), result)
                            && *called == had && *final(called) == set;
                    assert(callback_gives(kind, called, self, &sorted, result));
                }
                result
            },
            ListenerCallKind::Lost => {
                let result = set.on_partitions_lost(self, &sorted);
                proof {
                    let called = choose|called: &mut L| #[trigger]
                        call_ensures(L::on_partitions_lost, (called, self, &sorted), result)
                            && *called == had && *final(called) == set;
                    assert(callback_gives(kind, called, self, &sorted, result));
                }
                result
            },
        };
        *listener = Some(set);
        listener_result(result)
    }
}

/// The first error of results, after all of them.
pub open spec fn first_error(results: Seq<Result<(), ConsumerError>>) -> Result<(), ConsumerError>
    decreases results.len(),
{
    if results.len() == 0 {
        Ok(())
    } else if first_error(results.drop_last()) is Err {
        first_error(results.drop_last())
    } else {
        results.last()
    }
}

/// The result of the listener calls that waited: every one of them ran, and the
/// first error comes back.
pub fn run_pending_listener_calls(results: Vec<Result<(), ConsumerError>>) -> (r: Result<
    (),
    ConsumerError,
>)
    ensures
        r == first_error(results@),
{
    let ghost all = results@;
    let mut first: Result<(), ConsumerError> = Ok(());
    for result in iter: results
        invariant
            iter.seq() == all,
            first == first_error(all.take(iter.index() as int)),
    {
        proof {
            let i = iter.index() as int;
            assert(all.take(i + 1).drop_last() =~= all.take(i));
            assert(all.take(i + 1).last() == result);
        }
        if first.is_ok() {
            first = result;
        }
    }
    assert(all.take(all.len() as int) =~= all);
    first
}

} // verus!
