//! What `poll` does with the fetch answers, and the records it returns.
use vstd::prelude::*;

use crate::collections::SortedMap;
use crate::config::AutoOffsetReset;
use crate::consumer::{Consumer, ConsumerSettings, Fetches, Nanos};
use crate::error::ConsumerError;
use crate::fetch::{answer_rows, build_fetch_request, FetchRequest, FetchResponse};
use crate::fetch_answer::{
    after_rows, fetched_belongs, fetched_model, fetched_models, lemma_answer_rows_indexed,
    lemma_rows_belong, process_rows, replica_views, reports,
    reset_views, responses_in_range, FetchedModel, PolledReset, ReplicaUpdate, RowContext,
    RowFailure, RowsModel, RowsProgress, RowsTarget,
};
use crate::fetch_buffer::{
    all_belong, drained, lemma_drain_belongs, record_key, BufferedModel,
};
use crate::fetch_flow::{carries, rack_of, ReplicaMap};
use crate::fetch_session::{FetchSession, SessionRequest, FINAL_EPOCH, INVALID_SESSION_ID};
use crate::list_offsets::{
    fetched_views, log_start_positions, offset_or_unknown, out_of_range_positions,
    out_of_range_truncation, FetchedFrom, ListOffsetsResult,
};
use crate::partition_state::pauses_in_effect;
use crate::records::ConsumerRecord;
use crate::wire::{copy_key, PartitionKey, TopicPartition, Uuid};

verus! {

/// The preferred replicas after a change: a new replica starts a new
/// preference, the same replica keeps the one it has, no replica ends it.
pub open spec fn after_replica_update(
    replicas: ReplicaMap,
    key: PartitionKey,
    replica: Option<i32>,
    expires: Nanos,
) -> ReplicaMap {
    match replica {
        Some(replica) => if replicas.contains_key(key) && replicas[key].0 == replica {
            replicas
        } else {
            replicas.insert(key, (replica, expires))
        },
        None => replicas.remove(key),
    }
}

/// The preferred replicas after changes, in order.
pub open spec fn after_replica_updates(
    replicas: ReplicaMap,
    updates: Seq<(PartitionKey, Option<i32>)>,
    expires: Nanos,
) -> ReplicaMap
    decreases updates.len(),
{
    if updates.len() == 0 {
        replicas
    } else {
        after_replica_update(
            after_replica_updates(replicas, updates.drop_last(), expires),
            updates.last().0,
            updates.last().1,
            expires,
        )
    }
}

fn update_replicas(
    replicas: &mut SortedMap<TopicPartition, (i32, Nanos)>,
    updates: &Vec<ReplicaUpdate>,
    expires: Nanos,
)
    ensures
        final(replicas)@ == after_replica_updates(
            old(replicas)@,
            replica_views(updates@),
            expires,
        ),
{
    let ghost before = replicas@;
    let ghost all = replica_views(updates@);
    let mut i: usize = 0;
    while i < updates.len()
        invariant
            i <= updates@.len(),
            all == replica_views(updates@),
            replicas@ == after_replica_updates(before, all.take(i as int), expires),
        decreases updates.len() - i,
    {
        let key = &updates[i].0;
        proof {
            assert(all.take(i + 1).drop_last() =~= all.take(i as int));
            assert(all.take(i + 1).last() == (updates@[i as int].0@, updates@[i as int].1));
        }
        match updates[i].1 {
            Some(replica) => {
                let same = match replicas.get(key) {
                    Some(entry) => entry.0 == replica,
                    None => false,
                };
                if !same {
                    replicas.insert(copy_key(key), (replica, expires));
                }
            },
            None => {
                replicas.remove(key);
            },
        }
        i = i + 1;
    }
    assert(all.take(i as int) =~= all);
}

/// The work that fetch answers leave for the caller.
pub struct FetchOutcome {
    /// The partitions out of range that need their log start, with the offset
    /// that each was fetched from.
    pub out_of_range: Vec<FetchedFrom>,
    /// The fetch positions that the answers reset.
    pub polled_resets: Vec<PolledReset>,
    /// The metadata must be refreshed.
    pub refresh: bool,
}

impl Consumer {
    /// What the settings and the assignment say to a row.
    pub open spec fn row_context(self) -> RowContext {
        RowContext {
            policy: self.settings.auto_offset_reset,
            isolation: self.settings.isolation_level,
            owned: self.assigned@,
        }
    }

    /// The state that rows read and change, before the first row.
    pub open spec fn rows_model(self) -> RowsModel {
        RowsModel {
            offsets: self.next_offsets@,
            positions: self.positions@,
            end_offsets: self.end_offsets@,
            fetched: seq![],
            out_of_range: seq![],
            polled_resets: seq![],
            replica_updates: seq![],
            refresh: false,
        }
    }

    /// Decode the fetch answers into the fetch buffer, and act on the partition
    /// errors.
    ///
    /// After a failure the positions that rows before it changed stay changed,
    /// and no data goes to the buffer.
    pub fn process_fetch_responses(
        &mut self,
        responses: &Vec<FetchResponse>,
        names: &SortedMap<Uuid, String>,
        now: Nanos,
    ) -> (r: Result<FetchOutcome, ConsumerError>)
        requires
            old(self).wf(),
            responses_in_range(responses@, old(self).assigned@, names@),
            now + old(self).settings.metadata_max_age <= u64::MAX,
        ensures
            final(self).wf(),
            ({
                let (after, failure) = after_rows(
                    old(self).row_context(),
                    old(self).rows_model(),
                    answer_rows(responses@, names@),
                );
                let expires = (now + old(self).settings.metadata_max_age) as u64;
                &&& final(self).next_offsets@ == after.offsets
                &&& final(self).positions@ == after.positions
                &&& final(self).end_offsets@ == after.end_offsets
                &&& match failure {
                    Some(failure) => {
                        &&& r is Err
                        &&& reports(r->Err_0, failure)
                        &&& final(self).fetch_buffer == old(self).fetch_buffer
                        &&& final(self).fetches == old(self).fetches
                    },
                    None => {
                        &&& r is Ok
                        &&& fetched_views(r->Ok_0.out_of_range@) == after.out_of_range
                        &&& reset_views(r->Ok_0.polled_resets@) == after.polled_resets
                        &&& r->Ok_0.refresh == after.refresh
                        &&& buffered_after(
                            old(self).fetch_buffer@,
                            after.fetched,
                            final(self).fetch_buffer@,
                        )
                        &&& final(self).fetches.preferred_read_replicas@ == after_replica_updates(
                            old(self).fetches.preferred_read_replicas@,
                            after.replica_updates,
                            expires,
                        )
                    },
                }
            }),
            *final(self) == (Consumer {
                next_offsets: final(self).next_offsets,
                positions: final(self).positions,
                end_offsets: final(self).end_offsets,
                fetch_buffer: final(self).fetch_buffer,
                fetches: Fetches {
                    preferred_read_replicas: final(self).fetches.preferred_read_replicas,
                    ..old(self).fetches
                },
                ..*old(self)
            }),
    {
        let mut progress = RowsProgress::new();
        let target = RowsTarget {
            policy: self.settings.auto_offset_reset,
            isolation: self.settings.isolation_level,
            owned: self.assigned.set(),
            names,
        };
        proof {
            let s = progress.model(self.next_offsets@, self.positions@, self.end_offsets@);
            assert(s.fetched =~= seq![]);
            assert(s.out_of_range =~= seq![]);
            assert(s.polled_resets =~= seq![]);
            assert(s.replica_updates =~= seq![]);
            assert(s == self.rows_model());
        }
        match process_rows(
            &target,
            &mut self.next_offsets,
            &mut self.positions,
            &mut self.end_offsets,
            &mut progress,
            responses,
        ) {
            Ok(_) => {},
            Err(e) => {
                return Err(e);
            },
        }
        let expires: Nanos = now + self.settings.metadata_max_age;
        update_replicas(
            &mut self.fetches.preferred_read_replicas,
            &progress.replica_updates,
            expires,
        );
        let ghost had = self.fetch_buffer@;
        let ghost all = progress.fetched@;
        proof {
            assert(progress.in_range());
            assert(had.take(had.len() as int) =~= had);
            assert(pushed_models(had, had) =~= fetched_models(all.take(0)));
        }
        let fetched = progress.fetched;
        let ghost after_loop = *self;
        for partition in iter: fetched
            invariant
                iter.seq() == all,
                forall|i: int| 0 <= i < all.len() ==> (#[trigger] all[i])@.in_range(),
                self.fetch_buffer.in_range(),
                self.fetch_buffer@.len() == had.len() + iter.index(),
                self.fetch_buffer@.take(had.len() as int) == had,
                pushed_models(had, self.fetch_buffer@) == fetched_models(
                    all.take(iter.index() as int),
                ),
                *self == (Consumer {
                    next_offsets: self.next_offsets,
                    positions: self.positions,
                    end_offsets: self.end_offsets,
                    fetch_buffer: self.fetch_buffer,
                    fetches: Fetches {
                        preferred_read_replicas: self.fetches.preferred_read_replicas,
                        ..old(self).fetches
                    },
                    ..*old(self)
                }),
                self.next_offsets == after_loop.next_offsets,
                self.positions == after_loop.positions,
                self.end_offsets == after_loop.end_offsets,
                self.fetches == after_loop.fetches,
        {
            let ghost i = iter.index() as int;
            let ghost before = self.fetch_buffer@;
            assert(all[i]@.in_range());
            self.fetch_buffer.push(partition);
            proof {
                assert(self.fetch_buffer@.take(had.len() as int) =~= before.take(had.len() as int));
                assert(pushed_models(had, self.fetch_buffer@) =~= pushed_models(had, before).push(
                    fetched_model(partition@),
                ));
                assert(fetched_models(all.take(i + 1)) =~= fetched_models(all.take(i)).push(
                    fetched_model(all[i]@),
                ));
            }
        }
        assert(all.take(all.len() as int) =~= all);
        proof {
            let rows = answer_rows(responses@, names@);
            let after = after_rows(old(self).row_context(), old(self).rows_model(), rows).0;
            lemma_answer_rows_indexed(responses@, names@);
            lemma_rows_belong(old(self).row_context(), old(self).rows_model(), rows);
            lemma_buffered_belongs(had, after.fetched, self.fetch_buffer@);
        }
        Ok(
            FetchOutcome {
                out_of_range: progress.out_of_range,
                polled_resets: progress.polled_resets,
                refresh: progress.refresh,
            },
        )
    }
}

/// The models of what a buffer has beyond `had`.
pub open spec fn pushed_models(had: Seq<BufferedModel>, now: Seq<BufferedModel>) -> Seq<
    FetchedModel,
> {
    Seq::new((now.len() - had.len()) as nat, |i: int| fetched_model(now[had.len() + i]))
}

/// Whether a buffer holds what it had, followed by the fetched data.
pub open spec fn buffered_after(
    had: Seq<BufferedModel>,
    fetched: Seq<FetchedModel>,
    now: Seq<BufferedModel>,
) -> bool {
    &&& now.len() == had.len() + fetched.len()
    &&& now.take(had.len() as int) == had
    &&& pushed_models(had, now) == fetched
}

proof fn lemma_buffered_belongs(
    had: Seq<BufferedModel>,
    fetched: Seq<FetchedModel>,
    now: Seq<BufferedModel>,
)
    requires
        buffered_after(had, fetched, now),
        all_belong(had),
        forall|i: int| 0 <= i < fetched.len() ==> fetched_belongs(#[trigger] fetched[i]),
    ensures
        all_belong(now),
{
    assert forall|i: int| 0 <= i < now.len() implies (#[trigger] now[i]).belongs() by {
        if i < had.len() {
            assert(now.take(had.len() as int)[i] == had[i]);
            assert(had[i].belongs());
        } else {
            let j = i - had.len();
            assert(pushed_models(had, now)[j] == fetched_model(now[i]));
            assert(fetched_belongs(fetched[j]));
            assert forall|r: int| 0 <= r < now[i].records.len() implies record_key(
                #[trigger] now[i].records[r],
            ) == now[i].key by {
                assert(fetched[j].records[r] == now[i].records[r]@);
            }
        }
    }
}

/// The offsets after `list` was written over them, in order.
pub open spec fn with_positions(
    offsets: Map<PartitionKey, i64>,
    list: Seq<(PartitionKey, i64)>,
) -> Map<PartitionKey, i64>
    decreases list.len(),
{
    if list.len() == 0 {
        offsets
    } else {
        with_positions(offsets, list.drop_last()).insert(list.last().0, list.last().1)
    }
}

/// Whether an error names the unauthorized topics.
pub open spec fn unauthorized_error(e: ConsumerError, topics: Set<Seq<char>>) -> bool {
    e matches ConsumerError::TopicAuthorizationFailed(refused) && refused@ == topics
}

impl Consumer {
    /// Recover the partitions that were out of range with the log starts that
    /// the brokers answered.
    ///
    /// The positions become the log starts. Without a reset policy the first
    /// partition is reported as a truncation instead, with its log start as
    /// the safe offset. A partition without an answer keeps its position. The
    /// result is the fetch positions that moved, and whether the metadata must
    /// be refreshed.
    pub fn recover_out_of_range(
        &mut self,
        out_of_range: &Vec<FetchedFrom>,
        result: &ListOffsetsResult,
    ) -> (r: Result<(Vec<FetchedFrom>, bool), ConsumerError>)
        ensures
            ({
                let list = fetched_views(out_of_range@);
                let starts = log_start_positions(list, result.offsets@);
                if result.unauthorized@ != Set::<Seq<char>>::empty() {
                    &&& r is Err
                    &&& unauthorized_error(r->Err_0, result.unauthorized@)
                    &&& final(self).next_offsets@ == old(self).next_offsets@
                } else if old(self).settings.auto_offset_reset == AutoOffsetReset::NoReset {
                    &&& final(self).next_offsets@ == old(self).next_offsets@
                    &&& list.len() == 0 ==> r is Ok && r->Ok_0.0@.len() == 0 && !r->Ok_0.1
                    &&& list.len() > 0 ==> r is Err && reports(
                        r->Err_0,
                        RowFailure::Truncation {
                            key: list[0].0,
                            fetch_offset: list[0].1,
                            safe_offset: offset_or_unknown(result.offsets@, list[0].0),
                        },
                    )
                } else {
                    &&& r is Ok
                    &&& fetched_views(r->Ok_0.0@) == starts
                    &&& r->Ok_0.1 == result.retry
                    &&& final(self).next_offsets@ == with_positions(
                        old(self).next_offsets@,
                        starts,
                    )
                }
            }),
            *final(self) == (Consumer { next_offsets: final(self).next_offsets, ..*old(self) }),
    {
        match result.authorization() {
            Ok(_) => {},
            Err(e) => {
                return Err(e);
            },
        }
        if self.settings.auto_offset_reset == AutoOffsetReset::NoReset {
            return match out_of_range_truncation(out_of_range, &result.offsets) {
                Some(truncation) => Err(truncation),
                None => Ok((Vec::new(), false)),
            };
        }
        let log_starts = out_of_range_positions(out_of_range, &result.offsets);
        let ghost before = self.next_offsets@;
        let ghost all = fetched_views(log_starts@);
        let mut i: usize = 0;
        while i < log_starts.len()
            invariant
                i <= log_starts@.len(),
                all == fetched_views(log_starts@),
                self.next_offsets@ == with_positions(before, all.take(i as int)),
                *self == (Consumer { next_offsets: self.next_offsets, ..*old(self) }),
            decreases log_starts.len() - i,
        {
            proof {
                assert(all.take(i + 1).drop_last() =~= all.take(i as int));
                assert(all.take(i + 1).last() == all[i as int]);
            }
            self.next_offsets.insert(copy_key(&log_starts[i].0), log_starts[i].1);
            i = i + 1;
        }
        assert(all.take(i as int) =~= all);
        Ok((log_starts, result.retry))
    }

    /// Apply the truncations that the validation of positions found.
    ///
    /// Without a reset policy the first truncated partition is an error.
    pub fn apply_truncation(&mut self, truncated: &SortedMap<TopicPartition, i64>) -> (r: Result<
        (),
        ConsumerError,
    >)
        ensures
            if old(self).settings.auto_offset_reset == AutoOffsetReset::NoReset
                && truncated@.len() > 0 {
                &&& r is Err
                &&& reports(
                    r->Err_0,
                    RowFailure::Truncation {
                        key: truncated.keys()[0],
                        fetch_offset: offset_or_unknown(
                            old(self).next_offsets@,
                            truncated.keys()[0],
                        ),
                        safe_offset: truncated@[truncated.keys()[0]],
                    },
                )
                &&& final(self).next_offsets@ == old(self).next_offsets@
            } else {
                r is Ok && final(self).next_offsets@ == old(
                    self,
                ).next_offsets@.union_prefer_right(truncated@)
            },
            *final(self) == (Consumer { next_offsets: final(self).next_offsets, ..*old(self) }),
    {
        let n = truncated.len();
        let ghost keys = truncated.keys();
        let ghost before = self.next_offsets@;
        if self.settings.auto_offset_reset == AutoOffsetReset::NoReset && n > 0 {
            let key = truncated.key_at(0);
            let fetch_offset = crate::list_offsets::fetch_offset_or_unknown(
                &self.next_offsets,
                key,
            );
            return Err(
                ConsumerError::LogTruncation {
                    topic: key.0.clone(),
                    partition: key.1,
                    fetch_offset,
                    safe_offset: *truncated.value_at(0),
                },
            );
        }
        let mut i: usize = 0;
        while i < n
            invariant
                n == keys.len(),
                keys == truncated.keys(),
                truncated.keys_listed(),
                i <= n,
                forall|k: PartitionKey| #[trigger]
                    self.next_offsets@.contains_key(k) <==> before.contains_key(k) || keys.take(
                        i as int,
                    ).contains(k),
                forall|k: PartitionKey| #[trigger]
                    self.next_offsets@.contains_key(k) ==> self.next_offsets@[k] == if keys.take(
                        i as int,
                    ).contains(k) {
                        truncated@[k]
                    } else {
                        before[k]
                    },
                *self == (Consumer { next_offsets: self.next_offsets, ..*old(self) }),
            decreases n - i,
        {
            proof {
                crate::collections::lemma_take_next(keys, i as int);
            }
            self.next_offsets.insert(copy_key(truncated.key_at(i)), *truncated.value_at(i));
            i = i + 1;
        }
        proof {
            assert(keys.take(n as int) =~= keys);
            assert(self.next_offsets@ =~= before.union_prefer_right(truncated@));
        }
        Ok(())
    }

    /// Whether `out` are the next buffered records of the partitions that are
    /// not paused, at most as many as one `poll` returns, and `after` is the
    /// consumer with its positions moved past them.
    pub open spec fn drained_to(self, out: Seq<ConsumerRecord>, after: Consumer) -> bool {
        let paused = pauses_in_effect(self.paused_partitions@, self.ownership_ids@);
        let d = drained(
            self.fetch_buffer@,
            self.settings.max_poll_records as nat,
            self.assigned@,
            paused.dom(),
            seq![],
            self.next_offsets@,
            self.positions@,
        );
        &&& out == d.out
        &&& after.fetch_buffer@ == d.left
        &&& after.next_offsets@ == d.offsets
        &&& after.positions@ == d.positions
        &&& after.paused_partitions@ == paused
        &&& after == (Consumer {
            fetch_buffer: after.fetch_buffer,
            next_offsets: after.next_offsets,
            positions: after.positions,
            paused_partitions: after.paused_partitions,
            ..self
        })
    }

    /// Return up to `max_poll_records` buffered records, and move the consumed
    /// positions past them.
    pub fn drain_fetch_buffer(&mut self) -> (r: Vec<ConsumerRecord>)
        requires
            old(self).wf(),
        ensures
            final(self).wf(),
            old(self).drained_to(r@, *final(self)),
    {
        let paused = self.paused_of();
        proof {
            lemma_drain_belongs(
                self.fetch_buffer@,
                self.settings.max_poll_records as nat,
                self.assigned@,
                paused@,
                seq![],
                self.next_offsets@,
                self.positions@,
            );
        }
        self.fetch_buffer.drain_unpaused(
            self.settings.max_poll_records,
            self.assigned.set(),
            &paused,
            &mut self.next_offsets,
            &mut self.positions,
        )
    }
}

/// The brokers of `keys` that hold a session, in order.
pub open spec fn open_sessions(keys: Seq<i32>, sessions: Map<i32, FetchSession>) -> Seq<i32>
    decreases keys.len(),
{
    if keys.len() == 0 {
        seq![]
    } else {
        let before = open_sessions(keys.drop_last(), sessions);
        if sessions[keys.last()].next.session_id != INVALID_SESSION_ID {
            before.push(keys.last())
        } else {
            before
        }
    }
}

/// Whether a session request closes a session: the final epoch, and no
/// partitions.
pub open spec fn closes(request: SessionRequest, session_id: i32) -> bool {
    &&& request.session_id == session_id
    &&& request.session_epoch == FINAL_EPOCH
    &&& request.partitions@.len() == 0
    &&& request.partitions.keys().len() == 0
    &&& request.forgotten@.len() == 0
}

/// Whether a fetch request closes a session.
pub open spec fn closing_request(
    request: FetchRequest,
    settings: ConsumerSettings,
    session_id: i32,
) -> bool {
    exists|session: SessionRequest| #[trigger]
        carries(request, settings, session) && closes(session, session_id)
}

impl Consumer {
    /// The requests that close the fetch session of each broker that holds
    /// one.
    pub fn close_fetch_sessions(&self) -> (r: Vec<(i32, FetchRequest)>)
        ensures
            Seq::new(r@.len(), |i: int| r@[i].0) == open_sessions(
                self.fetches.sessions.keys(),
                self.fetches.sessions@,
            ),
            forall|i: int|
                0 <= i < r@.len() ==> closing_request(
                    (#[trigger] r@[i]).1,
                    self.settings,
                    self.fetches.sessions@[r@[i].0].next.session_id,
                ),
    {
        let mut out: Vec<(i32, FetchRequest)> = Vec::new();
        let n = self.fetches.sessions.len();
        let ghost keys = self.fetches.sessions.keys();
        let ghost sessions = self.fetches.sessions@;
        let mut i: usize = 0;
        assert(Seq::new(out@.len(), |j: int| out@[j].0) =~= seq![]);
        while i < n
            invariant
                n == keys.len(),
                keys == self.fetches.sessions.keys(),
                sessions == self.fetches.sessions@,
                i <= n,
                Seq::new(out@.len(), |j: int| out@[j].0) == open_sessions(
                    keys.take(i as int),
                    sessions,
                ),
                forall|j: int|
                    0 <= j < out@.len() ==> closing_request(
                        (#[trigger] out@[j]).1,
                        self.settings,
                        sessions[out@[j].0].next.session_id,
                    ),
            decreases n - i,
        {
            let leader = *self.fetches.sessions.key_at(i);
            let session_id = self.fetches.sessions.value_at(i).session_id();
            assert(keys.take(i + 1).drop_last() =~= keys.take(i as int));
            if session_id != INVALID_SESSION_ID {
                let session = SessionRequest {
                    session_id,
                    session_epoch: FINAL_EPOCH,
                    partitions: SortedMap::new(),
                    forgotten: Vec::new(),
                };
                let rack = match &self.settings.client_rack {
                    Some(rack) => rack.as_str(),
                    None => "",
                };
                let ghost closing = session;
                let request = build_fetch_request(
                    self.settings.fetch_max_wait_ms,
                    self.settings.isolation_level,
                    self.settings.fetch_min_bytes,
                    self.settings.fetch_max_bytes,
                    rack,
                    session,
                );
                proof {
                    reveal_strlit("");
                    assert(request.rack_id@ =~= rack_of(self.settings));
                    assert(carries(request, self.settings, closing));
                    assert(closes(closing, session_id));
                }
                let ghost had = out@;
                out.push((leader, request));
                proof {
                    assert(Seq::new(out@.len(), |j: int| out@[j].0) =~= open_sessions(
                        keys.take(i as int),
                        sessions,
                    ).push(leader));
                    assert forall|j: int| 0 <= j < out@.len() implies closing_request(
                        (#[trigger] out@[j]).1,
                        self.settings,
                        sessions[out@[j].0].next.session_id,
                    ) by {
                        if j < had.len() {
                            assert(out@[j] == had[j]);
                        } else {
                            assert(carries(out@[j].1, self.settings, closing));
                        }
                    }
                }
            }
            i = i + 1;
        }
        assert(keys.take(n as int) =~= keys);
        out
    }
}

} // verus!
