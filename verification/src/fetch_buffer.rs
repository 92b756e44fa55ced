//! Fetched records that `poll` did not return yet.
//!
//! The buffer keeps each completed fetch until `poll` drains it. The consumed
//! position of a partition moves only past the records that `poll` returned,
//! so a commit never covers a record that the application did not get.
use std::collections::VecDeque;
use vstd::prelude::*;

use crate::collections::{SortedMap, SortedSet};
use crate::position::{set_offset_epoch, with_offset_epoch, PartitionPosition, PositionMap};
use crate::records::ConsumerRecord;
use crate::wire::{copy_key, LeaderEpoch, PartitionKey, TopicPartition};

verus! {

/// The fetched data of one partition that `poll` did not return yet.
#[derive(Debug, PartialEq, Eq)]
pub struct BufferedPartition {
    pub key: TopicPartition,
    /// The consumed position that the buffered data starts at. The data is
    /// stale when the consumer has another position, for example after a seek
    /// or a reset.
    pub position: i64,
    /// The records that `poll` did not return yet, in offset order.
    pub records: VecDeque<ConsumerRecord>,
    /// The position after all fetched batches. It can be past the last record,
    /// because markers and aborted transactions have no records.
    pub next_offset: i64,
    /// The leader epoch of the last fetched batch.
    pub last_epoch: Option<LeaderEpoch>,
}

/// The model of a [`BufferedPartition`].
pub struct BufferedModel {
    pub key: PartitionKey,
    pub position: i64,
    pub records: Seq<ConsumerRecord>,
    pub next_offset: i64,
    pub last_epoch: Option<LeaderEpoch>,
}

impl View for BufferedPartition {
    type V = BufferedModel;

    open spec fn view(&self) -> BufferedModel {
        BufferedModel {
            key: self.key@,
            position: self.position,
            records: self.records@,
            next_offset: self.next_offset,
            last_epoch: self.last_epoch,
        }
    }
}

impl BufferedModel {
    /// Whether the offset after each record fits its type.
    pub open spec fn in_range(self) -> bool {
        forall|i: int| 0 <= i < self.records.len() ==> (#[trigger] self.records[i]).offset < i64::MAX
    }

    /// Whether the records stand in offset order between the position and the
    /// next offset.
    pub open spec fn ordered(self) -> bool {
        &&& forall|i: int, j: int|
            0 <= i < j < self.records.len() ==> (#[trigger] self.records[i]).offset < (
            #[trigger] self.records[j]).offset
        &&& forall|i: int|
            0 <= i < self.records.len() ==> self.position <= (#[trigger] self.records[i]).offset
                < self.next_offset
    }

    /// Whether every record is of the partition.
    pub open spec fn belongs(self) -> bool {
        forall|i: int|
            0 <= i < self.records.len() ==> record_key(#[trigger] self.records[i]) == self.key
    }

    /// What is left after the first `n` records were returned.
    pub open spec fn after(self, n: int) -> BufferedModel {
        BufferedModel {
            position: if n > 0 {
                (self.records[n - 1].offset + 1) as i64
            } else {
                self.position
            },
            records: self.records.skip(n),
            ..self
        }
    }

    /// The epoch of the position after the first `n` records were returned, if
    /// it changed.
    pub open spec fn epoch_after(self, n: int) -> Option<LeaderEpoch> {
        if n == self.records.len() && self.last_epoch is Some {
            self.last_epoch
        } else if n > 0 {
            Some(LeaderEpoch(self.records[n - 1].leader_epoch))
        } else {
            None
        }
    }
}

/// The partition of a record.
pub open spec fn record_key(record: ConsumerRecord) -> PartitionKey {
    (record.topic@, record.partition)
}

/// Whether the records of every buffered partition are of that partition.
pub open spec fn all_belong(parts: Seq<BufferedModel>) -> bool {
    forall|i: int| 0 <= i < parts.len() ==> (#[trigger] parts[i]).belongs()
}

/// What a drain gives and leaves.
pub struct Drained {
    /// The records that the application gets.
    pub out: Seq<ConsumerRecord>,
    /// The data that stays in the buffer.
    pub left: Seq<BufferedModel>,
    pub offsets: Map<PartitionKey, i64>,
    pub positions: PositionMap,
}

/// Whether the data of a partition can still be used: the consumer owns the
/// partition, and its position is the one that the data starts at.
pub open spec fn usable(
    part: BufferedModel,
    assigned: Set<PartitionKey>,
    offsets: Map<PartitionKey, i64>,
) -> bool {
    assigned.contains(part.key) && offsets.contains_key(part.key) && offsets[part.key]
        == part.position
}

/// How many records of `part` fit after `len` records when `max` is the limit.
pub open spec fn fitting(part: BufferedModel, len: nat, max: nat) -> int {
    if len >= max {
        0
    } else if part.records.len() < max - len {
        part.records.len() as int
    } else {
        max - len
    }
}

/// The epochs of positions after `part` gave its first `n` records.
pub open spec fn positions_after(positions: PositionMap, part: BufferedModel, n: int) -> PositionMap {
    match part.epoch_after(n) {
        Some(epoch) => with_offset_epoch(positions, part.key, epoch),
        None => positions,
    }
}

/// The drain of `parts`, partition by partition, until `max` records are out:
/// the data of a partition that cannot be used goes away, that of a paused one
/// stays, and of any other one as many records go out as fit. The position
/// moves past the last record that went out, or past the whole data when no
/// record is left.
pub open spec fn drained(
    parts: Seq<BufferedModel>,
    max: nat,
    assigned: Set<PartitionKey>,
    paused: Set<PartitionKey>,
    out: Seq<ConsumerRecord>,
    offsets: Map<PartitionKey, i64>,
    positions: PositionMap,
) -> Drained
    decreases parts.len(),
{
    if parts.len() == 0 {
        Drained { out, left: seq![], offsets, positions }
    } else {
        let part = parts[0];
        let rest = parts.skip(1);
        if !usable(part, assigned, offsets) {
            drained(rest, max, assigned, paused, out, offsets, positions)
        } else if paused.contains(part.key) {
            let d = drained(rest, max, assigned, paused, out, offsets, positions);
            Drained { left: seq![part] + d.left, ..d }
        } else {
            let n = fitting(part, out.len(), max);
            let more = out + part.records.take(n);
            let moved = positions_after(positions, part, n);
            if n < part.records.len() {
                Drained {
                    out: more,
                    left: seq![part.after(n)] + rest,
                    offsets: offsets.insert(part.key, part.after(n).position),
                    positions: moved,
                }
            } else {
                let ahead = offsets.insert(part.key, part.next_offset);
                if more.len() >= max {
                    Drained { out: more, left: rest, offsets: ahead, positions: moved }
                } else {
                    drained(rest, max, assigned, paused, more, ahead, moved)
                }
            }
        }
    }
}

/// The models of buffered partitions.
pub open spec fn models(parts: Seq<BufferedPartition>) -> Seq<BufferedModel> {
    Seq::new(parts.len(), |i: int| parts[i]@)
}

/// Fetched records, by partition in fetch order.
#[derive(Debug)]
pub struct FetchBuffer {
    pub partitions: VecDeque<BufferedPartition>,
}

impl View for FetchBuffer {
    type V = Seq<BufferedModel>;

    open spec fn view(&self) -> Seq<BufferedModel> {
        models(self.partitions@)
    }
}

/// Whether the offset after each buffered record fits its type.
pub open spec fn buffer_in_range(parts: Seq<BufferedModel>) -> bool {
    forall|i: int| 0 <= i < parts.len() ==> (#[trigger] parts[i]).in_range()
}

impl FetchBuffer {
    /// Whether the offset after each buffered record fits its type.
    pub open spec fn in_range(&self) -> bool {
        buffer_in_range(self@)
    }

    /// A buffer without data.
    pub fn new() -> (r: Self)
        ensures
            r@ == Seq::<BufferedModel>::empty(),
            r.in_range(),
    {
        let r = FetchBuffer { partitions: VecDeque::new() };
        assert(r@ =~= Seq::<BufferedModel>::empty());
        r
    }

    /// Add the fetched data of a partition.
    pub fn push(&mut self, partition: BufferedPartition)
        requires
            old(self).in_range(),
            partition@.in_range(),
        ensures
            final(self)@ == old(self)@.push(partition@),
            final(self).in_range(),
    {
        let ghost before = self@;
        self.partitions.push_back(partition);
        proof {
            assert(self@ =~= before.push(partition@));
            assert forall|i: int| 0 <= i < self@.len() implies (#[trigger] self@[i]).in_range() by {
                if i < before.len() {
                    assert(before[i].in_range());
                }
            }
        }
    }

    /// Return up to `max_records` records of the partitions that are not
    /// paused, and move the consumed position of each partition past the
    /// records that this call returns.
    ///
    /// The call drops the data of a partition that is no longer in `assigned`,
    /// and of a partition whose position changed since the fetch. It keeps the
    /// data of a paused partition for the time after its resume.
    pub fn drain_unpaused(
        &mut self,
        max_records: usize,
        assigned: &SortedSet<TopicPartition>,
        paused: &SortedSet<TopicPartition>,
        offsets: &mut SortedMap<TopicPartition, i64>,
        positions: &mut SortedMap<TopicPartition, PartitionPosition>,
    ) -> (r: Vec<ConsumerRecord>)
        requires
            old(self).in_range(),
        ensures
            ({
                let d = drained(
                    old(self)@,
                    max_records as nat,
                    assigned@,
                    paused@,
                    seq![],
                    old(offsets)@,
                    old(positions)@,
                );
                &&& r@ == d.out
                &&& final(self)@ == d.left
                &&& final(offsets)@ == d.offsets
                &&& final(positions)@ == d.positions
            }),
            final(self).in_range(),
    {
        let mut out: Vec<ConsumerRecord> = Vec::new();
        let mut kept: VecDeque<BufferedPartition> = VecDeque::new();
        let ghost max = max_records as nat;
        let ghost goal = drained(self@, max, assigned@, paused@, seq![], offsets@, positions@);
        assert(models(kept@) =~= seq![]);
        assert(seq![] + drained(
            self@,
            max,
            assigned@,
            paused@,
            out@,
            offsets@,
            positions@,
        ).left =~= goal.left);
        let mut stopped = false;
        while !stopped && self.partitions.len() > 0
            invariant
                max == max_records,
                buffer_in_range(models(kept@)),
                self.in_range(),
                !stopped ==> ({
                    let d = drained(self@, max, assigned@, paused@, out@, offsets@, positions@);
                    &&& goal.out == d.out
                    &&& goal.left == models(kept@) + d.left
                    &&& goal.offsets == d.offsets
                    &&& goal.positions == d.positions
                }),
                stopped ==> {
                    &&& goal.out == out@
                    &&& goal.left == models(kept@) + self@
                    &&& goal.offsets == offsets@
                    &&& goal.positions == positions@
                },
            decreases
                    (if stopped {
                        0int
                    } else {
                        1int
                    }),
                    self.partitions@.len(),
        {
            let ghost parts = self@;
            let mut partition = match self.partitions.pop_front() {
                Some(partition) => partition,
                None => {
                    assert(false);
                    stopped = true;
                    continue ;
                },
            };
            let ghost part = parts[0];
            proof {
                assert(part == partition@);
                assert(self@ =~= parts.skip(1));
                assert(part.in_range());
                assert forall|i: int| 0 <= i < self@.len() implies (
                #[trigger] self@[i]).in_range() by {
                    assert(self@[i] == parts[i + 1]);
                }
            }
            let current = match offsets.get(&partition.key) {
                Some(offset) => *offset == partition.position,
                None => false,
            };
            if !assigned.contains(&partition.key) || !current {
                continue ;
            }
            if paused.contains(&partition.key) {
                let ghost kept_had = kept@;
                kept.push_back(partition);
                proof {
                    assert(models(kept@) =~= models(kept_had).push(part));
                    let d = drained(self@, max, assigned@, paused@, out@, offsets@, positions@);
                    assert(models(kept_had) + (seq![part] + d.left) =~= models(kept@) + d.left);
                }
                continue ;
            }
            let ghost had = out@;
            let ghost n = fitting(part, had.len(), max);
            let mut last: Option<(i64, i32)> = None;
            let ghost taken: int = 0;
            assert(part.records.skip(0) =~= part.records);
            assert(had + part.records.take(0) =~= had);
            while out.len() < max_records && partition.records.len() > 0
                invariant
                    max == max_records,
                    n == fitting(part, had.len(), max),
                    part.in_range(),
                    0 <= taken <= n,
                    out@ == had + part.records.take(taken),
                    out@.len() == had.len() + taken,
                    partition@ == (BufferedModel { records: part.records.skip(taken), ..part }),
                    last is None <==> taken == 0,
                    last matches Some(l) ==> l.0 == part.records[taken - 1].offset && l.1
                        == part.records[taken - 1].leader_epoch,
                decreases partition.records@.len(),
            {
                if let Some(record) = partition.records.pop_front() {
                    proof {
                        assert(record == part.records[taken]);
                        assert(partition.records@ =~= part.records.skip(taken + 1));
                    }
                    last = Some((record.offset, record.leader_epoch));
                    out.push(record);
                    proof {
                        assert(out@ =~= had + part.records.take(taken + 1));
                        taken = taken + 1;
                    }
                }
            }
            assert(taken == n);
            let records_left = partition.records.len();
            if let Some((offset, leader_epoch)) = last {
                partition.position = offset + 1;
                if records_left > 0 || partition.last_epoch.is_none() {
                    set_offset_epoch(positions, &partition.key, LeaderEpoch(leader_epoch));
                }
            }
            if records_left > 0 {
                offsets.insert(copy_key(&partition.key), partition.position);
                let ghost rest = self@;
                assert(partition@ == part.after(n));
                assert(part.after(n).in_range()) by {
                    assert forall|i: int| 0 <= i < part.after(n).records.len() implies (
                    #[trigger] part.after(n).records[i]).offset < i64::MAX by {
                        assert(part.after(n).records[i] == part.records[n + i]);
                    }
                }
                self.partitions.push_front(partition);
                stopped = true;
                proof {
                    assert(self@ =~= seq![part.after(n)] + rest);
                    assert forall|i: int| 0 <= i < self@.len() implies (
                    #[trigger] self@[i]).in_range() by {
                        if i > 0 {
                            assert(self@[i] == rest[i - 1]);
                        }
                    }
                }
                continue ;
            }
            offsets.insert(copy_key(&partition.key), partition.next_offset);
            if let Some(epoch) = partition.last_epoch {
                set_offset_epoch(positions, &partition.key, epoch);
            }
            if out.len() >= max_records {
                stopped = true;
            }
        }
        let ghost before = self@;
        let ghost kept_models = models(kept@);
        kept.append(&mut self.partitions);
        proof {
            assert(models(kept@) =~= kept_models + before);
            if !stopped {
                assert(before =~= seq![]);
                assert(kept_models + seq![] =~= kept_models + before);
            }
        }
        self.partitions = kept;
        proof {
            assert forall|i: int| 0 <= i < self@.len() implies (#[trigger] self@[i]).in_range() by {
                if i < kept_models.len() {
                    assert(self@[i] == kept_models[i]);
                } else {
                    assert(self@[i] == before[i - kept_models.len()]);
                }
            }
        }
        out
    }

    /// Return up to `max_records` records, and move the consumed position of
    /// each partition past the records that this call returns.
    pub fn drain(
        &mut self,
        max_records: usize,
        assigned: &SortedSet<TopicPartition>,
        offsets: &mut SortedMap<TopicPartition, i64>,
        positions: &mut SortedMap<TopicPartition, PartitionPosition>,
    ) -> (r: Vec<ConsumerRecord>)
        requires
            old(self).in_range(),
        ensures
            ({
                let d = drained(
                    old(self)@,
                    max_records as nat,
                    assigned@,
                    Set::empty(),
                    seq![],
                    old(offsets)@,
                    old(positions)@,
                );
                &&& r@ == d.out
                &&& final(self)@ == d.left
                &&& final(offsets)@ == d.offsets
                &&& final(positions)@ == d.positions
            }),
            final(self).in_range(),
    {
        let none: SortedSet<TopicPartition> = SortedSet::new();
        self.drain_unpaused(max_records, assigned, &none, offsets, positions)
    }
}

/// The keys of buffered partitions.
pub open spec fn buffered_keys(parts: Seq<BufferedModel>) -> Set<PartitionKey> {
    Set::new(|k: PartitionKey| exists|i: int| 0 <= i < parts.len() && (#[trigger] parts[i]).key == k)
}

/// The partitions of `parts` whose topic is in `topics`, in order.
pub open spec fn of_topics(parts: Seq<BufferedModel>, topics: Set<Seq<char>>) -> Seq<BufferedModel>
    decreases parts.len(),
{
    if parts.len() == 0 {
        seq![]
    } else {
        let before = of_topics(parts.drop_last(), topics);
        if topics.contains(parts.last().key.0) {
            before.push(parts.last())
        } else {
            before
        }
    }
}

/// The number of records in `parts`.
pub open spec fn record_count(parts: Seq<BufferedModel>) -> nat
    decreases parts.len(),
{
    if parts.len() == 0 {
        0
    } else {
        record_count(parts.drop_last()) + parts.last().records.len()
    }
}

proof fn lemma_record_count_grows(parts: Seq<BufferedModel>, n: int)
    requires
        0 <= n <= parts.len(),
    ensures
        record_count(parts.take(n)) <= record_count(parts),
    decreases parts.len() - n,
{
    if n < parts.len() {
        assert(parts.take(n + 1).drop_last() =~= parts.take(n));
        lemma_record_count_grows(parts, n + 1);
    } else {
        assert(parts.take(n) =~= parts);
    }
}

impl FetchBuffer {
    /// The number of buffered records.
    pub fn len(&self) -> (r: usize)
        requires
            record_count(self@) <= usize::MAX,
        ensures
            r == record_count(self@),
    {
        let mut total: usize = 0;
        let mut i: usize = 0;
        while i < self.partitions.len()
            invariant
                i <= self.partitions@.len(),
                record_count(self@) <= usize::MAX,
                total == record_count(self@.take(i as int)),
            decreases self.partitions@.len() - i,
        {
            proof {
                assert(self@.take(i + 1).drop_last() =~= self@.take(i as int));
                lemma_record_count_grows(self@, i + 1);
            }
            total = total + self.partitions[i].records.len();
            i = i + 1;
        }
        assert(self@.take(i as int) =~= self@);
        total
    }

    /// The partitions with buffered data.
    pub fn buffered_partitions(&self) -> (r: SortedSet<TopicPartition>)
        ensures
            r@ == buffered_keys(self@),
    {
        let mut r: SortedSet<TopicPartition> = SortedSet::new();
        let mut i: usize = 0;
        assert(r@ =~= buffered_keys(self@.take(0)));
        while i < self.partitions.len()
            invariant
                i <= self.partitions@.len(),
                r@ == buffered_keys(self@.take(i as int)),
            decreases self.partitions@.len() - i,
        {
            let ghost had = self@.take(i as int);
            let ghost next = self@.take(i + 1);
            let ghost before = r@;
            r.insert(copy_key(&self.partitions[i].key));
            proof {
                assert(next[i as int] == self@[i as int]);
                assert forall|k: PartitionKey| buffered_keys(next).contains(k) <==> #[trigger]
                    r@.contains(k) by {
                    if before.contains(k) {
                        let j = choose|j: int| 0 <= j < had.len() && (#[trigger] had[j]).key == k;
                        assert(next[j] == had[j]);
                    }
                    if buffered_keys(next).contains(k) {
                        let j = choose|j: int| 0 <= j < next.len() && (#[trigger] next[j]).key == k;
                        if j < i {
                            assert(had[j] == next[j]);
                        }
                    }
                }
                assert(r@ =~= buffered_keys(next));
            }
            i = i + 1;
        }
        assert(self@.take(i as int) =~= self@);
        r
    }

    /// Drop the data of the partitions whose topic is not in `topics`.
    pub fn retain_topics(&mut self, topics: &SortedSet<String>)
        requires
            old(self).in_range(),
        ensures
            final(self)@ == of_topics(old(self)@, topics@),
            final(self).in_range(),
    {
        let mut kept: VecDeque<BufferedPartition> = VecDeque::new();
        let ghost all = self@;
        let ghost done: int = 0;
        assert(models(kept@) =~= seq![]);
        assert(all.skip(0) =~= all);
        while self.partitions.len() > 0
            invariant
                0 <= done <= all.len(),
                buffer_in_range(all),
                self@ == all.skip(done),
                models(kept@) == of_topics(all.take(done), topics@),
                buffer_in_range(models(kept@)),
            decreases self.partitions@.len(),
        {
            let ghost kept_had = kept@;
            let ghost parts = self@;
            assert(parts.len() == self.partitions@.len());
            if let Some(partition) = self.partitions.pop_front() {
                proof {
                    assert(partition@ == parts[0]);
                    assert(parts[0] == all[done]);
                    assert(self@ =~= parts.skip(1));
                    assert(self@ =~= all.skip(done + 1));
                    assert(all.take(done + 1).drop_last() =~= all.take(done));
                    assert(all[done].in_range());
                }
                if topics.contains(&partition.key.0) {
                    kept.push_back(partition);
                    proof {
                        assert(models(kept@) =~= models(kept_had).push(all[done]));
                        assert forall|i: int| 0 <= i < models(kept@).len() implies (
                        #[trigger] models(kept@)[i]).in_range() by {
                            if i < models(kept_had).len() {
                                assert(models(kept_had)[i].in_range());
                            }
                        }
                    }
                }
                proof {
                    done = done + 1;
                }
            }
        }
        assert(all.take(done) =~= all);
        self.partitions = kept;
    }
}

proof fn lemma_drained_out(
    parts: Seq<BufferedModel>,
    max: nat,
    assigned: Set<PartitionKey>,
    paused: Set<PartitionKey>,
    out: Seq<ConsumerRecord>,
    offsets: Map<PartitionKey, i64>,
    positions: PositionMap,
)
    ensures
        ({
            let d = drained(parts, max, assigned, paused, out, offsets, positions);
            &&& d.out.len() >= out.len()
            &&& d.out.take(out.len() as int) == out
            &&& d.out.len() <= if out.len() >= max {
                out.len()
            } else {
                max
            }
            &&& forall|k: PartitionKey| #[trigger]
                offsets.contains_key(k) && !buffered_keys(parts).contains(k)
                    ==> d.offsets.contains_key(k) && d.offsets[k] == offsets[k]
        }),
    decreases parts.len(),
{
    let d = drained(parts, max, assigned, paused, out, offsets, positions);
    if parts.len() == 0 {
        assert(d.out.take(out.len() as int) =~= out);
    } else {
        let part = parts[0];
        let rest = parts.skip(1);
        assert forall|k: PartitionKey| !#[trigger] buffered_keys(parts).contains(k) implies
            !buffered_keys(rest).contains(k) && k != part.key by {
            if buffered_keys(rest).contains(k) {
                let i = choose|i: int| 0 <= i < rest.len() && (#[trigger] rest[i]).key == k;
                assert(parts[i + 1].key == k);
            }
            assert(parts[0].key == part.key);
        }
        if !usable(part, assigned, offsets) || paused.contains(part.key) {
            lemma_drained_out(rest, max, assigned, paused, out, offsets, positions);
        } else {
            let n = fitting(part, out.len(), max);
            let more = out + part.records.take(n);
            let moved = positions_after(positions, part, n);
            assert(more.take(out.len() as int) =~= out);
            if n == part.records.len() && more.len() < max {
                let ahead = offsets.insert(part.key, part.next_offset);
                lemma_drained_out(rest, max, assigned, paused, more, ahead, moved);
                assert(d.out.take(out.len() as int) =~= d.out.take(more.len() as int).take(
                    out.len() as int,
                ));
                assert forall|k: PartitionKey| #[trigger]
                    offsets.contains_key(k) && !buffered_keys(parts).contains(
                        k,
                    ) implies d.offsets.contains_key(k) && d.offsets[k] == offsets[k] by {
                    assert(ahead.contains_key(k));
                }
            } else {
                assert(d.out == more);
            }
        }
    }
}

/// `poll` returns at most the asked number of records.
pub proof fn law_drain_returns_at_most_max(
    parts: Seq<BufferedModel>,
    max: nat,
    assigned: Set<PartitionKey>,
    paused: Set<PartitionKey>,
    offsets: Map<PartitionKey, i64>,
    positions: PositionMap,
)
    ensures
        drained(parts, max, assigned, paused, seq![], offsets, positions).out.len() <= max,
{
    lemma_drained_out(parts, max, assigned, paused, seq![], offsets, positions);
}

/// Whether no two partitions of the buffer are the same.
pub open spec fn distinct_keys(parts: Seq<BufferedModel>) -> bool {
    forall|i: int, j: int|
        0 <= i < j < parts.len() ==> (#[trigger] parts[i]).key != (#[trigger] parts[j]).key
}

/// Whether no two usable partitions of the buffer are the same.
pub open spec fn distinct_usable(
    parts: Seq<BufferedModel>,
    assigned: Set<PartitionKey>,
    offsets: Map<PartitionKey, i64>,
) -> bool {
    forall|i: int, j: int|
        0 <= i < j < parts.len() && usable(#[trigger] parts[i], assigned, offsets) && usable(
            #[trigger] parts[j],
            assigned,
            offsets,
        ) ==> parts[i].key != parts[j].key
}

/// Whether a drain gave the first `n` records of `part` in one piece, from
/// place `at` of its result on, and left the others in the buffer with the
/// position before them, because `max` records are out. A paused partition gives
/// none and stays.
pub open spec fn gave(
    part: BufferedModel,
    max: nat,
    paused: Set<PartitionKey>,
    d: Drained,
    n: int,
    at: int,
) -> bool {
    &&& 0 <= n <= part.records.len()
    &&& 0 <= at <= at + n <= d.out.len()
    &&& d.out.subrange(at, at + n) == part.records.take(n)
    &&& n < part.records.len() ==> {
        &&& d.left.contains(part.after(n))
        &&& d.offsets.contains_key(part.key)
        &&& d.offsets[part.key] == part.after(n).position
        &&& !paused.contains(part.key) ==> d.out.len() >= max
    }
    &&& paused.contains(part.key) ==> n == 0 && d.left.contains(part)
}

proof fn lemma_gave(
    parts: Seq<BufferedModel>,
    max: nat,
    assigned: Set<PartitionKey>,
    paused: Set<PartitionKey>,
    out: Seq<ConsumerRecord>,
    offsets: Map<PartitionKey, i64>,
    positions: PositionMap,
    i: int,
)
    requires
        0 <= i < parts.len(),
        usable(parts[i], assigned, offsets),
        forall|j: int|
            0 <= j < i && usable(#[trigger] parts[j], assigned, offsets) ==> parts[j].key
                != parts[i].key,
    ensures
        exists|n: int, at: int| #[trigger]
            gave(
                parts[i],
                max,
                paused,
                drained(parts, max, assigned, paused, out, offsets, positions),
                n,
                at,
            ),
    decreases parts.len(),
{
    let d = drained(parts, max, assigned, paused, out, offsets, positions);
    let part = parts[0];
    let rest = parts.skip(1);
    let own = parts[i];
    assert(own.after(0) == own) by {
        assert(own.records.skip(0) =~= own.records);
    }
    assert(d.out.subrange(0, 0) =~= own.records.take(0));
    if i == 0 {
        if paused.contains(own.key) {
            lemma_paused_stays(rest, max, assigned, paused, out, offsets, positions, own.key);
            assert(d.left[0] == own);
            assert(gave(own, max, paused, d, 0, 0));
        } else {
            let n = fitting(part, out.len(), max);
            let more = out + part.records.take(n);
            let at = out.len() as int;
            let moved = positions_after(positions, part, n);
            assert(more.subrange(at, at + n) =~= part.records.take(n));
            if n < part.records.len() {
                assert(d.left[0] == part.after(n));
                assert(gave(own, max, paused, d, n, at));
            } else {
                if more.len() < max {
                    let ahead = offsets.insert(part.key, part.next_offset);
                    lemma_drained_out(rest, max, assigned, paused, more, ahead, moved);
                    assert(d.out.subrange(at, at + n) =~= d.out.take(
                        more.len() as int,
                    ).subrange(at, at + n));
                }
                assert(gave(own, max, paused, d, n, at));
            }
        }
    } else {
        assert(rest[i - 1] == own);
        if !usable(part, assigned, offsets) || paused.contains(part.key) {
            assert forall|j: int|
                0 <= j < i - 1 && usable(#[trigger] rest[j], assigned, offsets) implies rest[j].key
                != own.key by {
                assert(usable(parts[j + 1], assigned, offsets));
            }
            lemma_gave(rest, max, assigned, paused, out, offsets, positions, i - 1);
            let inner = drained(rest, max, assigned, paused, out, offsets, positions);
            let (n, at) = choose|n: int, at: int| #[trigger] gave(own, max, paused, inner, n, at);
            assert forall|p: BufferedModel| inner.left.contains(p) implies #[trigger] d.left.contains(
                p,
            ) by {
                let k = choose|k: int| 0 <= k < inner.left.len() && inner.left[k] == p;
                if usable(part, assigned, offsets) {
                    assert(d.left[k + 1] == p);
                }
            }
            assert(gave(own, max, paused, d, n, at));
        } else {
            assert(part.key != own.key);
            let n = fitting(part, out.len(), max);
            let more = out + part.records.take(n);
            let moved = positions_after(positions, part, n);
            if n == part.records.len() && more.len() < max {
                let ahead = offsets.insert(part.key, part.next_offset);
                assert forall|j: int|
                    0 <= j < i - 1 && usable(
                        #[trigger] rest[j],
                        assigned,
                        ahead,
                    ) implies rest[j].key != own.key by {
                    if rest[j].key == own.key {
                        assert(usable(parts[j + 1], assigned, offsets));
                    }
                }
                lemma_gave(rest, max, assigned, paused, more, ahead, moved, i - 1);
                let (m, at) = choose|m: int, at: int| #[trigger] gave(own, max, paused, d, m, at);
                assert(gave(own, max, paused, d, m, at));
            } else {
                if n < part.records.len() {
                    assert(d.left[i] == own);
                } else {
                    assert(d.left[i - 1] == own);
                }
                assert(gave(own, max, paused, d, 0, 0));
            }
        }
    }
}

/// A drain does not move the position of a paused partition.
pub proof fn lemma_paused_stays(
    parts: Seq<BufferedModel>,
    max: nat,
    assigned: Set<PartitionKey>,
    paused: Set<PartitionKey>,
    out: Seq<ConsumerRecord>,
    offsets: Map<PartitionKey, i64>,
    positions: PositionMap,
    key: PartitionKey,
)
    requires
        paused.contains(key),
        offsets.contains_key(key),
    ensures
        ({
            let d = drained(parts, max, assigned, paused, out, offsets, positions);
            d.offsets.contains_key(key) && d.offsets[key] == offsets[key]
        }),
    decreases parts.len(),
{
    if parts.len() > 0 {
        let part = parts[0];
        let rest = parts.skip(1);
        if !usable(part, assigned, offsets) || paused.contains(part.key) {
            lemma_paused_stays(rest, max, assigned, paused, out, offsets, positions, key);
        } else {
            let n = fitting(part, out.len(), max);
            let more = out + part.records.take(n);
            if n == part.records.len() && more.len() < max {
                lemma_paused_stays(
                    rest,
                    max,
                    assigned,
                    paused,
                    more,
                    offsets.insert(part.key, part.next_offset),
                    positions_after(positions, part, n),
                    key,
                );
            }
        }
    }
}

/// What a drain leaves of records that are of their partitions are such records
/// too.
pub proof fn lemma_drain_belongs(
    parts: Seq<BufferedModel>,
    max: nat,
    assigned: Set<PartitionKey>,
    paused: Set<PartitionKey>,
    out: Seq<ConsumerRecord>,
    offsets: Map<PartitionKey, i64>,
    positions: PositionMap,
)
    requires
        all_belong(parts),
    ensures
        all_belong(drained(parts, max, assigned, paused, out, offsets, positions).left),
    decreases parts.len(),
{
    if parts.len() > 0 {
        let part = parts[0];
        let rest = parts.skip(1);
        assert(all_belong(rest)) by {
            assert forall|i: int| 0 <= i < rest.len() implies (#[trigger] rest[i]).belongs() by {
                assert(parts[i + 1].belongs());
            }
        }
        assert(part.belongs());
        if !usable(part, assigned, offsets) || paused.contains(part.key) {
            lemma_drain_belongs(rest, max, assigned, paused, out, offsets, positions);
        } else {
            let n = fitting(part, out.len(), max);
            let more = out + part.records.take(n);
            let moved = positions_after(positions, part, n);
            assert(part.after(n).belongs()) by {
                let left = part.after(n);
                assert forall|i: int| 0 <= i < left.records.len() implies record_key(
                    #[trigger] left.records[i],
                ) == left.key by {
                    assert(record_key(part.records[n + i]) == part.key);
                }
            }
            if n == part.records.len() && more.len() < max {
                let ahead = offsets.insert(part.key, part.next_offset);
                lemma_drain_belongs(rest, max, assigned, paused, more, ahead, moved);
            }
        }
    }
}

/// What stays of the topics is part of what was there.
pub proof fn lemma_of_topics_belongs(parts: Seq<BufferedModel>, topics: Set<Seq<char>>)
    requires
        all_belong(parts),
    ensures
        all_belong(of_topics(parts, topics)),
    decreases parts.len(),
{
    if parts.len() > 0 {
        let front = parts.drop_last();
        assert(all_belong(front)) by {
            assert forall|i: int| 0 <= i < front.len() implies (#[trigger] front[i]).belongs() by {
                assert(parts[i].belongs());
            }
        }
        assert(parts[parts.len() - 1].belongs());
        lemma_of_topics_belongs(front, topics);
    }
}

/// Whether a record is one of a buffered partition that is not paused.
pub open spec fn of_unpaused(
    record: ConsumerRecord,
    parts: Seq<BufferedModel>,
    paused: Set<PartitionKey>,
) -> bool {
    exists|j: int, r: int|
        0 <= j < parts.len() && !paused.contains(parts[j].key) && 0 <= r < parts[j].records.len()
            && #[trigger] parts[j].records[r] == record
}

/// A drain adds only records of partitions that are not paused.
pub proof fn lemma_drain_skips_paused(
    parts: Seq<BufferedModel>,
    max: nat,
    assigned: Set<PartitionKey>,
    paused: Set<PartitionKey>,
    out: Seq<ConsumerRecord>,
    offsets: Map<PartitionKey, i64>,
    positions: PositionMap,
)
    ensures
        forall|i: int|
            out.len() <= i < drained(
                parts,
                max,
                assigned,
                paused,
                out,
                offsets,
                positions,
            ).out.len() ==> of_unpaused(
                #[trigger] drained(parts, max, assigned, paused, out, offsets, positions).out[i],
                parts,
                paused,
            ),
    decreases parts.len(),
{
    let d = drained(parts, max, assigned, paused, out, offsets, positions);
    if parts.len() > 0 {
        let part = parts[0];
        let rest = parts.skip(1);
        let n = fitting(part, out.len(), max);
        let more = out + part.records.take(n);
        let moved = positions_after(positions, part, n);
        let skipped = !usable(part, assigned, offsets) || paused.contains(part.key);
        let ahead = offsets.insert(part.key, part.next_offset);
        let last = !skipped && !(n == part.records.len() && more.len() < max);
        let from = if skipped {
            out
        } else {
            more
        };
        if skipped {
            lemma_drain_skips_paused(rest, max, assigned, paused, out, offsets, positions);
        } else if !last {
            lemma_drain_skips_paused(rest, max, assigned, paused, more, ahead, moved);
            lemma_drained_out(rest, max, assigned, paused, more, ahead, moved);
        }
        assert forall|i: int| out.len() <= i < d.out.len() implies of_unpaused(
            #[trigger] d.out[i],
            parts,
            paused,
        ) by {
            if i < from.len() {
                assert(d.out.take(more.len() as int)[i] == more[i]) by {
                    if last {
                        assert(d.out == more);
                    }
                }
                assert(d.out[i] == more[i]);
                assert(parts[0].records[i - out.len()] == d.out[i]);
            } else {
                assert(!last) by {
                    if last {
                        assert(d.out == more);
                    }
                }
                let inner = if skipped {
                    drained(rest, max, assigned, paused, out, offsets, positions)
                } else {
                    drained(rest, max, assigned, paused, more, ahead, moved)
                };
                assert(d.out == inner.out);
                assert(of_unpaused(inner.out[i], rest, paused));
                let (j, r) = choose|j: int, r: int|
                    0 <= j < rest.len() && !paused.contains(rest[j].key) && 0 <= r
                        < rest[j].records.len() && #[trigger] rest[j].records[r] == d.out[i];
                assert(parts[j + 1].records[r] == d.out[i]);
            }
        }
    }
}

/// A drain keeps the usable data of a paused partition, and its position.
pub proof fn lemma_drain_keeps_paused(
    parts: Seq<BufferedModel>,
    max: nat,
    assigned: Set<PartitionKey>,
    paused: Set<PartitionKey>,
    out: Seq<ConsumerRecord>,
    offsets: Map<PartitionKey, i64>,
    positions: PositionMap,
    i: int,
)
    requires
        0 <= i < parts.len(),
        usable(parts[i], assigned, offsets),
        paused.contains(parts[i].key),
    ensures
        ({
            let d = drained(parts, max, assigned, paused, out, offsets, positions);
            d.left.contains(parts[i]) && usable(parts[i], assigned, d.offsets)
        }),
    decreases parts.len(),
{
    let d = drained(parts, max, assigned, paused, out, offsets, positions);
    let part = parts[0];
    let rest = parts.skip(1);
    let own = parts[i];
    lemma_paused_stays(parts, max, assigned, paused, out, offsets, positions, own.key);
    if i == 0 {
        assert(d.left[0] == own);
    } else {
        assert(rest[i - 1] == own);
        if !usable(part, assigned, offsets) || paused.contains(part.key) {
            lemma_drain_keeps_paused(rest, max, assigned, paused, out, offsets, positions, i - 1);
            let inner = drained(rest, max, assigned, paused, out, offsets, positions);
            let k = choose|k: int| 0 <= k < inner.left.len() && inner.left[k] == own;
            if usable(part, assigned, offsets) {
                assert(d.left[k + 1] == own);
            }
        } else {
            let n = fitting(part, out.len(), max);
            let more = out + part.records.take(n);
            let moved = positions_after(positions, part, n);
            if n == part.records.len() && more.len() < max {
                let ahead = offsets.insert(part.key, part.next_offset);
                lemma_drain_keeps_paused(
                    rest,
                    max,
                    assigned,
                    paused,
                    more,
                    ahead,
                    moved,
                    i - 1,
                );
            } else if n < part.records.len() {
                assert(d.left[i] == own);
            } else {
                assert(d.left[i - 1] == own);
            }
        }
    }
}

/// Of each usable partition a drain returns the first records, in order and in
/// one piece, and keeps the others, with the position at the first one that it
/// kept. It returns none of a paused partition, and keeps all of it.
pub proof fn law_each_partition_gives_its_first_records(
    parts: Seq<BufferedModel>,
    max: nat,
    assigned: Set<PartitionKey>,
    paused: Set<PartitionKey>,
    offsets: Map<PartitionKey, i64>,
    positions: PositionMap,
    i: int,
)
    requires
        distinct_usable(parts, assigned, offsets),
        0 <= i < parts.len(),
        usable(parts[i], assigned, offsets),
    ensures
        exists|n: int, at: int| #[trigger]
            gave(
                parts[i],
                max,
                paused,
                drained(parts, max, assigned, paused, seq![], offsets, positions),
                n,
                at,
            ),
{
    lemma_gave(parts, max, assigned, paused, seq![], offsets, positions, i);
}

/// A commit of the consumed positions never covers a record that the
/// application did not get: each buffered record of a usable partition went
/// out, or lies at or above the position of its partition.
pub proof fn law_no_commit_past_unreturned_records(
    parts: Seq<BufferedModel>,
    max: nat,
    assigned: Set<PartitionKey>,
    paused: Set<PartitionKey>,
    offsets: Map<PartitionKey, i64>,
    positions: PositionMap,
)
    requires
        distinct_usable(parts, assigned, offsets),
        forall|i: int| 0 <= i < parts.len() ==> (#[trigger] parts[i]).ordered(),
    ensures
        ({
            let d = drained(parts, max, assigned, paused, seq![], offsets, positions);
            forall|i: int, r: int|
                0 <= i < parts.len() && usable(parts[i], assigned, offsets) && 0 <= r
                    < parts[i].records.len() ==> d.out.contains(
                    #[trigger] parts[i].records[r],
                ) || (d.offsets.contains_key(parts[i].key) && d.offsets[parts[i].key]
                    <= parts[i].records[r].offset)
        }),
{
    let d = drained(parts, max, assigned, paused, seq![], offsets, positions);
    assert forall|i: int, r: int|
        0 <= i < parts.len() && usable(parts[i], assigned, offsets) && 0 <= r
            < parts[i].records.len() implies d.out.contains(#[trigger] parts[i].records[r]) || (
    d.offsets.contains_key(parts[i].key) && d.offsets[parts[i].key] <= parts[i].records[r].offset) by {
        let part = parts[i];
        lemma_gave(parts, max, assigned, paused, seq![], offsets, positions, i);
        let (n, at) = choose|n: int, at: int| #[trigger] gave(part, max, paused, d, n, at);
        if r < n {
            assert(part.records.take(n)[r] == part.records[r]);
            assert(d.out.subrange(at, at + n)[r] == part.records[r]);
            assert(d.out[at + r] == part.records[r]);
        } else {
            assert(part.ordered());
            if n > 0 && n - 1 < r {
                assert(part.records[n - 1].offset < part.records[r].offset);
            }
            assert(part.position <= part.records[r].offset);
        }
    }
}

/// What a drain keeps of a partition stands in offset order, from its new
/// position on, so the next drain goes on from there.
pub proof fn law_kept_records_stay_in_order(part: BufferedModel, n: int)
    requires
        part.ordered(),
        0 <= n <= part.records.len(),
    ensures
        part.after(n).ordered(),
{
    let left = part.after(n);
    assert forall|i: int, j: int| 0 <= i < j < left.records.len() implies (
    #[trigger] left.records[i]).offset < (#[trigger] left.records[j]).offset by {
        assert(part.records[n + i].offset < part.records[n + j].offset);
    }
    assert forall|i: int| 0 <= i < left.records.len() implies left.position <= (
    #[trigger] left.records[i]).offset < left.next_offset by {
        assert(part.records[n + i].offset < part.next_offset);
        if n > 0 {
            assert(part.records[n - 1].offset < part.records[n + i].offset);
        }
    }
}

/// All records of `parts`, in order.
pub open spec fn all_records(parts: Seq<BufferedModel>) -> Seq<ConsumerRecord>
    decreases parts.len(),
{
    if parts.len() == 0 {
        seq![]
    } else {
        parts[0].records + all_records(parts.skip(1))
    }
}

proof fn lemma_drain_loses_nothing(
    parts: Seq<BufferedModel>,
    max: nat,
    assigned: Set<PartitionKey>,
    out: Seq<ConsumerRecord>,
    offsets: Map<PartitionKey, i64>,
    positions: PositionMap,
)
    requires
        distinct_keys(parts),
        forall|i: int| 0 <= i < parts.len() ==> usable(#[trigger] parts[i], assigned, offsets),
    ensures
        ({
            let d = drained(parts, max, assigned, Set::empty(), out, offsets, positions);
            d.out + all_records(d.left) == out + all_records(parts)
        }),
    decreases parts.len(),
{
    let d = drained(parts, max, assigned, Set::empty(), out, offsets, positions);
    if parts.len() == 0 {
        assert(d.out + all_records(d.left) =~= out + all_records(parts));
    } else {
        let part = parts[0];
        let rest = parts.skip(1);
        let n = fitting(part, out.len(), max);
        let more = out + part.records.take(n);
        let moved = positions_after(positions, part, n);
        assert(usable(parts[0], assigned, offsets));
        assert(part.records =~= part.records.take(n) + part.records.skip(n));
        if n < part.records.len() {
            let left = seq![part.after(n)] + rest;
            assert(left.skip(1) =~= rest);
            assert(all_records(left) == part.records.skip(n) + all_records(rest));
            assert(d.out + all_records(d.left) =~= out + all_records(parts));
        } else {
            assert(part.records.take(n) =~= part.records);
            let ahead = offsets.insert(part.key, part.next_offset);
            if more.len() < max {
                assert(distinct_keys(rest)) by {
                    assert forall|a: int, b: int| 0 <= a < b < rest.len() implies (
                    #[trigger] rest[a]).key != (#[trigger] rest[b]).key by {
                        assert(parts[a + 1].key != parts[b + 1].key);
                    }
                }
                assert forall|i: int| 0 <= i < rest.len() implies usable(
                    #[trigger] rest[i],
                    assigned,
                    ahead,
                ) by {
                    assert(usable(parts[i + 1], assigned, offsets));
                    assert(parts[0].key != parts[i + 1].key);
                }
                lemma_drain_loses_nothing(rest, max, assigned, more, ahead, moved);
                assert(more + all_records(rest) =~= out + all_records(parts));
            } else {
                assert(d.out + all_records(d.left) =~= out + all_records(parts));
            }
        }
    }
}

/// Where every buffered partition is usable and none is paused, the records
/// that go out followed by the records that stay are the buffered records, in
/// the same order: none is lost, repeated or moved.
pub proof fn law_drain_loses_nothing(
    parts: Seq<BufferedModel>,
    max: nat,
    assigned: Set<PartitionKey>,
    offsets: Map<PartitionKey, i64>,
    positions: PositionMap,
)
    requires
        distinct_keys(parts),
        forall|i: int| 0 <= i < parts.len() ==> usable(#[trigger] parts[i], assigned, offsets),
    ensures
        ({
            let d = drained(parts, max, assigned, Set::empty(), seq![], offsets, positions);
            d.out + all_records(d.left) == all_records(parts)
        }),
{
    lemma_drain_loses_nothing(parts, max, assigned, seq![], offsets, positions);
    assert(Seq::<ConsumerRecord>::empty() + all_records(parts) =~= all_records(parts));
}

} // verus!
