//! Record batches of a fetch answer, and the records that `poll` returns.
use bytes::Bytes;
use vstd::prelude::*;

use crate::collections::{MapKey, SortedSet};
use crate::record_laws::{
    gives_readable, law_control_bit, law_every_returned_record_is_readable, law_timestamp_bit,
    law_transaction_bit,
};
use crate::text::Relation;

verus! {

/// An immutable buffer of bytes.
#[verifier::external_type_specification]
#[verifier::external_body]
pub struct ExBytes(Bytes);

/// The bytes that a buffer holds.
pub uninterp spec fn buffer_bytes(buffer: Bytes) -> Seq<u8>;

/// The `clone` of a `Bytes` buffer. What is claimed: the clone holds the same
/// bytes as the buffer.
pub assume_specification[ <Bytes as Clone>::clone ](buffer: &Bytes) -> (r: Bytes)
    ensures
        buffer_bytes(r) == buffer_bytes(*buffer),
;

/// The bytes of an optional buffer.
pub open spec fn optional_bytes(buffer: Option<Bytes>) -> Option<Seq<u8>> {
    match buffer {
        Some(b) => Some(buffer_bytes(b)),
        None => None,
    }
}

fn copy_optional(buffer: &Option<Bytes>) -> (r: Option<Bytes>)
    ensures
        optional_bytes(r) == optional_bytes(*buffer),
{
    match buffer {
        Some(b) => Some(b.clone()),
        None => None,
    }
}

/// The attribute bits of a record batch.
#[derive(Clone, Copy, Debug, Default, PartialEq, Eq, Structural)]
pub struct Attributes(pub i16);

/// What the timestamp of a record stands for.
#[derive(Clone, Copy, Debug, PartialEq, Eq, Structural)]
pub enum TimestampType {
    /// The producer set it.
    CreateTime,
    /// The broker set it when it appended the batch.
    LogAppendTime,
}

impl Attributes {
    /// Whether the bit of the timestamp type is set.
    pub open spec fn log_append_time(self) -> bool {
        self.0 & 0x08 != 0
    }

    /// Whether the batch belongs to a transaction.
    pub open spec fn transactional(self) -> bool {
        self.0 & 0x10 != 0
    }

    /// Whether the batch holds a commit or abort marker.
    pub open spec fn control(self) -> bool {
        self.0 & 0x20 != 0
    }

    /// What the timestamps of the batch stand for.
    pub open spec fn kind_of_time(self) -> TimestampType {
        if self.log_append_time() {
            TimestampType::LogAppendTime
        } else {
            TimestampType::CreateTime
        }
    }

    /// What the timestamps of the batch stand for.
    pub fn timestamp_type(self) -> (r: TimestampType)
        ensures
            r == self.kind_of_time(),
            r == TimestampType::LogAppendTime <==> ((self.0 as u16) / 8) % 2 == 1,
    {
        proof {
            law_timestamp_bit(self);
        }
        if self.0 & 0x08 != 0 {
            TimestampType::LogAppendTime
        } else {
            TimestampType::CreateTime
        }
    }

    /// Whether the batch belongs to a transaction.
    pub fn is_transactional(self) -> (r: bool)
        ensures
            r == self.transactional(),
            r <==> ((self.0 as u16) / 16) % 2 == 1,
    {
        proof {
            law_transaction_bit(self);
        }
        self.0 & 0x10 != 0
    }

    /// Whether the batch holds a commit or abort marker.
    pub fn is_control_batch(self) -> (r: bool)
        ensures
            r == self.control(),
            r <==> ((self.0 as u16) / 32) % 2 == 1,
    {
        proof {
            law_control_bit(self);
        }
        self.0 & 0x20 != 0
    }
}

/// A header of a record.
#[derive(Debug, PartialEq, Eq)]
pub struct Header {
    pub key: String,
    pub value: Option<Bytes>,
}

/// The model of a header.
pub type HeaderModel = (Seq<char>, Option<Seq<u8>>);

/// The models of headers.
pub open spec fn header_models(headers: Seq<Header>) -> Seq<HeaderModel> {
    Seq::new(headers.len(), |i: int| (headers[i].key@, optional_bytes(headers[i].value)))
}

/// One record of a batch.
#[derive(Debug, PartialEq, Eq)]
pub struct Record {
    pub timestamp_delta: i64,
    pub offset_delta: i32,
    pub key: Option<Bytes>,
    pub value: Option<Bytes>,
    pub headers: Vec<Header>,
}

/// A batch of records.
#[derive(Debug, PartialEq, Eq)]
pub struct RecordBatch {
    pub base_offset: i64,
    pub partition_leader_epoch: i32,
    pub attributes: Attributes,
    pub last_offset_delta: i32,
    pub base_timestamp: i64,
    pub max_timestamp: i64,
    pub producer_id: i64,
    pub records: Vec<Record>,
}

/// The records of one partition in a fetch answer.
#[derive(Debug, PartialEq, Eq)]
pub enum RecordsPayload {
    /// Record batches of the current format.
    V2(Vec<RecordBatch>),
    /// A message set of an older format, which the consumer skips.
    Legacy,
}

impl RecordsPayload {
    /// The record batches of the current format.
    pub fn as_v2(&self) -> (r: Option<&Vec<RecordBatch>>)
        ensures
            match *self {
                RecordsPayload::V2(batches) => r == Some(&batches),
                RecordsPayload::Legacy => r is None,
            },
    {
        match self {
            RecordsPayload::V2(batches) => Some(batches),
            RecordsPayload::Legacy => None,
        }
    }
}

/// A record that `poll` returns.
#[derive(Debug, PartialEq, Eq)]
pub struct ConsumerRecord {
    pub topic: String,
    pub partition: i32,
    pub offset: i64,
    pub leader_epoch: i32,
    pub timestamp: i64,
    pub timestamp_type: TimestampType,
    pub key: Option<Bytes>,
    pub value: Option<Bytes>,
    pub headers: Vec<Header>,
}

/// The model of a [`ConsumerRecord`].
pub struct RecordModel {
    pub topic: Seq<char>,
    pub partition: i32,
    pub offset: i64,
    pub leader_epoch: i32,
    pub timestamp: int,
    pub timestamp_type: TimestampType,
    pub key: Option<Seq<u8>>,
    pub value: Option<Seq<u8>>,
    pub headers: Seq<HeaderModel>,
}

impl View for ConsumerRecord {
    type V = RecordModel;

    open spec fn view(&self) -> RecordModel {
        RecordModel {
            topic: self.topic@,
            partition: self.partition,
            offset: self.offset,
            leader_epoch: self.leader_epoch,
            timestamp: self.timestamp as int,
            timestamp_type: self.timestamp_type,
            key: optional_bytes(self.key),
            value: optional_bytes(self.value),
            headers: header_models(self.headers@),
        }
    }
}

/// The models of records.
pub open spec fn record_models(records: Seq<ConsumerRecord>) -> Seq<RecordModel> {
    Seq::new(records.len(), |i: int| records[i]@)
}

/// The offset of a record in its partition.
pub fn record_offset(base_offset: i64, offset_delta: i32) -> (r: i64)
    requires
        i64::MIN <= base_offset + offset_delta <= i64::MAX,
    ensures
        r == base_offset + offset_delta,
{
    base_offset + offset_delta as i64
}

/// The time of a record: the append time of the whole batch where the broker
/// set it, the producer's time otherwise.
pub open spec fn time_of(batch: RecordBatch, record: Record) -> int {
    if batch.attributes.log_append_time() {
        batch.max_timestamp as int
    } else {
        batch.base_timestamp + record.timestamp_delta
    }
}

/// The timestamp and timestamp type of `record` in `batch`.
pub fn record_timestamp(batch: &RecordBatch, record: &Record) -> (r: (i64, TimestampType))
    requires
        i64::MIN <= time_of(*batch, *record) <= i64::MAX,
    ensures
        r.0 == time_of(*batch, *record),
        r.1 == batch.attributes.kind_of_time(),
{
    let timestamp_type = batch.attributes.timestamp_type();
    let timestamp: i64 = match timestamp_type {
        TimestampType::CreateTime => batch.base_timestamp + record.timestamp_delta,
        TimestampType::LogAppendTime => batch.max_timestamp,
    };
    (timestamp, timestamp_type)
}

/// A transaction that its producer aborted.
#[derive(Clone, Copy, Debug, PartialEq, Eq, Structural)]
pub struct AbortedTransaction {
    pub producer_id: i64,
    pub first_offset: i64,
}

/// Whether an aborted transaction starts at or before a batch.
pub fn aborted_txn_started(first_offset: i64, batch_base_offset: i64) -> (r: bool)
    ensures
        r == (first_offset <= batch_base_offset),
{
    first_offset <= batch_base_offset
}

/// Whether `read_committed` drops a batch for its aborted transaction.
pub fn should_drop_aborted_batch(
    read_committed: bool,
    is_transactional: bool,
    producer_is_aborted: bool,
) -> (r: bool)
    ensures
        r == (read_committed && is_transactional && producer_is_aborted),
{
    read_committed && is_transactional && producer_is_aborted
}

/// Whether batch `j` is the first batch at or after `first_offset`.
pub open spec fn starts_at(batches: Seq<RecordBatch>, first_offset: i64, j: int) -> bool {
    &&& 0 <= j < batches.len()
    &&& first_offset <= batches[j].base_offset
    &&& forall|m: int| 0 <= m < j ==> first_offset > (#[trigger] batches[m]).base_offset
}

/// Whether a marker of the producer stands among the batches `from..to`.
pub open spec fn marked_between(
    batches: Seq<RecordBatch>,
    producer: i64,
    from: int,
    to: int,
) -> bool {
    exists|m: int|
        from <= m < to && (#[trigger] batches[m]).attributes.control() && batches[m].producer_id
            == producer
}

/// Whether the transaction `aborted[k]` covers batch `i`: it started at batch
/// `j`, and no marker ended it before `i`.
pub open spec fn covers(
    batches: Seq<RecordBatch>,
    aborted: Seq<AbortedTransaction>,
    k: int,
    j: int,
    i: int,
) -> bool {
    &&& 0 <= k < aborted.len()
    &&& 0 <= j <= i
    &&& starts_at(batches, aborted[k].first_offset, j)
    &&& !marked_between(batches, aborted[k].producer_id, j, i)
}

/// Whether the producer has an open aborted transaction at batch `i`.
pub open spec fn producer_aborted(
    batches: Seq<RecordBatch>,
    aborted: Seq<AbortedTransaction>,
    producer: i64,
    i: int,
) -> bool {
    exists|k: int, j: int| #[trigger]
        covers(batches, aborted, k, j, i) && aborted[k].producer_id == producer
}

/// Whether the records of batch `i` go to the application: those of a marker
/// never, and those of an aborted transaction not under `read_committed`.
pub open spec fn batch_returned(
    batches: Seq<RecordBatch>,
    aborted: Seq<AbortedTransaction>,
    read_committed: bool,
    i: int,
) -> bool {
    &&& !batches[i].attributes.control()
    &&& !(read_committed && batches[i].attributes.transactional() && producer_aborted(
        batches,
        aborted,
        batches[i].producer_id,
        i,
    ))
}

/// The consumer record of `record` in `batch`.
pub open spec fn record_model(
    batch: RecordBatch,
    record: Record,
    topic: Seq<char>,
    partition: i32,
) -> RecordModel {
    RecordModel {
        topic,
        partition,
        offset: (batch.base_offset + record.offset_delta) as i64,
        leader_epoch: batch.partition_leader_epoch,
        timestamp: time_of(batch, record),
        timestamp_type: batch.attributes.kind_of_time(),
        key: optional_bytes(record.key),
        value: optional_bytes(record.value),
        headers: header_models(record.headers@),
    }
}

/// The first `n` records of a batch that do not lie below `floor`, in order.
pub open spec fn batch_records(
    batch: RecordBatch,
    n: int,
    floor: i64,
    topic: Seq<char>,
    partition: i32,
) -> Seq<RecordModel>
    decreases n,
{
    if n <= 0 {
        seq![]
    } else {
        let before = batch_records(batch, n - 1, floor, topic, partition);
        let record = batch.records@[n - 1];
        if batch.base_offset + record.offset_delta < floor {
            before
        } else {
            before.push(record_model(batch, record, topic, partition))
        }
    }
}

/// The records that the first `n` batches give to the application, in order.
pub open spec fn returned_records(
    batches: Seq<RecordBatch>,
    aborted: Seq<AbortedTransaction>,
    read_committed: bool,
    n: int,
    floor: i64,
    topic: Seq<char>,
    partition: i32,
) -> Seq<RecordModel>
    decreases n,
{
    if n <= 0 {
        seq![]
    } else {
        let before = returned_records(
            batches,
            aborted,
            read_committed,
            n - 1,
            floor,
            topic,
            partition,
        );
        if batch_returned(batches, aborted, read_committed, n - 1) {
            before + batch_records(
                batches[n - 1],
                batches[n - 1].records@.len() as int,
                floor,
                topic,
                partition,
            )
        } else {
            before
        }
    }
}

/// Whether record `r` of batch `b` goes to the application: its batch does, and
/// the record does not lie below `floor`.
pub open spec fn record_returned(
    batches: Seq<RecordBatch>,
    aborted: Seq<AbortedTransaction>,
    read_committed: bool,
    floor: i64,
    b: int,
    r: int,
) -> bool {
    &&& 0 <= b < batches.len()
    &&& 0 <= r < batches[b].records@.len()
    &&& batch_returned(batches, aborted, read_committed, b)
    &&& batches[b].base_offset + batches[b].records@[r].offset_delta >= floor
}

/// Whether a record is one of those that go to the application from the first
/// `n` batches.
pub open spec fn is_returned(
    model: RecordModel,
    batches: Seq<RecordBatch>,
    aborted: Seq<AbortedTransaction>,
    read_committed: bool,
    n: int,
    floor: i64,
    topic: Seq<char>,
    partition: i32,
) -> bool {
    exists|b: int, r: int| #[trigger]
        record_returned(batches, aborted, read_committed, floor, b, r) && b < n && model
            == record_model(batches[b], batches[b].records@[r], topic, partition)
}

/// Whether a record is one of the first `n` of a batch and does not lie below
/// `floor`.
spec fn in_batch(
    model: RecordModel,
    batch: RecordBatch,
    n: int,
    floor: i64,
    topic: Seq<char>,
    partition: i32,
) -> bool {
    exists|r: int|
        0 <= r < n && batch.base_offset + (#[trigger] batch.records@[r]).offset_delta >= floor
            && model == record_model(batch, batch.records@[r], topic, partition)
}

proof fn lemma_batch_records(
    batch: RecordBatch,
    n: int,
    floor: i64,
    topic: Seq<char>,
    partition: i32,
)
    requires
        0 <= n <= batch.records@.len(),
    ensures
        forall|i: int|
            0 <= i < batch_records(batch, n, floor, topic, partition).len() ==> in_batch(
                #[trigger] batch_records(batch, n, floor, topic, partition)[i],
                batch,
                n,
                floor,
                topic,
                partition,
            ),
        forall|r: int|
            0 <= r < n && batch.base_offset + (#[trigger] batch.records@[r]).offset_delta >= floor
                ==> batch_records(batch, n, floor, topic, partition).contains(
                record_model(batch, batch.records@[r], topic, partition),
            ),
    decreases n,
{
    if n > 0 {
        lemma_batch_records(batch, n - 1, floor, topic, partition);
        let before = batch_records(batch, n - 1, floor, topic, partition);
        let all = batch_records(batch, n, floor, topic, partition);
        assert forall|i: int| 0 <= i < all.len() implies in_batch(
            #[trigger] all[i],
            batch,
            n,
            floor,
            topic,
            partition,
        ) by {
            if i < before.len() {
                assert(all[i] == before[i]);
                assert(in_batch(before[i], batch, n - 1, floor, topic, partition));
                let r = choose|r: int|
                    0 <= r < n - 1 && batch.base_offset + (
                    #[trigger] batch.records@[r]).offset_delta >= floor && before[i]
                        == record_model(batch, batch.records@[r], topic, partition);
                assert(all[i] == record_model(batch, batch.records@[r], topic, partition));
            } else {
                assert(all[i] == record_model(batch, batch.records@[n - 1], topic, partition));
            }
        }
        assert forall|r: int|
            0 <= r < n && batch.base_offset + (#[trigger] batch.records@[r]).offset_delta
                >= floor implies all.contains(
            record_model(batch, batch.records@[r], topic, partition),
        ) by {
            let model = record_model(batch, batch.records@[r], topic, partition);
            if r < n - 1 {
                assert(before.contains(model));
                let i = choose|i: int| 0 <= i < before.len() && before[i] == model;
                assert(all[i] == model);
            } else {
                assert(all[all.len() - 1] == model);
            }
        }
    }
}

proof fn lemma_returned_records(
    batches: Seq<RecordBatch>,
    aborted: Seq<AbortedTransaction>,
    read_committed: bool,
    n: int,
    floor: i64,
    topic: Seq<char>,
    partition: i32,
)
    requires
        0 <= n <= batches.len(),
    ensures
        forall|i: int|
            0 <= i < returned_records(
                batches,
                aborted,
                read_committed,
                n,
                floor,
                topic,
                partition,
            ).len() ==> is_returned(
                #[trigger] returned_records(
                    batches,
                    aborted,
                    read_committed,
                    n,
                    floor,
                    topic,
                    partition,
                )[i],
                batches,
                aborted,
                read_committed,
                n,
                floor,
                topic,
                partition,
            ),
        forall|b: int, r: int|
            b < n && #[trigger] record_returned(batches, aborted, read_committed, floor, b, r)
                ==> returned_records(
                batches,
                aborted,
                read_committed,
                n,
                floor,
                topic,
                partition,
            ).contains(record_model(batches[b], batches[b].records@[r], topic, partition)),
    decreases n,
{
    if n > 0 {
        lemma_returned_records(batches, aborted, read_committed, n - 1, floor, topic, partition);
        let before = returned_records(
            batches,
            aborted,
            read_committed,
            n - 1,
            floor,
            topic,
            partition,
        );
        let all = returned_records(batches, aborted, read_committed, n, floor, topic, partition);
        let batch = batches[n - 1];
        let len = batch.records@.len() as int;
        lemma_batch_records(batch, len, floor, topic, partition);
        let own = batch_records(batch, len, floor, topic, partition);
        assert forall|i: int| 0 <= i < all.len() implies is_returned(
            #[trigger] all[i],
            batches,
            aborted,
            read_committed,
            n,
            floor,
            topic,
            partition,
        ) by {
            if i < before.len() {
                assert(all[i] == before[i]);
                let (b, r) = choose|b: int, r: int| #[trigger]
                    record_returned(batches, aborted, read_committed, floor, b, r) && b < n - 1
                        && before[i] == record_model(
                        batches[b],
                        batches[b].records@[r],
                        topic,
                        partition,
                    );
                assert(record_returned(batches, aborted, read_committed, floor, b, r));
            } else {
                let k = i - before.len();
                assert(all[i] == own[k]);
                assert(in_batch(own[k], batch, len, floor, topic, partition));
                let r = choose|r: int|
                    0 <= r < len && batch.base_offset + (#[trigger] batch.records@[r]).offset_delta
                        >= floor && own[k] == record_model(
                        batch,
                        batch.records@[r],
                        topic,
                        partition,
                    );
                assert(record_returned(batches, aborted, read_committed, floor, n - 1, r));
            }
        }
        assert forall|b: int, r: int|
            b < n && #[trigger] record_returned(
                batches,
                aborted,
                read_committed,
                floor,
                b,
                r,
            ) implies all.contains(
            record_model(batches[b], batches[b].records@[r], topic, partition),
        ) by {
            let model = record_model(batches[b], batches[b].records@[r], topic, partition);
            if b < n - 1 {
                assert(before.contains(model));
                let i = choose|i: int| 0 <= i < before.len() && before[i] == model;
                assert(all[i] == model);
            } else {
                assert(own.contains(model));
                let i = choose|i: int| 0 <= i < own.len() && own[i] == model;
                assert(all[before.len() + i] == model);
            }
        }
    }
}

/// The application gets no record below its position, none of a marker and,
/// under `read_committed`, none of an aborted transaction; and it gets every
/// other record.
pub proof fn law_exactly_the_readable_records_are_returned(
    batches: Seq<RecordBatch>,
    aborted: Seq<AbortedTransaction>,
    read_committed: bool,
    floor: i64,
    topic: Seq<char>,
    partition: i32,
    model: RecordModel,
)
    ensures
        returned_records(
            batches,
            aborted,
            read_committed,
            batches.len() as int,
            floor,
            topic,
            partition,
        ).contains(model) <==> is_returned(
            model,
            batches,
            aborted,
            read_committed,
            batches.len() as int,
            floor,
            topic,
            partition,
        ),
{
    let n = batches.len() as int;
    lemma_returned_records(batches, aborted, read_committed, n, floor, topic, partition);
    let all = returned_records(batches, aborted, read_committed, n, floor, topic, partition);
    if all.contains(model) {
        let i = choose|i: int| 0 <= i < all.len() && all[i] == model;
        assert(is_returned(
            all[i],
            batches,
            aborted,
            read_committed,
            n,
            floor,
            topic,
            partition,
        ));
    }
}

/// Whether the offsets and times of a batch fit their types, with room for the
/// offset after each record and after the batch.
pub open spec fn batch_in_range(batch: RecordBatch) -> bool {
    &&& i64::MIN <= batch.base_offset + batch.last_offset_delta
    &&& batch.base_offset + batch.last_offset_delta < i64::MAX
    &&& forall|i: int|
        0 <= i < batch.records@.len() ==> {
            let record = #[trigger] batch.records@[i];
            &&& i64::MIN <= batch.base_offset + record.offset_delta < i64::MAX
            &&& i64::MIN <= time_of(batch, record) <= i64::MAX
        }
}

/// Whether the offsets and times of every batch fit their types.
pub open spec fn batches_in_range(batches: Seq<RecordBatch>) -> bool {
    forall|i: int| 0 <= i < batches.len() ==> batch_in_range(#[trigger] batches[i])
}

/// Whether the offsets and times of a batch fit their types.
pub fn is_batch_in_range(batch: &RecordBatch) -> (r: bool)
    ensures
        r == batch_in_range(*batch),
{
    let base: i128 = batch.base_offset as i128;
    let end: i128 = base + batch.last_offset_delta as i128;
    if end < i64::MIN as i128 || end >= i64::MAX as i128 {
        return false;
    }
    let create_time = batch.attributes.timestamp_type() == TimestampType::CreateTime;
    let mut i: usize = 0;
    while i < batch.records.len()
        invariant
            i <= batch.records.len(),
            base == batch.base_offset,
            create_time == !batch.attributes.log_append_time(),
            forall|j: int|
                0 <= j < i ==> {
                    let record = #[trigger] batch.records@[j];
                    &&& i64::MIN <= batch.base_offset + record.offset_delta < i64::MAX
                    &&& i64::MIN <= time_of(*batch, record) <= i64::MAX
                },
        decreases batch.records.len() - i,
    {
        let record = &batch.records[i];
        let offset: i128 = base + record.offset_delta as i128;
        if offset < i64::MIN as i128 || offset >= i64::MAX as i128 {
            assert(!(i64::MIN <= batch.base_offset + batch.records@[i as int].offset_delta
                < i64::MAX));
            return false;
        }
        if create_time {
            let time: i128 = batch.base_timestamp as i128 + record.timestamp_delta as i128;
            if time < i64::MIN as i128 || time > i64::MAX as i128 {
                assert(!(i64::MIN <= time_of(*batch, batch.records@[i as int]) <= i64::MAX));
                return false;
            }
        }
        i = i + 1;
    }
    true
}

/// Whether the offsets and times of every batch fit their types.
pub fn are_batches_in_range(batches: &Vec<RecordBatch>) -> (r: bool)
    ensures
        r == batches_in_range(batches@),
{
    let mut i: usize = 0;
    while i < batches.len()
        invariant
            i <= batches.len(),
            forall|j: int| 0 <= j < i ==> batch_in_range(#[trigger] batches@[j]),
        decreases batches.len() - i,
    {
        if !is_batch_in_range(&batches[i]) {
            assert(!batch_in_range(batches@[i as int]));
            return false;
        }
        i = i + 1;
    }
    true
}

/// Whether batches stand in offset order, and the records of each within its
/// offsets.
pub open spec fn batches_ordered(batches: Seq<RecordBatch>) -> bool {
    &&& forall|b: int|
        0 <= b < batches.len() ==> 0 <= (#[trigger] batches[b]).last_offset_delta
    &&& forall|b: int, r: int|
        0 <= b < batches.len() && 0 <= r < batches[b].records@.len() ==> 0 <= (
        #[trigger] batches[b].records@[r]).offset_delta <= batches[b].last_offset_delta
    &&& forall|b: int, r: int, s: int|
        0 <= b < batches.len() && 0 <= r < s < batches[b].records@.len() ==> (
        #[trigger] batches[b].records@[r]).offset_delta < (
        #[trigger] batches[b].records@[s]).offset_delta
    &&& forall|a: int, b: int|
        0 <= a < b < batches.len() ==> (#[trigger] batches[a]).base_offset
            + batches[a].last_offset_delta < (#[trigger] batches[b]).base_offset
}

/// Whether records stand in offset order within `from..=to`.
pub open spec fn in_offset_order(records: Seq<RecordModel>, from: int, to: int) -> bool {
    &&& forall|i: int, j: int|
        0 <= i < j < records.len() ==> (#[trigger] records[i]).offset < (
        #[trigger] records[j]).offset
    &&& forall|i: int|
        0 <= i < records.len() ==> from <= (#[trigger] records[i]).offset <= to
}

proof fn lemma_batch_in_order(
    batches: Seq<RecordBatch>,
    b: int,
    n: int,
    floor: i64,
    topic: Seq<char>,
    partition: i32,
)
    requires
        batches_ordered(batches),
        batches_in_range(batches),
        0 <= b < batches.len(),
        0 <= n <= batches[b].records@.len(),
    ensures
        in_offset_order(
            batch_records(batches[b], n, floor, topic, partition),
            floor as int,
            if n > 0 {
                batches[b].base_offset + batches[b].records@[n - 1].offset_delta
            } else {
                batches[b].base_offset - 1
            },
        ),
        in_offset_order(
            batch_records(batches[b], n, floor, topic, partition),
            batches[b].base_offset as int,
            batches[b].base_offset + batches[b].last_offset_delta,
        ),
    decreases n,
{
    let batch = batches[b];
    if n > 0 {
        lemma_batch_in_order(batches, b, n - 1, floor, topic, partition);
        assert(batch_in_range(batches[b]));
        let record = batch.records@[n - 1];
        if n > 1 {
            assert(batch.records@[n - 2].offset_delta < record.offset_delta);
        }
    }
}

/// The records of batches in offset order stand in offset order, from `floor`
/// on and before the offset after the last batch.
pub proof fn law_returned_records_are_in_offset_order(
    batches: Seq<RecordBatch>,
    aborted: Seq<AbortedTransaction>,
    read_committed: bool,
    n: int,
    floor: i64,
    topic: Seq<char>,
    partition: i32,
)
    requires
        batches_ordered(batches),
        batches_in_range(batches),
        0 < n <= batches.len(),
    ensures
        in_offset_order(
            returned_records(batches, aborted, read_committed, n, floor, topic, partition),
            floor as int,
            batches[n - 1].base_offset + batches[n - 1].last_offset_delta,
        ),
    decreases n,
{
    let batch = batches[n - 1];
    let len = batch.records@.len() as int;
    lemma_batch_in_order(batches, n - 1, len, floor, topic, partition);
    let own = batch_records(batch, len, floor, topic, partition);
    let all = returned_records(batches, aborted, read_committed, n, floor, topic, partition);
    let before = returned_records(
        batches,
        aborted,
        read_committed,
        n - 1,
        floor,
        topic,
        partition,
    );
    if n > 1 {
        law_returned_records_are_in_offset_order(
            batches,
            aborted,
            read_committed,
            n - 1,
            floor,
            topic,
            partition,
        );
        assert(batches[n - 2].base_offset + batches[n - 2].last_offset_delta < batch.base_offset);
    }
    let last = batch.base_offset + batch.last_offset_delta;
    assert(batches[n - 1].last_offset_delta >= 0);
    if all != before {
        assert(all =~= before + own);
        assert forall|i: int, j: int| 0 <= i < j < all.len() implies (#[trigger] all[i]).offset < (
        #[trigger] all[j]).offset by {
            if j < before.len() {
                assert(before[i].offset < before[j].offset);
            } else if i >= before.len() {
                assert(own[i - before.len()].offset < own[j - before.len()].offset);
            } else {
                assert(all[i] == before[i]);
                assert(all[j] == own[j - before.len()]);
                assert(own[j - before.len()].offset >= batch.base_offset);
            }
        }
        assert forall|i: int| 0 <= i < all.len() implies floor <= (#[trigger] all[i]).offset
            <= last by {
            if i < before.len() {
                assert(before[i].offset >= floor);
            } else {
                assert(own[i - before.len()].offset >= floor);
            }
        }
    }
}

/// One past the last offset of any of `batches`, which has one.
pub open spec fn highest_end(batches: Seq<RecordBatch>) -> int
    decreases batches.len(),
{
    let end = batches.last().base_offset + batches.last().last_offset_delta + 1;
    if batches.len() <= 1 {
        end
    } else {
        let before = highest_end(batches.drop_last());
        if before < end {
            end
        } else {
            before
        }
    }
}

/// The highest leader epoch of any of `batches`, which has one.
pub open spec fn highest_epoch(batches: Seq<RecordBatch>) -> i32
    decreases batches.len(),
{
    let epoch = batches.last().partition_leader_epoch;
    if batches.len() <= 1 {
        epoch
    } else {
        let before = highest_epoch(batches.drop_last());
        if before < epoch {
            epoch
        } else {
            before
        }
    }
}

/// The offset to fetch next after `batches`: one past the last offset of any
/// of them, or `None` without a batch.
///
/// It lies past the markers and the aborted batches, which give no records.
pub fn next_offset_after(batches: &Vec<RecordBatch>) -> (r: Option<i64>)
    requires
        batches_in_range(batches@),
    ensures
        r is None <==> batches@.len() == 0,
        r matches Some(next) ==> {
            &&& next == highest_end(batches@)
            &&& exists|i: int|
                0 <= i < batches@.len() && next == (#[trigger] batches@[i]).base_offset
                    + batches@[i].last_offset_delta + 1
            &&& forall|i: int|
                0 <= i < batches@.len() ==> next >= (#[trigger] batches@[i]).base_offset
                    + batches@[i].last_offset_delta + 1
        },
{
    let mut highest: Option<i64> = None;
    let mut i: usize = 0;
    while i < batches.len()
        invariant
            i <= batches.len(),
            batches_in_range(batches@),
            highest is None <==> i == 0,
            highest matches Some(next) ==> {
                &&& next == highest_end(batches@.take(i as int))
                &&& exists|j: int|
                    0 <= j < i && next == (#[trigger] batches@[j]).base_offset
                        + batches@[j].last_offset_delta + 1
                &&& forall|j: int|
                    0 <= j < i ==> next >= (#[trigger] batches@[j]).base_offset
                        + batches@[j].last_offset_delta + 1
            },
        decreases batches.len() - i,
    {
        assert(batch_in_range(batches@[i as int]));
        let end: i64 = batches[i].base_offset + batches[i].last_offset_delta as i64 + 1;
        assert(batches@.take(i + 1).drop_last() =~= batches@.take(i as int));
        highest = match highest {
            Some(next) => if next < end {
                Some(end)
            } else {
                Some(next)
            },
            None => Some(end),
        };
        i = i + 1;
    }
    assert(batches@.take(i as int) =~= batches@);
    highest
}

/// The highest leader epoch of `batches`, or `None` without a batch.
pub fn highest_leader_epoch(batches: &Vec<RecordBatch>) -> (r: Option<i32>)
    ensures
        r is None <==> batches@.len() == 0,
        r matches Some(epoch) ==> {
            &&& epoch == highest_epoch(batches@)
            &&& exists|i: int|
                0 <= i < batches@.len() && epoch == (#[trigger] batches@[i]).partition_leader_epoch
            &&& forall|i: int|
                0 <= i < batches@.len() ==> epoch >= (#[trigger] batches@[i]).partition_leader_epoch
        },
{
    let mut highest: Option<i32> = None;
    let mut i: usize = 0;
    while i < batches.len()
        invariant
            i <= batches.len(),
            highest is None <==> i == 0,
            highest matches Some(epoch) ==> {
                &&& epoch == highest_epoch(batches@.take(i as int))
                &&& exists|j: int|
                    0 <= j < i && epoch == (#[trigger] batches@[j]).partition_leader_epoch
                &&& forall|j: int|
                    0 <= j < i ==> epoch >= (#[trigger] batches@[j]).partition_leader_epoch
            },
        decreases batches.len() - i,
    {
        let epoch: i32 = batches[i].partition_leader_epoch;
        assert(batches@.take(i + 1).drop_last() =~= batches@.take(i as int));
        highest = match highest {
            Some(found) => if found < epoch {
                Some(epoch)
            } else {
                Some(found)
            },
            None => Some(epoch),
        };
        i = i + 1;
    }
    assert(batches@.take(i as int) =~= batches@);
    highest
}

fn copy_headers(headers: &Vec<Header>) -> (r: Vec<Header>)
    ensures
        header_models(r@) == header_models(headers@),
{
    let mut r: Vec<Header> = Vec::new();
    let mut i: usize = 0;
    while i < headers.len()
        invariant
            i <= headers.len(),
            header_models(r@) =~= header_models(headers@).take(i as int),
        decreases headers.len() - i,
    {
        let header = Header {
            key: headers[i].key.clone(),
            value: copy_optional(&headers[i].value),
        };
        let ghost had = r@;
        r.push(header);
        proof {
            assert(header_models(r@) =~= header_models(had).push(
                (header.key@, optional_bytes(header.value)),
            ));
            assert(header_models(headers@).take(i + 1) =~= header_models(headers@).take(
                i as int,
            ).push(header_models(headers@)[i as int]));
        }
        i = i + 1;
    }
    assert(header_models(headers@).take(i as int) =~= header_models(headers@));
    r
}

/// Adds the records of a batch at or above `floor` to `out`.
fn push_batch_records(
    out: &mut Vec<ConsumerRecord>,
    batch: &RecordBatch,
    floor: i64,
    topic: &str,
    partition: i32,
)
    requires
        batch_in_range(*batch),
    ensures
        record_models(final(out)@) == record_models(old(out)@) + batch_records(
            *batch,
            batch.records@.len() as int,
            floor,
            topic@,
            partition,
        ),
        forall|i: int|
            old(out)@.len() <= i < final(out)@.len() ==> (#[trigger] final(out)@[i]).offset
                < i64::MAX,
        final(out)@.len() >= old(out)@.len(),
        final(out)@.take(old(out)@.len() as int) == old(out)@,
{
    let mut i: usize = 0;
    let ghost had = out@;
    assert(record_models(out@) + batch_records(*batch, 0, floor, topic@, partition)
        =~= record_models(out@));
    assert(out@.take(had.len() as int) =~= had);
    while i < batch.records.len()
        invariant
            i <= batch.records.len(),
            batch_in_range(*batch),
            record_models(out@) == record_models(had) + batch_records(
                *batch,
                i as int,
                floor,
                topic@,
                partition,
            ),
            out@.len() >= had.len(),
            out@.take(had.len() as int) == had,
            forall|j: int| had.len() <= j < out@.len() ==> (#[trigger] out@[j]).offset < i64::MAX,
        decreases batch.records.len() - i,
    {
        let r = &batch.records[i];
        let offset = record_offset(batch.base_offset, r.offset_delta);
        if offset < floor {
            i = i + 1;
            continue ;
        }
        let (timestamp, timestamp_type) = record_timestamp(batch, r);
        let record = ConsumerRecord {
            topic: topic.to_owned(),
            partition,
            offset,
            leader_epoch: batch.partition_leader_epoch,
            timestamp,
            timestamp_type,
            key: copy_optional(&r.key),
            value: copy_optional(&r.value),
            headers: copy_headers(&r.headers),
        };
        let ghost before = out@;
        out.push(record);
        proof {
            assert(record@ == record_model(*batch, batch.records@[i as int], topic@, partition));
            assert(record_models(out@) =~= record_models(before).push(record@));
            assert(record_models(out@) =~= record_models(had) + batch_records(
                *batch,
                i + 1,
                floor,
                topic@,
                partition,
            ));
            assert(out@.take(had.len() as int) =~= before.take(had.len() as int));
        }
        i = i + 1;
    }
}

impl MapKey for i64 {
    open spec fn before(a: i64, b: i64) -> bool {
        a < b
    }

    proof fn before_irreflexive(a: i64) {
    }

    proof fn before_transitive(a: i64, b: i64, c: i64) {
    }

    fn compare(&self, other: &Self) -> (r: Relation) {
        if *self < *other {
            Relation::Before
        } else if *self == *other {
            Relation::Same
        } else {
            Relation::After
        }
    }

    fn duplicate(&self) -> (r: Self) {
        *self
    }
}

impl MapKey for (i64, i64) {
    open spec fn before(a: (i64, i64), b: (i64, i64)) -> bool {
        a.0 < b.0 || (a.0 == b.0 && a.1 < b.1)
    }

    proof fn before_irreflexive(a: (i64, i64)) {
    }

    proof fn before_transitive(a: (i64, i64), b: (i64, i64), c: (i64, i64)) {
    }

    fn compare(&self, other: &Self) -> (r: Relation) {
        if self.0 < other.0 {
            Relation::Before
        } else if self.0 > other.0 {
            Relation::After
        } else if self.1 < other.1 {
            Relation::Before
        } else if self.1 == other.1 {
            Relation::Same
        } else {
            Relation::After
        }
    }

    fn duplicate(&self) -> (r: Self) {
        *self
    }
}

/// The aborted transactions as first offset and producer.
pub open spec fn abort_starts(aborted: Seq<AbortedTransaction>) -> Set<(i64, i64)> {
    Set::new(
        |e: (i64, i64)|
            exists|k: int|
                0 <= k < aborted.len() && (#[trigger] aborted[k]).first_offset == e.0
                    && aborted[k].producer_id == e.1,
    )
}

/// The aborted transactions in order of their first offsets.
fn sorted_aborts(aborted: &Vec<AbortedTransaction>) -> (r: SortedSet<(i64, i64)>)
    ensures
        r@ == abort_starts(aborted@),
{
    let mut r: SortedSet<(i64, i64)> = SortedSet::new();
    let mut i: usize = 0;
    assert(r@ =~= abort_starts(aborted@.take(0)));
    while i < aborted.len()
        invariant
            i <= aborted.len(),
            r@ == abort_starts(aborted@.take(i as int)),
        decreases aborted.len() - i,
    {
        let ghost had = aborted@.take(i as int);
        let ghost next = aborted@.take(i + 1);
        let ghost before = r@;
        let entry = (aborted[i].first_offset, aborted[i].producer_id);
        r.insert(entry);
        proof {
            assert forall|e: (i64, i64)| abort_starts(next).contains(e) <==> #[trigger]
                before.insert(entry).contains(e) by {
                if before.contains(e) {
                    let k = choose|k: int|
                        0 <= k < had.len() && (#[trigger] had[k]).first_offset == e.0
                            && had[k].producer_id == e.1;
                    assert(next[k] == had[k]);
                }
                assert(next[i as int] == aborted@[i as int]);
                if abort_starts(next).contains(e) {
                    let k = choose|k: int|
                        0 <= k < next.len() && (#[trigger] next[k]).first_offset == e.0
                            && next[k].producer_id == e.1;
                    if k < i {
                        assert(had[k] == next[k]);
                    }
                }
            }
            assert(r@ =~= abort_starts(next));
        }
        i = i + 1;
    }
    assert(aborted@.take(i as int) =~= aborted@);
    r
}

/// Whether the producer has an aborted transaction that started before batch
/// `i` and is still open there.
spec fn open_before(
    batches: Seq<RecordBatch>,
    aborted: Seq<AbortedTransaction>,
    producer: i64,
    i: int,
) -> bool {
    exists|k: int, j: int| #[trigger]
        covers(batches, aborted, k, j, i) && j < i && aborted[k].producer_id == producer
}

/// The transactions up to `cursor` started before batch `i`, the others did not.
spec fn cursor_at(batches: Seq<RecordBatch>, items: Seq<(i64, i64)>, cursor: int, i: int) -> bool {
    &&& 0 <= cursor <= items.len()
    &&& forall|a: int|
        0 <= a < cursor ==> exists|m: int|
            0 <= m < i && (#[trigger] items[a]).0 <= (#[trigger] batches[m]).base_offset
    &&& forall|a: int, m: int|
        cursor <= a < items.len() && 0 <= m < i ==> (#[trigger] items[a]).0 > (
        #[trigger] batches[m]).base_offset
}

/// Adds the producers of the transactions that start at batch `i`.
fn start_aborts(
    batches: &Vec<RecordBatch>,
    aborted: &Vec<AbortedTransaction>,
    starts: &SortedSet<(i64, i64)>,
    cursor: usize,
    producers: &mut SortedSet<i64>,
    i: usize,
) -> (r: usize)
    requires
        i < batches@.len(),
        starts@ == abort_starts(aborted@),
        cursor_at(batches@, starts.items(), cursor as int, i as int),
        forall|p: i64| #[trigger]
            old(producers)@.contains(p) <==> open_before(batches@, aborted@, p, i as int),
    ensures
        cursor_at(batches@, starts.items(), r as int, i + 1),
        forall|p: i64| #[trigger]
            final(producers)@.contains(p) <==> producer_aborted(batches@, aborted@, p, i as int),
{
    let n = starts.len();
    let base: i64 = batches[i].base_offset;
    let ghost items = starts.items();
    let ghost had = producers@;
    let mut next: usize = cursor;
    while next < n && aborted_txn_started(starts.at(next).0, base)
        invariant
            n == items.len(),
            items == starts.items(),
            starts.items_listed(),
            cursor <= next <= n,
            forall|a: int| cursor <= a < next ==> (#[trigger] items[a]).0 <= base,
            forall|p: i64| #[trigger]
                producers@.contains(p) <==> had.contains(p) || exists|a: int|
                    cursor <= a < next && (#[trigger] items[a]).1 == p,
        decreases n - next,
    {
        let ghost before = producers@;
        let ghost entry = items[next as int];
        producers.insert(starts.at(next).1);
        proof {
            assert forall|p: i64| #[trigger] producers@.contains(p) <==> had.contains(p)
                || exists|a: int| cursor <= a < next + 1 && (#[trigger] items[a]).1 == p by {
                if before.contains(p) && !had.contains(p) {
                    let a = choose|a: int| cursor <= a < next && (#[trigger] items[a]).1 == p;
                    assert(items[a].1 == p);
                }
                assert(items[next as int].1 == entry.1);
            }
        }
        next = next + 1;
    }
    proof {
        if next < n {
            assert forall|a: int| next <= a < n implies (#[trigger] items[a]).0 > base by {
                if a > next {
                    assert(<(i64, i64) as MapKey>::before(items[next as int], items[a]));
                }
            }
        }
        assert forall|a: int| 0 <= a < next implies exists|m: int|
            0 <= m < i + 1 && (#[trigger] items[a]).0 <= (#[trigger] batches@[m]).base_offset by {
            if a < cursor {
                let m = choose|m: int|
                    0 <= m < i && items[a].0 <= (#[trigger] batches@[m]).base_offset;
                assert(items[a].0 <= batches@[m].base_offset);
            } else {
                assert(items[a].0 <= batches@[i as int].base_offset);
            }
        }
        assert forall|p: i64| #[trigger] producers@.contains(p) <==> producer_aborted(
            batches@,
            aborted@,
            p,
            i as int,
        ) by {
            if had.contains(p) {
                let (k, j) = choose|k: int, j: int| #[trigger]
                    covers(batches@, aborted@, k, j, i as int) && j < i && aborted@[k].producer_id
                        == p;
                assert(covers(batches@, aborted@, k, j, i as int));
            } else if producers@.contains(p) {
                let a = choose|a: int| cursor <= a < next && (#[trigger] items[a]).1 == p;
                assert(items.contains(items[a]));
                let e = items[a];
                let k = choose|k: int|
                    0 <= k < aborted@.len() && (#[trigger] aborted@[k]).first_offset == e.0
                        && aborted@[k].producer_id == e.1;
                assert(starts_at(batches@, aborted@[k].first_offset, i as int));
                assert(covers(batches@, aborted@, k, i as int, i as int));
            }
            if producer_aborted(batches@, aborted@, p, i as int) {
                let (k, j) = choose|k: int, j: int| #[trigger]
                    covers(batches@, aborted@, k, j, i as int) && aborted@[k].producer_id == p;
                if j < i {
                    assert(open_before(batches@, aborted@, p, i as int));
                } else {
                    let e = (aborted@[k].first_offset, aborted@[k].producer_id);
                    assert(starts@.contains(e));
                    assert(items.contains(e));
                    let a = choose|a: int| 0 <= a < items.len() && items[a] == e;
                    if a < cursor {
                        let m = choose|m: int|
                            0 <= m < i && items[a].0 <= (#[trigger] batches@[m]).base_offset;
                        assert(false);
                    }
                    assert(items[a].1 == p);
                }
            }
        }
    }
    next
}

proof fn lemma_open_after(
    batches: Seq<RecordBatch>,
    aborted: Seq<AbortedTransaction>,
    producer: i64,
    i: int,
)
    requires
        0 <= i < batches.len(),
    ensures
        open_before(batches, aborted, producer, i + 1) <==> producer_aborted(
            batches,
            aborted,
            producer,
            i,
        ) && !(batches[i].attributes.control() && batches[i].producer_id == producer),
{
    if open_before(batches, aborted, producer, i + 1) {
        let (k, j) = choose|k: int, j: int| #[trigger]
            covers(batches, aborted, k, j, i + 1) && j < i + 1 && aborted[k].producer_id
                == producer;
        if marked_between(batches, producer, j, i) {
            let m = choose|m: int|
                j <= m < i && (#[trigger] batches[m]).attributes.control()
                    && batches[m].producer_id == producer;
            assert(batches[m].attributes.control());
        }
        assert(covers(batches, aborted, k, j, i));
        if batches[i].attributes.control() && batches[i].producer_id == producer {
            assert(marked_between(batches, producer, j, i + 1));
        }
    }
    if producer_aborted(batches, aborted, producer, i) && !(batches[i].attributes.control()
        && batches[i].producer_id == producer) {
        let (k, j) = choose|k: int, j: int| #[trigger]
            covers(batches, aborted, k, j, i) && aborted[k].producer_id == producer;
        if marked_between(batches, producer, j, i + 1) {
            let m = choose|m: int|
                j <= m < i + 1 && (#[trigger] batches[m]).attributes.control()
                    && batches[m].producer_id == producer;
            if m < i {
                assert(marked_between(batches, producer, j, i));
            }
        }
        assert(covers(batches, aborted, k, j, i + 1));
    }
}

/// The records of `batches` that go to the application, from `floor` on.
///
/// The broker returns whole batches, so a batch can start before the asked
/// offset; the records below `floor` are left out. It also returns markers and
/// aborted transactions, which are left out here under `read_committed`.
pub fn decode_batches(
    batches: &Vec<RecordBatch>,
    aborted: &Vec<AbortedTransaction>,
    read_committed: bool,
    floor: i64,
    topic: &str,
    partition: i32,
) -> (r: Vec<ConsumerRecord>)
    requires
        batches_in_range(batches@),
    ensures
        record_models(r@) == returned_records(
            batches@,
            aborted@,
            read_committed,
            batches@.len() as int,
            floor,
            topic@,
            partition,
        ),
        forall|i: int| 0 <= i < r@.len() ==> (#[trigger] r@[i]).offset < i64::MAX,
        forall|i: int|
            0 <= i < r@.len() ==> gives_readable(
                #[trigger] r@[i],
                batches@,
                aborted@,
                read_committed,
                floor,
                topic@,
                partition,
            ),
{
    let mut records: Vec<ConsumerRecord> = Vec::new();
    let starts = sorted_aborts(aborted);
    let mut cursor: usize = 0;
    let mut producers: SortedSet<i64> = SortedSet::new();
    let mut i: usize = 0;
    assert(record_models(records@) =~= seq![]);
    while i < batches.len()
        invariant
            i <= batches.len(),
            batches_in_range(batches@),
            starts@ == abort_starts(aborted@),
            read_committed ==> cursor_at(batches@, starts.items(), cursor as int, i as int),
            read_committed ==> forall|p: i64| #[trigger]
                producers@.contains(p) <==> open_before(batches@, aborted@, p, i as int),
            record_models(records@) == returned_records(
                batches@,
                aborted@,
                read_committed,
                i as int,
                floor,
                topic@,
                partition,
            ),
            forall|j: int| 0 <= j < records@.len() ==> (#[trigger] records@[j]).offset < i64::MAX,
        decreases batches.len() - i,
    {
        let batch = &batches[i];
        if read_committed {
            cursor = start_aborts(batches, aborted, &starts, cursor, &mut producers, i);
        }
        proof {
            assert forall|p: i64| open_before(batches@, aborted@, p, i + 1) <==> #[trigger]
                producer_aborted(batches@, aborted@, p, i as int) && !(
            batches@[i as int].attributes.control() && batches@[i as int].producer_id == p) by {
                lemma_open_after(batches@, aborted@, p, i as int);
            }
        }
        if batch.attributes.is_control_batch() {
            if read_committed {
                producers.remove(&batch.producer_id);
            }
            i = i + 1;
            continue ;
        }
        if should_drop_aborted_batch(
            read_committed,
            batch.attributes.is_transactional(),
            producers.contains(&batch.producer_id),
        ) {
            i = i + 1;
            continue ;
        }
        let ghost before = records@;
        assert(batch_in_range(batches@[i as int]));
        push_batch_records(&mut records, batch, floor, topic, partition);
        proof {
            assert forall|j: int| 0 <= j < records@.len() implies (#[trigger] records@[j]).offset
                < i64::MAX by {
                if j < before.len() {
                    assert(records@.take(before.len() as int)[j] == before[j]);
                }
            }
        }
        i = i + 1;
    }
    proof {
        assert forall|j: int| 0 <= j < records@.len() implies gives_readable(
            #[trigger] records@[j],
            batches@,
            aborted@,
            read_committed,
            floor,
            topic@,
            partition,
        ) by {
            law_every_returned_record_is_readable(
                records@,
                batches@,
                aborted@,
                read_committed,
                floor,
                topic@,
                partition,
                j,
            );
        }
    }
    records
}

} // verus!
