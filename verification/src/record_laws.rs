//! What the application gets of the batches of a fetch, stated over the fields
//! of the batches and of the records.
use bytes::Bytes;
use vstd::prelude::*;

use crate::records::{
    batch_in_range, batches_in_range, buffer_bytes, covers, header_models, highest_end,
    highest_epoch, is_returned, law_exactly_the_readable_records_are_returned, optional_bytes,
    producer_aborted, record_model, record_models, record_returned, returned_records, starts_at,
    AbortedTransaction, Attributes, ConsumerRecord, Header, Record, RecordBatch, TimestampType,
};

verus! {

/// The timestamps are append times exactly where the fourth bit is set. The
/// other bits do not matter.
pub proof fn law_timestamp_bit(attributes: Attributes)
    ensures
        attributes.log_append_time() <==> ((attributes.0 as u16) / 8) % 2 == 1,
        attributes.kind_of_time() == TimestampType::LogAppendTime <==> ((attributes.0 as u16) / 8)
            % 2 == 1,
{
    let a = attributes.0;
    assert(a & 0x08 != 0 <==> ((a as u16) / 8) % 2 == 1) by (bit_vector);
}

/// A batch belongs to a transaction exactly where the fifth bit is set. The
/// other bits do not matter.
pub proof fn law_transaction_bit(attributes: Attributes)
    ensures
        attributes.transactional() <==> ((attributes.0 as u16) / 16) % 2 == 1,
{
    let a = attributes.0;
    assert(a & 0x10 != 0 <==> ((a as u16) / 16) % 2 == 1) by (bit_vector);
}

/// A batch is a marker exactly where the sixth bit is set. The other bits do
/// not matter.
pub proof fn law_control_bit(attributes: Attributes)
    ensures
        attributes.control() <==> ((attributes.0 as u16) / 32) % 2 == 1,
{
    let a = attributes.0;
    assert(a & 0x20 != 0 <==> ((a as u16) / 32) % 2 == 1) by (bit_vector);
}

/// Whether a batch is a marker.
pub open spec fn is_marker(batch: RecordBatch) -> bool {
    ((batch.attributes.0 as u16) / 32) % 2 == 1
}

/// Whether an aborted transaction is open at batch `b`: its producer is that of
/// the batch, a batch up to `b` has an offset from its first offset on, and from
/// the first such batch up to `b` its producer has no marker.
pub open spec fn open_at(
    transaction: AbortedTransaction,
    batches: Seq<RecordBatch>,
    b: int,
) -> bool {
    &&& transaction.producer_id == batches[b].producer_id
    &&& exists|j: int|
        0 <= j <= b && transaction.first_offset <= (#[trigger] batches[j]).base_offset && (forall|
            m: int,
        |
            0 <= m < j ==> (#[trigger] batches[m]).base_offset < transaction.first_offset) && (
        forall|m: int|
            j <= m < b && is_marker(#[trigger] batches[m]) ==> batches[m].producer_id
                != transaction.producer_id)
}

/// Whether record `r` of batch `b` is for the application.
pub open spec fn readable(
    batches: Seq<RecordBatch>,
    aborted: Seq<AbortedTransaction>,
    read_committed: bool,
    floor: i64,
    b: int,
    r: int,
) -> bool {
    &&& 0 <= b < batches.len()
    &&& 0 <= r < batches[b].records@.len()
    &&& batches[b].base_offset + batches[b].records@[r].offset_delta >= floor
    &&& !is_marker(batches[b])
    &&& read_committed && ((batches[b].attributes.0 as u16) / 16) % 2 == 1 ==> forall|k: int|
        0 <= k < aborted.len() ==> !open_at(#[trigger] aborted[k], batches, b)
}

/// Whether two optional buffers hold the same bytes, or neither is there.
pub open spec fn same_bytes(a: Option<Bytes>, b: Option<Bytes>) -> bool {
    &&& a is Some <==> b is Some
    &&& a is Some ==> buffer_bytes(a->Some_0) == buffer_bytes(b->Some_0)
}

/// Whether headers have the same keys and values in the same order.
pub open spec fn same_headers(a: Seq<Header>, b: Seq<Header>) -> bool {
    &&& a.len() == b.len()
    &&& forall|i: int|
        0 <= i < a.len() ==> (#[trigger] a[i]).key@ == b[i].key@ && same_bytes(
            a[i].value,
            b[i].value,
        )
}

/// Whether `out` is what the application gets of a record of a batch.
pub open spec fn gives(
    out: ConsumerRecord,
    batch: RecordBatch,
    record: Record,
    topic: Seq<char>,
    partition: i32,
) -> bool {
    let append_time = ((batch.attributes.0 as u16) / 8) % 2 == 1;
    &&& out.topic@ == topic
    &&& out.partition == partition
    &&& out.offset == batch.base_offset + record.offset_delta
    &&& out.leader_epoch == batch.partition_leader_epoch
    &&& append_time ==> out.timestamp == batch.max_timestamp && out.timestamp_type
        == TimestampType::LogAppendTime
    &&& !append_time ==> out.timestamp == batch.base_timestamp + record.timestamp_delta
        && out.timestamp_type == TimestampType::CreateTime
    &&& same_bytes(out.key, record.key)
    &&& same_bytes(out.value, record.value)
    &&& same_headers(out.headers@, record.headers@)
}

/// Whether the record at a place in a list is a readable one.
pub open spec fn gives_readable(
    out: ConsumerRecord,
    batches: Seq<RecordBatch>,
    aborted: Seq<AbortedTransaction>,
    read_committed: bool,
    floor: i64,
    topic: Seq<char>,
    partition: i32,
) -> bool {
    exists|b: int, r: int| #[trigger]
        readable(batches, aborted, read_committed, floor, b, r) && gives(
            out,
            batches[b],
            batches[b].records@[r],
            topic,
            partition,
        )
}

proof fn lemma_open(
    batches: Seq<RecordBatch>,
    aborted: Seq<AbortedTransaction>,
    b: int,
)
    requires
        0 <= b < batches.len(),
    ensures
        producer_aborted(batches, aborted, batches[b].producer_id, b) <==> exists|k: int|
            0 <= k < aborted.len() && open_at(#[trigger] aborted[k], batches, b),
{
    assert forall|m: int| 0 <= m < batches.len() implies (
    #[trigger] batches[m]).attributes.control() == is_marker(batches[m]) by {
        law_control_bit(batches[m].attributes);
    }
    if producer_aborted(batches, aborted, batches[b].producer_id, b) {
        let (k, j) = choose|k: int, j: int| #[trigger]
            covers(batches, aborted, k, j, b) && aborted[k].producer_id == batches[b].producer_id;
        assert(batches[j].base_offset >= aborted[k].first_offset);
        assert(open_at(aborted[k], batches, b));
    }
    if exists|k: int| 0 <= k < aborted.len() && open_at(#[trigger] aborted[k], batches, b) {
        let k = choose|k: int| 0 <= k < aborted.len() && open_at(#[trigger] aborted[k], batches, b);
        let transaction = aborted[k];
        let j = choose|j: int|
            0 <= j <= b && transaction.first_offset <= (#[trigger] batches[j]).base_offset && (
            forall|m: int|
                0 <= m < j ==> (#[trigger] batches[m]).base_offset < transaction.first_offset) && (
            forall|m: int|
                j <= m < b && is_marker(#[trigger] batches[m]) ==> batches[m].producer_id
                    != transaction.producer_id);
        assert(starts_at(batches, transaction.first_offset, j));
        assert(covers(batches, aborted, k, j, b));
    }
}

proof fn lemma_readable(
    batches: Seq<RecordBatch>,
    aborted: Seq<AbortedTransaction>,
    read_committed: bool,
    floor: i64,
    b: int,
    r: int,
)
    ensures
        record_returned(batches, aborted, read_committed, floor, b, r) <==> readable(
            batches,
            aborted,
            read_committed,
            floor,
            b,
            r,
        ),
{
    if 0 <= b < batches.len() {
        lemma_open(batches, aborted, b);
        law_control_bit(batches[b].attributes);
        law_transaction_bit(batches[b].attributes);
    }
}

proof fn lemma_gives(
    out: ConsumerRecord,
    batch: RecordBatch,
    r: int,
    topic: Seq<char>,
    partition: i32,
)
    requires
        0 <= r < batch.records@.len(),
        batch_in_range(batch),
        out@ == record_model(batch, batch.records@[r], topic, partition),
    ensures
        gives(out, batch, batch.records@[r], topic, partition),
{
    let record = batch.records@[r];
    let model = record_model(batch, record, topic, partition);
    law_timestamp_bit(batch.attributes);
    assert(out@.key == optional_bytes(record.key));
    assert(out@.value == optional_bytes(record.value));
    assert(header_models(out.headers@).len() == out.headers@.len());
    assert(header_models(record.headers@).len() == record.headers@.len());
    assert forall|i: int| 0 <= i < out.headers@.len() implies (#[trigger] out.headers@[i]).key@
        == record.headers@[i].key@ && same_bytes(
        out.headers@[i].value,
        record.headers@[i].value,
    ) by {
        assert(header_models(out.headers@)[i] == header_models(record.headers@)[i]);
    }
}

/// Every record that the application gets is a readable record of a batch, with
/// the offset, the epoch, the time, the key, the value and the headers that it
/// has there: none below the position, none of a marker and, under
/// `read_committed`, none of a transactional batch whose producer has an aborted
/// transaction open.
pub proof fn law_every_returned_record_is_readable(
    records: Seq<ConsumerRecord>,
    batches: Seq<RecordBatch>,
    aborted: Seq<AbortedTransaction>,
    read_committed: bool,
    floor: i64,
    topic: Seq<char>,
    partition: i32,
    i: int,
)
    requires
        batches_in_range(batches),
        record_models(records) == returned_records(
            batches,
            aborted,
            read_committed,
            batches.len() as int,
            floor,
            topic,
            partition,
        ),
        0 <= i < records.len(),
    ensures
        gives_readable(records[i], batches, aborted, read_committed, floor, topic, partition),
{
    let n = batches.len() as int;
    let all = record_models(records);
    assert(all[i] == records[i]@);
    assert(all.contains(records[i]@));
    law_exactly_the_readable_records_are_returned(
        batches,
        aborted,
        read_committed,
        floor,
        topic,
        partition,
        records[i]@,
    );
    let (b, r) = choose|b: int, r: int| #[trigger]
        record_returned(batches, aborted, read_committed, floor, b, r) && b < n && records[i]@
            == record_model(batches[b], batches[b].records@[r], topic, partition);
    lemma_readable(batches, aborted, read_committed, floor, b, r);
    lemma_gives(records[i], batches[b], r, topic, partition);
}

/// Every readable record is among those that the application gets.
pub proof fn law_every_readable_record_is_returned(
    records: Seq<ConsumerRecord>,
    batches: Seq<RecordBatch>,
    aborted: Seq<AbortedTransaction>,
    read_committed: bool,
    floor: i64,
    topic: Seq<char>,
    partition: i32,
    b: int,
    r: int,
)
    requires
        batches_in_range(batches),
        record_models(records) == returned_records(
            batches,
            aborted,
            read_committed,
            batches.len() as int,
            floor,
            topic,
            partition,
        ),
        readable(batches, aborted, read_committed, floor, b, r),
    ensures
        exists|i: int|
            0 <= i < records.len() && gives(
                #[trigger] records[i],
                batches[b],
                batches[b].records@[r],
                topic,
                partition,
            ),
{
    let n = batches.len() as int;
    let all = record_models(records);
    let model = record_model(batches[b], batches[b].records@[r], topic, partition);
    lemma_readable(batches, aborted, read_committed, floor, b, r);
    law_exactly_the_readable_records_are_returned(
        batches,
        aborted,
        read_committed,
        floor,
        topic,
        partition,
        model,
    );
    assert(is_returned(model, batches, aborted, read_committed, n, floor, topic, partition)) by {
        assert(record_returned(batches, aborted, read_committed, floor, b, r));
    }
    let i = choose|i: int| 0 <= i < all.len() && all[i] == model;
    assert(all[i] == records[i]@);
    lemma_gives(records[i], batches[b], r, topic, partition);
}

/// The offset after batches is one past the last offset of some batch, and not
/// below that of any; the epoch after them is the highest of theirs.
pub proof fn law_end_of_batches(batches: Seq<RecordBatch>)
    requires
        batches.len() > 0,
    ensures
        exists|i: int|
            0 <= i < batches.len() && highest_end(batches) == (#[trigger] batches[i]).base_offset
                + batches[i].last_offset_delta + 1,
        forall|i: int|
            0 <= i < batches.len() ==> highest_end(batches) > (#[trigger] batches[i]).base_offset
                + batches[i].last_offset_delta,
        exists|i: int|
            0 <= i < batches.len() && highest_epoch(batches) == (
            #[trigger] batches[i]).partition_leader_epoch,
        forall|i: int|
            0 <= i < batches.len() ==> highest_epoch(batches) >= (
            #[trigger] batches[i]).partition_leader_epoch,
    decreases batches.len(),
{
    let n = batches.len() - 1;
    assert(batches[n] == batches.last());
    if n > 0 {
        let front = batches.drop_last();
        law_end_of_batches(front);
        let i = choose|i: int|
            0 <= i < front.len() && highest_end(front) == (#[trigger] front[i]).base_offset
                + front[i].last_offset_delta + 1;
        assert(batches[i] == front[i]);
        let j = choose|j: int|
            0 <= j < front.len() && highest_epoch(front) == (
            #[trigger] front[j]).partition_leader_epoch;
        assert(batches[j] == front[j]);
        assert forall|i: int| 0 <= i < batches.len() implies highest_end(batches) > (
        #[trigger] batches[i]).base_offset + batches[i].last_offset_delta && highest_epoch(batches)
            >= batches[i].partition_leader_epoch by {
            if i < n {
                assert(front[i] == batches[i]);
            }
        }
    }
}

} // verus!
