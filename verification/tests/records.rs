//! Record batches.
use bytes::Bytes;
use krabka_client_consumer::collections::SortedMap;
use krabka_client_consumer::config::IsolationLevel;
use krabka_client_consumer::fetch::{EpochEndOffset, LeaderIdAndEpoch, PartitionData};
use krabka_client_consumer::fetch_answer::process_partition_records;
use krabka_client_consumer::records::{
    are_batches_in_range, decode_batches, highest_leader_epoch, next_offset_after,
    record_timestamp, AbortedTransaction, Attributes, ConsumerRecord, Header, Record, RecordBatch,
    RecordsPayload, TimestampType,
};

fn record(offset_delta: i32, value: &str) -> Record {
    Record {
        timestamp_delta: i64::from(offset_delta),
        offset_delta,
        key: None,
        value: Some(Bytes::from(value.to_string())),
        headers: Vec::new(),
    }
}

fn batch(base_offset: i64, records: Vec<Record>) -> RecordBatch {
    RecordBatch {
        base_offset,
        partition_leader_epoch: 5,
        attributes: Attributes(0),
        last_offset_delta: records.len() as i32 - 1,
        base_timestamp: 1000,
        max_timestamp: 2000,
        producer_id: -1,
        records,
    }
}

fn transactional(base_offset: i64, producer_id: i64) -> RecordBatch {
    RecordBatch {
        attributes: Attributes(0x10),
        producer_id,
        ..batch(base_offset, vec![record(0, "t")])
    }
}

fn marker(base_offset: i64, producer_id: i64) -> RecordBatch {
    RecordBatch {
        attributes: Attributes(0x30),
        producer_id,
        ..batch(base_offset, vec![record(0, "m")])
    }
}

fn offsets(
    batches: &Vec<RecordBatch>,
    aborted: &[(i64, i64)],
    read_committed: bool,
    floor: i64,
) -> Vec<i64> {
    let aborted = aborted
        .iter()
        .map(|(producer_id, first_offset)| AbortedTransaction {
            producer_id: *producer_id,
            first_offset: *first_offset,
        })
        .collect();
    decode_batches(batches, &aborted, read_committed, floor, "orders", 0)
        .iter()
        .map(|record| record.offset)
        .collect()
}

#[test]
fn advance_target_uses_last_offset_delta_not_record_count() {
    // A batch spanning offsets 10..=14 (last_offset_delta = 4) but carrying
    // zero surviving records must still advance the fetch offset to 15.
    let batch = RecordBatch {
        last_offset_delta: 4,
        ..batch(10, vec![])
    };
    let payload = RecordsPayload::V2(vec![batch]);
    let batches = payload.as_v2().unwrap();
    assert_eq!(next_offset_after(batches), Some(15));
}

#[test]
fn advance_target_none_for_empty() {
    let payload = RecordsPayload::V2(vec![]);
    assert_eq!(next_offset_after(payload.as_v2().unwrap()), None);
}

#[test]
fn a_legacy_payload_has_no_batches() {
    assert!(RecordsPayload::Legacy.as_v2().is_none());
}

#[test]
fn read_committed_drops_aborted_transactions_until_their_marker() {
    let batches = vec![
        transactional(10, 7),
        transactional(11, 8),
        marker(12, 7),
        transactional(13, 7),
        batch(14, vec![record(0, "x")]),
    ];
    // Producer 7 aborted the transaction that starts at 10. Its marker at 12
    // ends it, and its next transaction is committed.
    assert_eq!(offsets(&batches, &[(7, 10)], true, 0), vec![11, 13, 14]);
    assert_eq!(
        offsets(&batches, &[(7, 10)], false, 0),
        vec![10, 11, 13, 14]
    );
    assert_eq!(offsets(&batches, &[], true, 0), vec![10, 11, 13, 14]);
    // The order of the aborted transactions does not matter.
    assert_eq!(
        offsets(&batches, &[(7, 13), (8, 11), (7, 10)], true, 0),
        vec![14]
    );
}

#[test]
fn a_batch_without_a_transaction_is_never_dropped_for_one() {
    let plain = RecordBatch {
        producer_id: 7,
        ..batch(11, vec![record(0, "x")])
    };
    assert_eq!(offsets(&vec![plain], &[(7, 10)], true, 0), vec![11]);
}

#[test]
fn records_below_the_position_are_left_out() {
    let batches = vec![batch(
        10,
        vec![record(0, "a"), record(1, "b"), record(2, "c")],
    )];
    assert_eq!(offsets(&batches, &[], false, 11), vec![11, 12]);
}

#[test]
fn a_decoded_record_has_the_fields_of_its_batch() {
    let mut one = record(1, "v");
    one.key = Some(Bytes::from_static(b"k"));
    one.headers = vec![Header {
        key: "h".into(),
        value: Some(Bytes::from_static(b"w")),
    }];
    let records = decode_batches(
        &vec![RecordBatch {
            last_offset_delta: 1,
            ..batch(10, vec![one])
        }],
        &Vec::new(),
        false,
        0,
        "orders",
        4,
    );
    assert_eq!(records.len(), 1);
    let record = &records[0];
    assert_eq!(record.topic, "orders");
    assert_eq!(record.partition, 4);
    assert_eq!(record.offset, 11);
    assert_eq!(record.leader_epoch, 5);
    assert_eq!(record.timestamp, 1001);
    assert_eq!(record.timestamp_type, TimestampType::CreateTime);
    assert_eq!(record.key, Some(Bytes::from_static(b"k")));
    assert_eq!(record.value, Some(Bytes::from_static(b"v")));
    assert_eq!(record.headers.len(), 1);
    assert_eq!(record.headers[0].key, "h");
    assert_eq!(record.headers[0].value, Some(Bytes::from_static(b"w")));
}

#[test]
fn a_broker_timestamp_is_the_one_of_the_batch() {
    let appended = RecordBatch {
        attributes: Attributes(0x08),
        ..batch(0, vec![])
    };
    assert_eq!(
        record_timestamp(&appended, &record(3, "x")),
        (2000, TimestampType::LogAppendTime)
    );
    assert_eq!(
        record_timestamp(&batch(0, vec![]), &record(3, "x")),
        (1003, TimestampType::CreateTime)
    );
}

#[test]
fn offsets_that_do_not_fit_are_found() {
    assert!(are_batches_in_range(&vec![batch(
        i64::MAX - 1,
        vec![record(0, "x")]
    )]));
    assert!(!are_batches_in_range(&vec![batch(
        i64::MAX,
        vec![record(0, "x")]
    )]));
    assert!(!are_batches_in_range(&vec![RecordBatch {
        base_timestamp: i64::MAX,
        ..batch(0, vec![record(0, "x"), record(1, "y")])
    }]));
}

#[test]
fn the_highest_epoch_of_the_batches() {
    let mut second = batch(1, vec![]);
    second.partition_leader_epoch = 3;
    assert_eq!(
        highest_leader_epoch(&vec![batch(0, vec![]), second]),
        Some(5)
    );
    assert_eq!(highest_leader_epoch(&vec![]), None);
}

type TimestampCase = (&'static str, i16, i64, [i64; 2], TimestampType);

#[test]
fn fetched_records_take_the_batch_timestamp_type() {
    let cases: [TimestampCase; 3] = [
        (
            "create time adds the delta to the base timestamp",
            0,
            1005,
            [1000, 1005],
            TimestampType::CreateTime,
        ),
        (
            "log append time uses the max timestamp",
            0x08,
            9000,
            [9000, 9000],
            TimestampType::LogAppendTime,
        ),
        (
            "log append time in a transactional batch uses the max timestamp",
            0x18,
            9000,
            [9000, 9000],
            TimestampType::LogAppendTime,
        ),
    ];
    let key = ("orders".to_string(), 0);
    for (name, attributes, max_timestamp, timestamps, timestamp_type) in &cases {
        let records = [(0, "v0"), (1, "v1")]
            .into_iter()
            .map(|(offset_delta, value)| Record {
                timestamp_delta: i64::from(offset_delta) * 5,
                ..record(offset_delta, value)
            })
            .collect();
        let part = PartitionData {
            partition_index: 0,
            error_code: 0,
            high_watermark: 7,
            last_stable_offset: 7,
            diverging_epoch: EpochEndOffset {
                epoch: -1,
                end_offset: -1,
            },
            current_leader: LeaderIdAndEpoch {
                leader_id: -1,
                leader_epoch: -1,
            },
            aborted_transactions: None,
            preferred_read_replica: -1,
            records: Some(RecordsPayload::V2(vec![RecordBatch {
                partition_leader_epoch: 3,
                attributes: Attributes(*attributes),
                base_timestamp: 1000,
                max_timestamp: *max_timestamp,
                ..batch(5, records)
            }])),
        };
        let offsets = SortedMap::from_entries(vec![(key.clone(), 5)]);
        let fetched =
            process_partition_records(&offsets, IsolationLevel::ReadUncommitted, &key, &part)
                .unwrap();
        let expected: Vec<ConsumerRecord> = [(5, "v0"), (6, "v1")]
            .into_iter()
            .zip(timestamps)
            .map(|((offset, value), timestamp)| ConsumerRecord {
                topic: "orders".into(),
                partition: 0,
                offset,
                leader_epoch: 3,
                timestamp: *timestamp,
                timestamp_type: *timestamp_type,
                key: None,
                value: Some(Bytes::from_static(value.as_bytes())),
                headers: Vec::new(),
            })
            .collect();
        assert_eq!(
            fetched.records.into_iter().collect::<Vec<_>>(),
            expected,
            "case {name}"
        );
    }
}
