//! The fetch buffer.
use bytes::Bytes;
use krabka_client_consumer::collections::{SortedMap, SortedSet};
use krabka_client_consumer::fetch_buffer::{BufferedPartition, FetchBuffer};
use krabka_client_consumer::position::PartitionPosition;
use krabka_client_consumer::records::{ConsumerRecord, TimestampType};
use krabka_client_consumer::wire::LeaderEpoch;

fn key(partition: i32) -> (String, i32) {
    ("orders".to_string(), partition)
}

fn record(partition: i32, offset: i64, leader_epoch: i32) -> ConsumerRecord {
    ConsumerRecord {
        topic: "orders".into(),
        partition,
        offset,
        leader_epoch,
        timestamp: 0,
        timestamp_type: TimestampType::CreateTime,
        key: None,
        value: Some(Bytes::from(offset.to_string())),
        headers: Vec::new(),
    }
}

fn buffered(partition: i32, offsets: std::ops::Range<i64>, next_offset: i64) -> BufferedPartition {
    BufferedPartition {
        key: ("orders".into(), partition),
        position: offsets.start,
        records: offsets.map(|offset| record(partition, offset, 3)).collect(),
        next_offset,
        last_epoch: Some(LeaderEpoch(4)),
    }
}

fn offset_entries(map: &SortedMap<(String, i32), i64>) -> Vec<((String, i32), i64)> {
    (0..map.len())
        .map(|i| (map.key_at(i).clone(), *map.value_at(i)))
        .collect()
}

fn epoch_entries(
    map: &SortedMap<(String, i32), PartitionPosition>,
) -> Vec<((String, i32), LeaderEpoch)> {
    (0..map.len())
        .map(|i| (map.key_at(i).clone(), map.value_at(i).offset_epoch))
        .collect()
}

/// What one `drain` call returned and left.
#[derive(Debug, PartialEq)]
struct Drained {
    offsets: Vec<i64>,
    next_offsets: Vec<((String, i32), i64)>,
    epochs: Vec<((String, i32), LeaderEpoch)>,
}

#[test]
fn drain_returns_at_most_max_records_and_moves_the_position_past_them() {
    let all = SortedSet::from_items(vec![key(0), key(1)]);
    let only_1 = SortedSet::from_items(vec![key(1)]);
    for (name, max_records, assigned, seek, expected) in [
        (
            "partial drain of the first partition",
            3,
            &all,
            None,
            vec![Drained {
                offsets: vec![10, 11, 12],
                next_offsets: vec![(key(0), 13), (key(1), 20)],
                epochs: vec![(key(0), LeaderEpoch(3))],
            }],
        ),
        (
            "two calls cross the partition border and apply the batch end",
            4,
            &all,
            None,
            vec![
                Drained {
                    offsets: vec![10, 11, 12, 13],
                    next_offsets: vec![(key(0), 16), (key(1), 20)],
                    epochs: vec![(key(0), LeaderEpoch(4))],
                },
                Drained {
                    offsets: vec![20, 21],
                    next_offsets: vec![(key(0), 16), (key(1), 22)],
                    epochs: vec![(key(0), LeaderEpoch(4)), (key(1), LeaderEpoch(4))],
                },
            ],
        ),
        (
            "an unassigned partition is dropped",
            10,
            &only_1,
            None,
            vec![Drained {
                offsets: vec![20, 21],
                next_offsets: vec![(key(0), 10), (key(1), 22)],
                epochs: vec![(key(1), LeaderEpoch(4))],
            }],
        ),
        (
            "a seek drops the data of its partition",
            10,
            &all,
            Some(5),
            vec![Drained {
                offsets: vec![20, 21],
                next_offsets: vec![(key(0), 5), (key(1), 22)],
                epochs: vec![(key(1), LeaderEpoch(4))],
            }],
        ),
    ] {
        let mut buffer = FetchBuffer::new();
        // Offsets 13..16 of partition 0 are a control batch.
        buffer.push(buffered(0, 10..14, 16));
        buffer.push(buffered(1, 20..22, 22));
        let mut offsets = SortedMap::from_entries(vec![(key(0), 10), (key(1), 20)]);
        if let Some(offset) = seek {
            offsets.insert(key(0), offset);
        }
        let mut positions = SortedMap::new();
        let mut actual = Vec::new();
        for _ in 0..expected.len() {
            let records = buffer.drain(max_records, assigned, &mut offsets, &mut positions);
            actual.push(Drained {
                offsets: records.iter().map(|record| record.offset).collect(),
                next_offsets: offset_entries(&offsets),
                epochs: epoch_entries(&positions),
            });
        }
        assert_eq!(actual, expected, "case {name}");
    }
}

#[test]
fn a_paused_partition_keeps_its_data_for_later() {
    let mut buffer = FetchBuffer::new();
    buffer.push(buffered(0, 10..12, 12));
    buffer.push(buffered(1, 20..22, 22));
    let assigned = SortedSet::from_items(vec![key(0), key(1)]);
    let paused = SortedSet::from_items(vec![key(0)]);
    let none = SortedSet::new();
    let mut offsets = SortedMap::from_entries(vec![(key(0), 10), (key(1), 20)]);
    let mut positions = SortedMap::new();
    let first: Vec<i64> = buffer
        .drain_unpaused(10, &assigned, &paused, &mut offsets, &mut positions)
        .iter()
        .map(|record| record.offset)
        .collect();
    assert_eq!(first, vec![20, 21]);
    assert_eq!(buffer.len(), 2);
    let second: Vec<i64> = buffer
        .drain_unpaused(10, &assigned, &none, &mut offsets, &mut positions)
        .iter()
        .map(|record| record.offset)
        .collect();
    assert_eq!(second, vec![10, 11]);
    assert_eq!(buffer.len(), 0);
}

#[test]
fn drains_lose_and_repeat_no_record() {
    let mut buffer = FetchBuffer::new();
    buffer.push(buffered(0, 10..15, 15));
    buffer.push(buffered(1, 20..23, 23));
    let assigned = SortedSet::from_items(vec![key(0), key(1)]);
    let mut offsets = SortedMap::from_entries(vec![(key(0), 10), (key(1), 20)]);
    let mut positions = SortedMap::new();
    let mut seen = Vec::new();
    for _ in 0..4 {
        let records = buffer.drain(2, &assigned, &mut offsets, &mut positions);
        assert!(records.len() <= 2);
        seen.extend(records.iter().map(|record| record.offset));
    }
    assert_eq!(seen, vec![10, 11, 12, 13, 14, 20, 21, 22]);
    assert_eq!(offset_entries(&offsets), vec![(key(0), 15), (key(1), 23)]);
}

#[test]
fn a_drain_of_no_records_moves_nothing() {
    let mut buffer = FetchBuffer::new();
    buffer.push(buffered(0, 10..12, 12));
    let assigned = SortedSet::from_items(vec![key(0)]);
    let mut offsets = SortedMap::from_entries(vec![(key(0), 10)]);
    let mut positions = SortedMap::new();
    let records = buffer.drain(0, &assigned, &mut offsets, &mut positions);
    assert!(records.is_empty());
    assert_eq!(offset_entries(&offsets), vec![(key(0), 10)]);
    assert_eq!(buffer.len(), 2);
}

#[test]
fn data_of_other_topics_is_dropped() {
    let mut buffer = FetchBuffer::new();
    buffer.push(buffered(0, 10..12, 12));
    let mut other = buffered(0, 5..6, 6);
    other.key = ("payments".into(), 0);
    buffer.push(other);
    buffer.retain_topics(&SortedSet::from_items(vec!["payments".to_string()]));
    assert_eq!(
        buffer.buffered_partitions(),
        SortedSet::from_items(vec![("payments".to_string(), 0)])
    );
}

#[test]
fn each_partition_gives_its_first_records_and_keeps_the_rest() {
    let mut buffer = FetchBuffer::new();
    let keys: Vec<(String, i32)> = (0..4).map(key).collect();
    for partition in 0..4 {
        buffer.push(buffered(partition, 5..8, 8));
    }
    // A second fetch of the first partition, for the same position.
    buffer.push(buffered(0, 5..8, 8));
    let mut offsets = SortedMap::from_entries(keys.iter().map(|key| (key.clone(), 5)).collect());
    let mut positions = SortedMap::new();
    let assigned = SortedSet::from_items(vec![keys[0].clone(), keys[1].clone(), keys[3].clone()]);
    let paused = SortedSet::from_items(vec![keys[1].clone()]);
    let out = buffer.drain_unpaused(4, &assigned, &paused, &mut offsets, &mut positions);
    let got: Vec<(i32, i64)> = out.iter().map(|r| (r.partition, r.offset)).collect();
    assert_eq!(got, vec![(0, 5), (0, 6), (0, 7), (3, 5)]);
    let next: Vec<i64> = keys.iter().map(|key| *offsets.get(key).unwrap()).collect();
    assert_eq!(next, vec![8, 5, 5, 6]);
    // The paused partition comes after its resume. The stale fetch gives nothing.
    let out = buffer.drain(9, &assigned, &mut offsets, &mut positions);
    let got: Vec<(i32, i64)> = out.iter().map(|r| (r.partition, r.offset)).collect();
    assert_eq!(got, vec![(1, 5), (1, 6), (1, 7), (3, 6), (3, 7)]);
    assert_eq!(buffer.len(), 0);
}
