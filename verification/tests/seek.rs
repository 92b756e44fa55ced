//! Seeks.
use krabka_client_consumer::position::PartitionPosition;
use krabka_client_consumer::seek::seek_position;
use krabka_client_consumer::wire::LeaderEpoch;

#[test]
fn seek_position_follows_kafkas_validate_position() {
    for (name, current_leader_epoch, awaiting, seek_epoch, expected) in [
        ("no epoch", 5, true, None, (-1, false)),
        ("epoch, leader known", 5, false, Some(4), (4, true)),
        ("epoch, leader unknown", -1, false, Some(4), (4, false)),
    ] {
        let mut position = PartitionPosition {
            offset_epoch: LeaderEpoch(3),
            leader_id: 1,
            leader_epoch: LeaderEpoch(current_leader_epoch),
            awaiting_validation: awaiting,
        };
        seek_position(&mut position, seek_epoch);
        assert_eq!(
            position,
            PartitionPosition {
                offset_epoch: LeaderEpoch(expected.0),
                leader_id: 1,
                leader_epoch: LeaderEpoch(current_leader_epoch),
                awaiting_validation: expected.1,
            },
            "{name}"
        );
    }
}
