//! Fetch sessions.
use krabka_client_consumer::collections::SortedMap;
use krabka_client_consumer::fetch_session::{
    FetchMetadata, FetchSession, SessionPartition, SessionRequest,
};
use krabka_client_consumer::wire::Uuid;
use Step::{Fail, Fetch, Respond};

const TOPIC_ID: Uuid = Uuid(0x0101_0101_0101_0101_0101_0101_0101_0101);
const OTHER_ID: Uuid = Uuid(0x0202_0202_0202_0202_0202_0202_0202_0202);

type Rows = Vec<((String, i32), SessionPartition)>;

fn partition(fetch_offset: i64) -> SessionPartition {
    SessionPartition {
        topic_id: TOPIC_ID,
        fetch_offset,
        current_leader_epoch: 3,
        last_fetched_epoch: 2,
        partition_max_bytes: 1024,
    }
}

fn key(index: i32) -> (String, i32) {
    ("orders".to_owned(), index)
}

/// One step of a session case: the partitions to fetch, and the response
/// `(error_code, session_id, partitions, throttle_time_ms)` or a transport
/// error.
enum Step {
    Fetch(Rows),
    Respond(i16, i32, usize, i32),
    Fail,
}

#[test]
fn fetch_session_builds_requests_as_kafka_does() {
    let request = |session_id, session_epoch, partitions: Rows, forgotten: Vec<(String, i32)>| {
        SessionRequest {
            session_id,
            session_epoch,
            partitions: SortedMap::from_entries(partitions),
            forgotten: forgotten.into_iter().map(|key| (key, TOPIC_ID)).collect(),
        }
    };
    let both = vec![(key(0), partition(10)), (key(1), partition(20))];
    let replaced = || {
        vec![(
            key(0),
            SessionPartition {
                topic_id: OTHER_ID,
                ..partition(10)
            },
        )]
    };
    for (name, steps, expected) in [
        (
            "full, then incremental with no change",
            vec![
                Fetch(both.clone()),
                Respond(0, 77, 2, 0),
                Fetch(both.clone()),
                Respond(0, 77, 0, 0),
                Fetch(both.clone()),
            ],
            vec![
                request(0, 0, both.clone(), Vec::new()),
                request(77, 1, Vec::new(), Vec::new()),
                request(77, 2, Vec::new(), Vec::new()),
            ],
        ),
        (
            "incremental sends a changed offset and forgets a removed partition",
            vec![
                Fetch(both.clone()),
                Respond(0, 77, 2, 0),
                Fetch(vec![(key(0), partition(15))]),
            ],
            vec![
                request(0, 0, both.clone(), Vec::new()),
                request(77, 1, vec![(key(0), partition(15))], vec![key(1)]),
            ],
        ),
        (
            "session id not found starts a new session",
            vec![
                Fetch(both.clone()),
                Respond(0, 77, 2, 0),
                Fetch(both.clone()),
                Respond(70, 0, 0, 0),
                Fetch(both.clone()),
            ],
            vec![
                request(0, 0, both.clone(), Vec::new()),
                request(77, 1, Vec::new(), Vec::new()),
                request(0, 0, both.clone(), Vec::new()),
            ],
        ),
        (
            "invalid session epoch closes the session and creates a new one",
            vec![
                Fetch(both.clone()),
                Respond(0, 77, 2, 0),
                Fetch(both.clone()),
                Respond(71, 0, 0, 0),
                Fetch(both.clone()),
            ],
            vec![
                request(0, 0, both.clone(), Vec::new()),
                request(77, 1, Vec::new(), Vec::new()),
                request(77, 0, both.clone(), Vec::new()),
            ],
        ),
        (
            "a transport error closes the session and creates a new one",
            vec![
                Fetch(both.clone()),
                Respond(0, 77, 2, 0),
                Fetch(both.clone()),
                Fail,
                Fetch(both.clone()),
            ],
            vec![
                request(0, 0, both.clone(), Vec::new()),
                request(77, 1, Vec::new(), Vec::new()),
                request(77, 0, both.clone(), Vec::new()),
            ],
        ),
        (
            "a broker without sessions answers session id 0",
            vec![
                Fetch(both.clone()),
                Respond(0, 0, 2, 0),
                Fetch(both.clone()),
            ],
            vec![
                request(0, 0, both.clone(), Vec::new()),
                request(0, 0, both.clone(), Vec::new()),
            ],
        ),
        (
            "a changed topic id sends a full request",
            vec![
                Fetch(both.clone()),
                Respond(0, 77, 2, 0),
                Fetch(replaced()),
            ],
            vec![
                request(0, 0, both.clone(), Vec::new()),
                request(77, 0, replaced(), Vec::new()),
            ],
        ),
        (
            "an empty throttled full response keeps the next request full",
            vec![
                Fetch(both.clone()),
                Respond(0, 77, 0, 100),
                Fetch(both.clone()),
            ],
            vec![
                request(0, 0, both.clone(), Vec::new()),
                request(0, 0, both.clone(), Vec::new()),
            ],
        ),
    ] {
        let mut session = FetchSession::default();
        let mut requests = Vec::new();
        for step in steps {
            match step {
                Fetch(partitions) => {
                    requests.push(session.build(SortedMap::from_entries(partitions)));
                }
                Respond(error_code, session_id, partitions, throttle) => {
                    session.handle_response(error_code, session_id, partitions, throttle);
                }
                Fail => session.handle_error(),
            }
        }
        assert_eq!(requests, expected, "case {name}");
    }
}

#[test]
fn a_refused_response_gives_no_data() {
    let mut session = FetchSession::new();
    assert!(!session.handle_response(71, 5, 1, 0));
    assert!(!session.handle_response(0, 5, 0, 10));
    assert!(session.handle_response(0, 5, 1, 10));
    assert_eq!(session.session_id(), 5);
}

#[test]
fn epochs_count_up_and_start_again_at_one() {
    for (epoch, next) in [(0, 1), (1, 2), (i32::MAX, 1), (-1, -1)] {
        assert_eq!(FetchMetadata::next_epoch(epoch), next);
    }
}
