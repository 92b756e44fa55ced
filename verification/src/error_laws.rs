//! What the texts of errors say.
use vstd::prelude::*;

use crate::error::{ClientError, ConsumerError};
use crate::group_wire::{failure_name, heartbeat_reason};
use crate::text::decimal;

verus! {

/// The text of an error of a connection names its kind before its message, and an
/// error code or an api by its number.
pub proof fn law_texts_of_connection_errors(m: String, refused: bool, code: i16)
    ensures
        ClientError::Connect(m).text() == "connect: "@ + m@,
        ClientError::Tls(m).text() == "tls: "@ + m@,
        ClientError::Sasl(m, refused).text() == "sasl: "@ + m@,
        ClientError::Disconnected.text() == "disconnected"@,
        ClientError::Timeout(m).text() == "timeout: "@ + m@,
        ClientError::Io(m).text() == "io: "@ + m@,
        (ClientError::Server { error_code: code }).text() == "server error_code "@ + decimal(
            code as int,
        ),
        ClientError::Other(m).text() == m@,
{
}

/// The text of an error of a consumer with a message ends with that message, and
/// that of an error with a cause ends with the text of the cause.
pub proof fn law_texts_of_consumer_errors(
    m: String,
    e: ClientError,
    cause: Box<ConsumerError>,
    code: i16,
)
    ensures
        ConsumerError::Client(e).text() == "client: "@ + e.text(),
        ConsumerError::Protocol(m).text() == "protocol: "@ + m@,
        ConsumerError::RebalanceFailed(m).text() == "rebalance failed: "@ + m@,
        ConsumerError::RebalanceListenerFailed(m).text() == "rebalance listener failed: "@ + m@,
        ConsumerError::InvalidConfig(m).text() == "invalid configuration: "@ + m@,
        ConsumerError::StartupAfterJoin(cause).text() == "startup failed after joining group: "@
            + cause.text(),
        ConsumerError::IllegalState(m).text() == "illegal state: "@ + m@,
        ConsumerError::InvalidArgument(m).text() == "invalid argument: "@ + m@,
        ConsumerError::InvalidTopic(m).text() == "topic '"@ + m@ + "' is invalid"@,
        ConsumerError::RetriableCommitFailed(cause).text()
            == "offset commit failed with a retriable exception: "@ + cause.text(),
        ConsumerError::Server(code).text() == "broker error_code "@ + decimal(code as int),
        ConsumerError::GroupAuthorizationFailed(m).text() == "not authorized to access group: "@
            + m@,
        ConsumerError::OffsetFetchFailed(code).text()
            == "unexpected error in offset fetch response: error_code "@ + decimal(code as int),
{
}

/// The reason of a rejoin after a failure names it by its error code, a refusal
/// and a lost connection by their kind, and any other failure in general.
pub proof fn law_names_of_failures(
    error: ConsumerError,
    code: i16,
    m: String,
    e: ClientError,
)
    ensures
        ({
            let name = failure_name(ConsumerError::Server(code));
            &&& code == 14 ==> name == "CoordinatorLoadInProgressException"@
            &&& code == 15 ==> name == "CoordinatorNotAvailableException"@
            &&& code == 16 ==> name == "NotCoordinatorException"@
            &&& code == 22 ==> name == "IllegalGenerationException"@
            &&& code == 23 ==> name == "InconsistentGroupProtocolException"@
            &&& code == 24 ==> name == "InvalidGroupIdException"@
            &&& code == 25 ==> name == "UnknownMemberIdException"@
            &&& code == 26 ==> name == "InvalidSessionTimeoutException"@
            &&& code == 27 ==> name == "RebalanceInProgressException"@
            &&& code == 30 ==> name == "GroupAuthorizationException"@
            &&& code == 81 ==> name == "GroupMaxSizeReachedException"@
            &&& !(14 <= code <= 16) && !(22 <= code <= 27) && code != 30 && code != 81 ==> name
                == "KafkaException"@
        }),
        failure_name(ConsumerError::CoordinatorUnavailable) == "CoordinatorNotAvailableException"@,
        failure_name(ConsumerError::GroupAuthorizationFailed(m)) == "GroupAuthorizationException"@,
        failure_name(ConsumerError::FencedInstanceId(m)) == "FencedInstanceIdException"@,
        error is TopicAuthorizationFailed ==> failure_name(error) == "TopicAuthorizationException"@,
        failure_name(ConsumerError::Client(e)) == if e is Timeout {
            "TimeoutException"@
        } else {
            "DisconnectException"@
        },
{
}

/// The reason of a rejoin after a heartbeat names the error of the heartbeat.
pub proof fn law_reasons_after_a_heartbeat(code: i16)
    ensures
        code == 27 ==> heartbeat_reason(code) == "group is already rebalancing"@,
        code == 22 ==> heartbeat_reason(code) == "encountered "@ + "ILLEGAL_GENERATION"@
            + " from HEARTBEAT response"@,
        code == 25 ==> heartbeat_reason(code) == "encountered "@ + "UNKNOWN_MEMBER_ID"@
            + " from HEARTBEAT response"@,
        code == 82 ==> heartbeat_reason(code) == "encountered "@ + "FENCED_INSTANCE_ID"@
            + " from HEARTBEAT response"@,
        code != 27 && code != 22 && code != 25 && code != 82 ==> heartbeat_reason(code)
            == "encountered "@ + "UNKNOWN_SERVER_ERROR"@ + " from HEARTBEAT response"@,
{
}

} // verus!
