//! Codec failures and the broker's numeric error taxonomy.

use vstd::prelude::*;

verus! {

/// A failure raised while encoding or decoding a message.
///
/// `Framing` means the input ended before a declared width, length or count
/// was satisfied, or a declared length or count was negative or larger than
/// the bytes that remain. `Encoding` means a value cannot be represented on
/// the wire (a string or sequence too long for its length prefix) or string
/// bytes were not valid UTF-8.
#[derive(Clone, Copy, Debug, PartialEq, Eq)]
pub enum Error {
    Framing,
    Encoding,
}

/// A named failure reported by the broker as a 16-bit wire error code.
///
/// Code 0 means success and maps to no variant; every recognized non-zero
/// code has a named variant; an unrecognized code is kept, never treated as
/// success, in `Unknown` together with the raw code.
#[derive(Clone, Copy, Debug, PartialEq, Eq)]
pub enum KafkaCode {
    Unknown(i16),
    OffsetOutOfRange,
    InvalidMessage,
    UnknownTopicOrPartition,
    InvalidMessageSize,
    LeaderNotAvailable,
    NotLeaderForPartition,
    RequestTimedOut,
    BrokerNotAvailable,
    ReplicaNotAvailable,
    MessageSizeTooLarge,
    StaleControllerEpoch,
    OffsetMetadataTooLarge,
    GroupLoadInProgress,
    GroupCoordinatorNotAvailable,
    NotCoordinatorForGroup,
    InvalidTopic,
    RecordListTooLarge,
    NotEnoughReplicas,
    NotEnoughReplicasAfterAppend,
    InvalidRequiredAcks,
    IllegalGeneration,
    InconsistentGroupProtocol,
    InvalidGroupId,
    UnknownMemberId,
    InvalidSessionTimeout,
    RebalanceInProgress,
    InvalidCommitOffsetSize,
    TopicAuthorizationFailed,
    GroupAuthorizationFailed,
    ClusterAuthorizationFailed,
}

/// The meaning of a raw wire error code: `None` for success, otherwise the
/// named failure, with `Unknown` carrying any unrecognized code.
pub open spec fn spec_code_of(e: i16) -> Option<KafkaCode> {
    if e == 0 {
        None
    } else if e == 1 {
        Some(KafkaCode::OffsetOutOfRange)
    } else if e == 2 {
        Some(KafkaCode::InvalidMessage)
    } else if e == 3 {
        Some(KafkaCode::UnknownTopicOrPartition)
    } else if e == 4 {
        Some(KafkaCode::InvalidMessageSize)
    } else if e == 5 {
        Some(KafkaCode::LeaderNotAvailable)
    } else if e == 6 {
        Some(KafkaCode::NotLeaderForPartition)
    } else if e == 7 {
        Some(KafkaCode::RequestTimedOut)
    } else if e == 8 {
        Some(KafkaCode::BrokerNotAvailable)
    } else if e == 9 {
        Some(KafkaCode::ReplicaNotAvailable)
    } else if e == 10 {
        Some(KafkaCode::MessageSizeTooLarge)
    } else if e == 11 {
        Some(KafkaCode::StaleControllerEpoch)
    } else if e == 12 {
        Some(KafkaCode::OffsetMetadataTooLarge)
    } else if e == 14 {
        Some(KafkaCode::GroupLoadInProgress)
    } else if e == 15 {
        Some(KafkaCode::GroupCoordinatorNotAvailable)
    } else if e == 16 {
        Some(KafkaCode::NotCoordinatorForGroup)
    } else if e == 17 {
        Some(KafkaCode::InvalidTopic)
    } else if e == 18 {
        Some(KafkaCode::RecordListTooLarge)
    } else if e == 19 {
        Some(KafkaCode::NotEnoughReplicas)
    } else if e == 20 {
        Some(KafkaCode::NotEnoughReplicasAfterAppend)
    } else if e == 21 {
        Some(KafkaCode::InvalidRequiredAcks)
    } else if e == 22 {
        Some(KafkaCode::IllegalGeneration)
    } else if e == 23 {
        Some(KafkaCode::InconsistentGroupProtocol)
    } else if e == 24 {
        Some(KafkaCode::InvalidGroupId)
    } else if e == 25 {
        Some(KafkaCode::UnknownMemberId)
    } else if e == 26 {
        Some(KafkaCode::InvalidSessionTimeout)
    } else if e == 27 {
        Some(KafkaCode::RebalanceInProgress)
    } else if e == 28 {
        Some(KafkaCode::InvalidCommitOffsetSize)
    } else if e == 29 {
        Some(KafkaCode::TopicAuthorizationFailed)
    } else if e == 30 {
        Some(KafkaCode::GroupAuthorizationFailed)
    } else if e == 31 {
        Some(KafkaCode::ClusterAuthorizationFailed)
    } else {
        Some(KafkaCode::Unknown(e))
    }
}

impl KafkaCode {
    /// Translates a raw wire error code: success becomes `None`, every
    /// non-zero code a named failure, unrecognized codes `Unknown(code)`.
    pub fn from_protocol(e: i16) -> (r: Option<KafkaCode>)
        ensures
            r == spec_code_of(e),
            r is None <==> e == 0,
    {
        match e {
            0 => None,
            1 => Some(KafkaCode::OffsetOutOfRange),
            2 => Some(KafkaCode::InvalidMessage),
            3 => Some(KafkaCode::UnknownTopicOrPartition),
            4 => Some(KafkaCode::InvalidMessageSize),
            5 => Some(KafkaCode::LeaderNotAvailable),
            6 => Some(KafkaCode::NotLeaderForPartition),
            7 => Some(KafkaCode::RequestTimedOut),
            8 => Some(KafkaCode::BrokerNotAvailable),
            9 => Some(KafkaCode::ReplicaNotAvailable),
            10 => Some(KafkaCode::MessageSizeTooLarge),
            11 => Some(KafkaCode::StaleControllerEpoch),
            12 => Some(KafkaCode::OffsetMetadataTooLarge),
            14 => Some(KafkaCode::GroupLoadInProgress),
            15 => Some(KafkaCode::GroupCoordinatorNotAvailable),
            16 => Some(KafkaCode::NotCoordinatorForGroup),
            17 => Some(KafkaCode::InvalidTopic),
            18 => Some(KafkaCode::RecordListTooLarge),
            19 => Some(KafkaCode::NotEnoughReplicas),
            20 => Some(KafkaCode::NotEnoughReplicasAfterAppend),
            21 => Some(KafkaCode::InvalidRequiredAcks),
            22 => Some(KafkaCode::IllegalGeneration),
            23 => Some(KafkaCode::InconsistentGroupProtocol),
            24 => Some(KafkaCode::InvalidGroupId),
            25 => Some(KafkaCode::UnknownMemberId),
            26 => Some(KafkaCode::InvalidSessionTimeout),
            27 => Some(KafkaCode::RebalanceInProgress),
            28 => Some(KafkaCode::InvalidCommitOffsetSize),
            29 => Some(KafkaCode::TopicAuthorizationFailed),
            30 => Some(KafkaCode::GroupAuthorizationFailed),
            31 => Some(KafkaCode::ClusterAuthorizationFailed),
            other => Some(KafkaCode::Unknown(other)),
        }
    }
}

} // verus!
