//! Error types.
//!
//! `MqttError` is the single error type of every MQTT operation; the enums
//! below it say what went wrong in detail. None of them can be continued from:
//! recovery means a new connection.
use crate::packet::ConnackReturnCode;
use vstd::prelude::*;

verus! {

#[derive(Debug)]
pub enum MqttError {
    /// The transport failed; the text is the transport's own message.
    Io(String),
    ChannelClosed,
    AckTimeout,
    Timeout(TimeoutKind),
    Configuration(String),
    NotConnected(String),
    Protocol(Violation),
    Codec(CodecError),
    /// A bounded queue was full. The sender applies its slow-consumer policy.
    Backpressure,
    /// `limit` outbound operations already await their acknowledgement, or no
    /// packet identifier is free.
    TooManyInflight { limit: usize },
    Unsupported(String),
}

#[derive(Debug, Clone, Copy, PartialEq, Eq, Structural)]
pub enum TimeoutKind {
    /// The client waited for CONNACK.
    Connack,
    /// The server waited for CONNECT.
    ConnectReceive,
    /// An outbound operation waited for its acknowledgement.
    Ack,
}

#[derive(Debug, Clone, PartialEq, Eq)]
pub enum Violation {
    ExpectedConnack,
    ExpectedConnect,
    ConnectionRefused(ConnackReturnCode),
    UnexpectedPacket { expected: &'static str, got: &'static str },
    InvalidProtocolName,
    UnsupportedProtocolLevel(u8),
    EmptyTopic,
    TopicTooLong,
    WildcardInPublishTopic,
    HashWildcardNotTerminal,
    WildcardMixedWithLiteral,
    SessionAlreadyBound,
    /// PUBLISH with DUP set at QoS 0.
    DupSetOnQos0,
    /// PUBLISH, or any acknowledgement, with packet identifier 0.
    PacketIdZero,
    /// PUBLISH with an empty topic name.
    EmptyPublishTopic,
    /// CONNECT flag bits that contradict each other or are reserved.
    ReservedHeaderBits,
    /// CONNACK flag byte with a bit other than bit 0 set.
    ConnackReservedBits,
    /// CONNACK with SessionPresent set beside a refusal.
    SessionPresentWithError,
    /// A text field holds U+0000.
    Utf8NullCharacter,
    /// The declared body is longer than the limit.
    PacketTooLarge { len: usize, max: usize },
    /// SUBSCRIBE whose low header nibble is not `0010`.
    SubscribeReservedBits,
    /// UNSUBSCRIBE whose low header nibble is not `0010`.
    UnsubscribeReservedBits,
    /// One more unreleased inbound QoS 2 message than allowed.
    ReceiveMaximumExceeded { limit: usize },
    /// More filters in one SUBSCRIBE or UNSUBSCRIBE than allowed.
    TooManyFilters { count: usize, max: usize },
    /// A property that may occur once occurred again.
    DuplicateProperty(u8),
    /// A property value that is not allowed.
    MalformedProperty(u8),
    /// A property identifier that is not defined.
    UnknownProperty(u8),
    TopicAliasNotAccepted,
    UnexpectedAuthPacket,
}

#[derive(Debug, Clone, PartialEq, Eq)]
pub enum CodecError {
    UnexpectedEof,
    InvalidPacketType(u8),
    MalformedLength,
    InvalidUtf8,
    PayloadTooLong { len: usize, max: usize },
    QosInvalid(u8),
    ReservedFlagSet,
    /// A length-prefixed field longer than 65 535 bytes.
    FieldTooLong { kind: &'static str, len: usize },
    /// A PUBLISH above QoS 0 without a non-zero packet identifier.
    QosRequiresPacketId,
}

impl MqttError {
    /// A transport error with its message.
    pub fn io(message: String) -> (r: MqttError)
        ensures
            r == MqttError::Io(message),
    {
        MqttError::Io(message)
    }

    /// No MQTT error can be continued from.
    pub fn can_continue(&self) -> (r: bool)
        ensures
            !r,
    {
        false
    }
}

impl From<CodecError> for MqttError {
    fn from(e: CodecError) -> (r: MqttError) {
        MqttError::Codec(e)
    }
}

impl vstd::std_specs::convert::FromSpecImpl<CodecError> for MqttError {
    open spec fn obeys_from_spec() -> bool {
        true
    }

    open spec fn from_spec(e: CodecError) -> MqttError {
        MqttError::Codec(e)
    }
}

impl From<Violation> for MqttError {
    fn from(v: Violation) -> (r: MqttError) {
        MqttError::Protocol(v)
    }
}

impl vstd::std_specs::convert::FromSpecImpl<Violation> for MqttError {
    open spec fn obeys_from_spec() -> bool {
        true
    }

    open spec fn from_spec(v: Violation) -> MqttError {
        MqttError::Protocol(v)
    }
}

} // verus!
