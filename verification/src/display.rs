//! Texts for messages and logs. No secret shows in them.
use crate::buffer;
use crate::buffer::bytes_slice;
use crate::error::{CodecError, MqttError, TimeoutKind, Violation};
use crate::packet;
use crate::packet::{ConnackReturnCode, ConnectPacket, ProtocolVersion, WillPacket};
use crate::properties;
use crate::properties::{PropValue, Properties};
use crate::request::{Credentials, QoS};
use crate::text;
use crate::text::decimal_text;
use bytes::Bytes;
use std::sync::Arc;
use vstd::prelude::*;

verus! {

// ----------------------------------------------------------------------------
// Texts and bytes
// ----------------------------------------------------------------------------

/// A text in double quotes, with what cannot be printed escaped.
pub uninterp spec fn quoted(s: Seq<char>) -> Seq<char>;

/// `<str as std::fmt::Debug>::fmt`: the text in double quotes, with what cannot be
/// printed escaped. Which characters those are is not stated.
#[verifier::external_body]
fn quote(s: &str) -> (r: String)
    ensures
        r@ == quoted(s@),
{
    format!("{:?}", s)
}

/// A hexadecimal digit, in lower case.
pub open spec fn hex_digit(d: int) -> char {
    if d < 10 {
        text::digit(d)
    } else if d == 10 {
        'a'
    } else if d == 11 {
        'b'
    } else if d == 12 {
        'c'
    } else if d == 13 {
        'd'
    } else if d == 14 {
        'e'
    } else {
        'f'
    }
}

/// A byte in a byte string literal.
pub open spec fn byte_shown(b: u8) -> Seq<char> {
    if b == 10 {
        seq!['\\', 'n']
    } else if b == 13 {
        seq!['\\', 'r']
    } else if b == 9 {
        seq!['\\', 't']
    } else if b == 92 || b == 34 {
        seq!['\\', b as char]
    } else if b == 0 {
        seq!['\\', '0']
    } else if 32 <= b < 127 {
        seq![b as char]
    } else {
        seq!['\\', 'x', hex_digit(b as int / 16), hex_digit(b as int % 16)]
    }
}

/// Bytes one after the other, each as in a byte string literal.
pub open spec fn all_shown(b: Seq<u8>) -> Seq<char>
    decreases b.len(),
{
    if b.len() == 0 {
        Seq::empty()
    } else {
        all_shown(b.drop_last()) + byte_shown(b.last())
    }
}

/// Bytes as a byte string literal.
pub open spec fn bytes_shown(b: Seq<u8>) -> Seq<char> {
    seq!['b', '"'] + all_shown(b) + seq!['"']
}

/// `<bytes::Bytes as std::fmt::Debug>::fmt`: the bytes as a byte string literal.
#[verifier::external_body]
fn show_bytes(b: &Bytes) -> (r: String)
    ensures
        r@ == bytes_shown(buffer::bytes_of(*b)),
{
    format!("{:?}", b)
}

fn bool_text(b: bool) -> (r: &'static str)
    ensures
        r@ == bool_shown(b),
{
    if b {
        "true"
    } else {
        "false"
    }
}

pub open spec fn bool_shown(b: bool) -> Seq<char> {
    if b {
        "true"@
    } else {
        "false"@
    }
}

fn with_number(before: &str, n: u64, after: &str) -> (r: String)
    ensures
        r@ == before@ + text::decimal(n as nat) + after@,
{
    let mut s: String = before.to_owned();
    let digits: String = decimal_text(n);
    s.append(digits.as_str());
    s.append(after);
    s
}

fn with_text(before: &str, t: &str) -> (r: String)
    ensures
        r@ == before@ + t@,
{
    let mut s: String = before.to_owned();
    s.append(t);
    s
}

// ----------------------------------------------------------------------------
// Errors
// ----------------------------------------------------------------------------

pub open spec fn return_code_shown(c: ConnackReturnCode) -> Seq<char> {
    match c {
        ConnackReturnCode::Accepted => "Accepted"@,
        ConnackReturnCode::UnacceptableProtocolVersion => "UnacceptableProtocolVersion"@,
        ConnackReturnCode::IdentifierRejected => "IdentifierRejected"@,
        ConnackReturnCode::ServerUnavailable => "ServerUnavailable"@,
        ConnackReturnCode::BadUsernameOrPassword => "BadUsernameOrPassword"@,
        ConnackReturnCode::NotAuthorized => "NotAuthorized"@,
    }
}

fn return_code_text(c: ConnackReturnCode) -> (r: &'static str)
    ensures
        r@ == return_code_shown(c),
{
    match c {
        ConnackReturnCode::Accepted => "Accepted",
        ConnackReturnCode::UnacceptableProtocolVersion => "UnacceptableProtocolVersion",
        ConnackReturnCode::IdentifierRejected => "IdentifierRejected",
        ConnackReturnCode::ServerUnavailable => "ServerUnavailable",
        ConnackReturnCode::BadUsernameOrPassword => "BadUsernameOrPassword",
        ConnackReturnCode::NotAuthorized => "NotAuthorized",
    }
}

pub open spec fn timeout_shown(k: TimeoutKind) -> Seq<char> {
    match k {
        TimeoutKind::Connack => "Connack"@,
        TimeoutKind::ConnectReceive => "ConnectReceive"@,
        TimeoutKind::Ack => "Ack"@,
    }
}

fn timeout_text(k: TimeoutKind) -> (r: &'static str)
    ensures
        r@ == timeout_shown(k),
{
    match k {
        TimeoutKind::Connack => "Connack",
        TimeoutKind::ConnectReceive => "ConnectReceive",
        TimeoutKind::Ack => "Ack",
    }
}

/// What a violation is called, with its details.
pub open spec fn violation_shown(v: Violation) -> Seq<char> {
    match v {
        Violation::ExpectedConnack => "ExpectedConnack"@,
        Violation::ExpectedConnect => "ExpectedConnect"@,
        Violation::InvalidProtocolName => "InvalidProtocolName"@,
        Violation::EmptyTopic => "EmptyTopic"@,
        Violation::TopicTooLong => "TopicTooLong"@,
        Violation::WildcardInPublishTopic => "WildcardInPublishTopic"@,
        Violation::HashWildcardNotTerminal => "HashWildcardNotTerminal"@,
        Violation::WildcardMixedWithLiteral => "WildcardMixedWithLiteral"@,
        Violation::SessionAlreadyBound => "SessionAlreadyBound"@,
        Violation::DupSetOnQos0 => "DupSetOnQos0"@,
        Violation::PacketIdZero => "PacketIdZero"@,
        Violation::EmptyPublishTopic => "EmptyPublishTopic"@,
        Violation::ReservedHeaderBits => "ReservedHeaderBits"@,
        Violation::ConnackReservedBits => "ConnackReservedBits"@,
        Violation::SessionPresentWithError => "SessionPresentWithError"@,
        Violation::Utf8NullCharacter => "Utf8NullCharacter"@,
        Violation::SubscribeReservedBits => "SubscribeReservedBits"@,
        Violation::UnsubscribeReservedBits => "UnsubscribeReservedBits"@,
        Violation::TopicAliasNotAccepted => "TopicAliasNotAccepted"@,
        Violation::UnexpectedAuthPacket => "UnexpectedAuthPacket"@,
        Violation::UnsupportedProtocolLevel(x) => "UnsupportedProtocolLevel("@ + text::decimal(x as nat) + ")"@,
        Violation::DuplicateProperty(x) => "DuplicateProperty("@ + text::decimal(x as nat) + ")"@,
        Violation::MalformedProperty(x) => "MalformedProperty("@ + text::decimal(x as nat) + ")"@,
        Violation::UnknownProperty(x) => "UnknownProperty("@ + text::decimal(x as nat) + ")"@,
        Violation::ConnectionRefused(c) => "ConnectionRefused("@ + return_code_shown(c) + ")"@,
        Violation::UnexpectedPacket { expected, got } => "UnexpectedPacket { expected: "@ + quoted(
            expected@,
        ) + ", got: "@ + quoted(got@) + " }"@,
        Violation::PacketTooLarge { len, max } => "PacketTooLarge { len: "@ + text::decimal(
            len as nat,
        ) + ", max: "@ + text::decimal(max as nat) + " }"@,
        Violation::ReceiveMaximumExceeded { limit } => "ReceiveMaximumExceeded { limit: "@
            + text::decimal(limit as nat) + " }"@,
        Violation::TooManyFilters { count, max } => "TooManyFilters { count: "@ + text::decimal(
            count as nat,
        ) + ", max: "@ + text::decimal(max as nat) + " }"@,
    }
}

fn violation_text(v: &Violation) -> (r: String)
    ensures
        r@ == violation_shown(*v),
{
    match v {
        Violation::ExpectedConnack => "ExpectedConnack".to_owned(),
        Violation::ExpectedConnect => "ExpectedConnect".to_owned(),
        Violation::InvalidProtocolName => "InvalidProtocolName".to_owned(),
        Violation::EmptyTopic => "EmptyTopic".to_owned(),
        Violation::TopicTooLong => "TopicTooLong".to_owned(),
        Violation::WildcardInPublishTopic => "WildcardInPublishTopic".to_owned(),
        Violation::HashWildcardNotTerminal => "HashWildcardNotTerminal".to_owned(),
        Violation::WildcardMixedWithLiteral => "WildcardMixedWithLiteral".to_owned(),
        Violation::SessionAlreadyBound => "SessionAlreadyBound".to_owned(),
        Violation::DupSetOnQos0 => "DupSetOnQos0".to_owned(),
        Violation::PacketIdZero => "PacketIdZero".to_owned(),
        Violation::EmptyPublishTopic => "EmptyPublishTopic".to_owned(),
        Violation::ReservedHeaderBits => "ReservedHeaderBits".to_owned(),
        Violation::ConnackReservedBits => "ConnackReservedBits".to_owned(),
        Violation::SessionPresentWithError => "SessionPresentWithError".to_owned(),
        Violation::Utf8NullCharacter => "Utf8NullCharacter".to_owned(),
        Violation::SubscribeReservedBits => "SubscribeReservedBits".to_owned(),
        Violation::UnsubscribeReservedBits => "UnsubscribeReservedBits".to_owned(),
        Violation::TopicAliasNotAccepted => "TopicAliasNotAccepted".to_owned(),
        Violation::UnexpectedAuthPacket => "UnexpectedAuthPacket".to_owned(),
        Violation::UnsupportedProtocolLevel(x) => with_number("UnsupportedProtocolLevel(", *x as u64, ")"),
        Violation::DuplicateProperty(x) => with_number("DuplicateProperty(", *x as u64, ")"),
        Violation::MalformedProperty(x) => with_number("MalformedProperty(", *x as u64, ")"),
        Violation::UnknownProperty(x) => with_number("UnknownProperty(", *x as u64, ")"),
        Violation::ConnectionRefused(c) => {
            let mut s: String = with_text("ConnectionRefused(", return_code_text(*c));
            s.append(")");
            s
        },
        Violation::UnexpectedPacket { expected, got } => {
            let mut s: String = "UnexpectedPacket { expected: ".to_owned();
            let e: String = quote(expected);
            s.append(e.as_str());
            s.append(", got: ");
            let g: String = quote(got);
            s.append(g.as_str());
            s.append(" }");
            s
        },
        Violation::PacketTooLarge { len, max } => {
            let mut s: String = with_number("PacketTooLarge { len: ", *len as u64, ", max: ");
            let m: String = decimal_text(*max as u64);
            s.append(m.as_str());
            s.append(" }");
            s
        },
        Violation::ReceiveMaximumExceeded { limit } => with_number(
            "ReceiveMaximumExceeded { limit: ",
            *limit as u64,
            " }",
        ),
        Violation::TooManyFilters { count, max } => {
            let mut s: String = with_number("TooManyFilters { count: ", *count as u64, ", max: ");
            let m: String = decimal_text(*max as u64);
            s.append(m.as_str());
            s.append(" }");
            s
        },
    }
}

/// What a codec error is called, with its details.
pub open spec fn codec_error_shown(c: CodecError) -> Seq<char> {
    match c {
        CodecError::UnexpectedEof => "UnexpectedEof"@,
        CodecError::MalformedLength => "MalformedLength"@,
        CodecError::InvalidUtf8 => "InvalidUtf8"@,
        CodecError::ReservedFlagSet => "ReservedFlagSet"@,
        CodecError::QosRequiresPacketId => "QosRequiresPacketId"@,
        CodecError::InvalidPacketType(x) => "InvalidPacketType("@ + text::decimal(x as nat) + ")"@,
        CodecError::QosInvalid(x) => "QosInvalid("@ + text::decimal(x as nat) + ")"@,
        CodecError::PayloadTooLong { len, max } => "PayloadTooLong { len: "@ + text::decimal(
            len as nat,
        ) + ", max: "@ + text::decimal(max as nat) + " }"@,
        CodecError::FieldTooLong { kind, len } => "FieldTooLong { kind: "@ + quoted(kind@)
            + ", len: "@ + text::decimal(len as nat) + " }"@,
    }
}

fn codec_error_text(c: &CodecError) -> (r: String)
    ensures
        r@ == codec_error_shown(*c),
{
    match c {
        CodecError::UnexpectedEof => "UnexpectedEof".to_owned(),
        CodecError::MalformedLength => "MalformedLength".to_owned(),
        CodecError::InvalidUtf8 => "InvalidUtf8".to_owned(),
        CodecError::ReservedFlagSet => "ReservedFlagSet".to_owned(),
        CodecError::QosRequiresPacketId => "QosRequiresPacketId".to_owned(),
        CodecError::InvalidPacketType(x) => with_number("InvalidPacketType(", *x as u64, ")"),
        CodecError::QosInvalid(x) => with_number("QosInvalid(", *x as u64, ")"),
        CodecError::PayloadTooLong { len, max } => {
            let mut s: String = with_number("PayloadTooLong { len: ", *len as u64, ", max: ");
            let m: String = decimal_text(*max as u64);
            s.append(m.as_str());
            s.append(" }");
            s
        },
        CodecError::FieldTooLong { kind, len } => {
            let mut s: String = "FieldTooLong { kind: ".to_owned();
            let k: String = quote(kind);
            s.append(k.as_str());
            s.append(", len: ");
            let n: String = decimal_text(*len as u64);
            s.append(n.as_str());
            s.append(" }");
            s
        },
    }
}

/// The message of an error.
pub open spec fn error_shown(e: MqttError) -> Seq<char> {
    match e {
        MqttError::Io(m) => "I/O: "@ + m@,
        MqttError::ChannelClosed => "channel closed"@,
        MqttError::AckTimeout => "ack timeout"@,
        MqttError::Timeout(k) => "timeout: "@ + timeout_shown(k),
        MqttError::Configuration(m) => "configuration: "@ + m@,
        MqttError::NotConnected(m) => "not connected: "@ + m@,
        MqttError::Protocol(v) => "protocol violation: "@ + violation_shown(v),
        MqttError::Codec(c) => "codec: "@ + codec_error_shown(c),
        MqttError::Backpressure => "write queue full (backpressure)"@,
        MqttError::TooManyInflight { limit } => "too many inflight outbound ops (limit "@
            + text::decimal(limit as nat) + ")"@,
        MqttError::Unsupported(m) => "unsupported: "@ + m@,
    }
}

impl MqttError {
    /// The message of the error.
    pub fn message(&self) -> (r: String)
        ensures
            r@ == error_shown(*self),
    {
        match self {
            MqttError::Io(m) => with_text("I/O: ", m.as_str()),
            MqttError::ChannelClosed => "channel closed".to_owned(),
            MqttError::AckTimeout => "ack timeout".to_owned(),
            MqttError::Timeout(k) => with_text("timeout: ", timeout_text(*k)),
            MqttError::Configuration(m) => with_text("configuration: ", m.as_str()),
            MqttError::NotConnected(m) => with_text("not connected: ", m.as_str()),
            MqttError::Protocol(v) => {
                let t: String = violation_text(v);
                with_text("protocol violation: ", t.as_str())
            },
            MqttError::Codec(c) => {
                let t: String = codec_error_text(c);
                with_text("codec: ", t.as_str())
            },
            MqttError::Backpressure => "write queue full (backpressure)".to_owned(),
            MqttError::TooManyInflight { limit } => with_number(
                "too many inflight outbound ops (limit ",
                *limit as u64,
                ")",
            ),
            MqttError::Unsupported(m) => with_text("unsupported: ", m.as_str()),
        }
    }
}

// ----------------------------------------------------------------------------
// Properties
// ----------------------------------------------------------------------------

pub open spec fn value_shown(v: PropValue) -> Seq<char> {
    match v {
        PropValue::Byte(x) => text::decimal(x as nat),
        PropValue::Two(x) => text::decimal(x as nat),
        PropValue::Four(x) => text::decimal(x as nat),
        PropValue::Text(s) => quoted(s),
        PropValue::Data(b) => bytes_shown(b),
    }
}

pub open spec fn option_shown(v: Option<Seq<char>>) -> Seq<char> {
    match v {
        Some(s) => "Some("@ + s + ")"@,
        None => "None"@,
    }
}

fn put_option(out: &mut String, label: &str, v: Option<String>)
    ensures
        final(out)@ == old(out)@ + label@ + option_shown(
            match v {
                Some(s) => Some(s@),
                None => None,
            },
        ),
{
    out.append(label);
    match v {
        Some(s) => {
            let mut t: String = "Some(".to_owned();
            t.append(s.as_str());
            t.append(")");
            out.append(t.as_str());
        },
        None => out.append("None"),
    }
}

/// A text with a label and the value of a property behind it.
pub open spec fn named(before: Seq<char>, label: Seq<char>, v: Option<PropValue>) -> Seq<char> {
    before + label + option_shown(
        match v {
            Some(x) => Some(value_shown(x)),
            None => None,
        },
    )
}

fn put_byte(out: &mut String, label: &str, v: Option<u8>)
    ensures
        final(out)@ == named(old(out)@, label@, properties::byte_value(v)),
{
    let t: Option<String> = match v {
        Some(x) => Some(decimal_text(x as u64)),
        None => None,
    };
    put_option(out, label, t);
}

fn put_two(out: &mut String, label: &str, v: Option<u16>)
    ensures
        final(out)@ == named(old(out)@, label@, properties::two_value(v)),
{
    let t: Option<String> = match v {
        Some(x) => Some(decimal_text(x as u64)),
        None => None,
    };
    put_option(out, label, t);
}

fn put_four(out: &mut String, label: &str, v: Option<u32>)
    ensures
        final(out)@ == named(old(out)@, label@, properties::four_value(v)),
{
    let t: Option<String> = match v {
        Some(x) => Some(decimal_text(x as u64)),
        None => None,
    };
    put_option(out, label, t);
}

fn put_text(out: &mut String, label: &str, v: &Option<Arc<str>>)
    ensures
        final(out)@ == named(old(out)@, label@, properties::text_value(*v)),
{
    let t: Option<String> = match v {
        Some(x) => Some(quote(x)),
        None => None,
    };
    put_option(out, label, t);
}

fn put_data(out: &mut String, label: &str, v: &Option<Bytes>)
    ensures
        final(out)@ == named(old(out)@, label@, properties::data_value(*v)),
{
    let t: Option<String> = match v {
        Some(x) => Some(show_bytes(x)),
        None => None,
    };
    put_option(out, label, t);
}

/// Texts with a comma between any two.
pub open spec fn listed(v: Seq<Seq<char>>) -> Seq<char>
    decreases v.len(),
{
    if v.len() == 0 {
        Seq::empty()
    } else if v.len() == 1 {
        v[0]
    } else {
        listed(v.drop_last()) + ", "@ + v.last()
    }
}

pub open spec fn numbers_shown(v: Seq<u32>) -> Seq<char> {
    "["@ + listed(Seq::new(v.len(), |i: int| text::decimal(v[i] as nat))) + "]"@
}

pub open spec fn pair_shown(p: (Seq<char>, Seq<char>)) -> Seq<char> {
    "("@ + quoted(p.0) + ", "@ + quoted(p.1) + ")"@
}

pub open spec fn pairs_shown(v: Seq<(Seq<char>, Seq<char>)>) -> Seq<char> {
    "["@ + listed(Seq::new(v.len(), |i: int| pair_shown(v[i]))) + "]"@
}

/// The texts in square brackets.
fn put_list(out: &mut String, v: &Vec<String>)
    ensures
        final(out)@ == old(out)@ + ("["@ + listed(Seq::new(v@.len(), |i: int| v@[i]@)) + "]"@),
{
    let ghost all = Seq::new(v@.len(), |i: int| v@[i]@);
    let mut t: String = "[".to_owned();
    let mut i: usize = 0;
    while i < v.len()
        invariant
            i <= v@.len(),
            all == Seq::new(v@.len(), |i: int| v@[i]@),
            t@ == "["@ + listed(all.take(i as int)),
        decreases v@.len() - i,
    {
        proof {
            assert(all.take(i + 1).drop_last() =~= all.take(i as int));
            assert(all.take(i + 1).last() == v@[i as int]@);
            if i == 0 {
                assert(all.take(1)[0] == v@[0]@);
            }
        }
        if i > 0 {
            t.append(", ");
        }
        t.append(v[i].as_str());
        assert(t@ =~= "["@ + listed(all.take(i + 1)));
        i += 1;
    }
    assert(all.take(i as int) =~= all);
    t.append("]");
    out.append(t.as_str());
}

fn put_numbers(out: &mut String, v: &Vec<u32>)
    ensures
        final(out)@ == old(out)@ + numbers_shown(v@),
{
    let mut texts: Vec<String> = Vec::new();
    let mut i: usize = 0;
    while i < v.len()
        invariant
            i <= v@.len(),
            texts@.len() == i,
            forall|j: int| 0 <= j < i ==> (#[trigger] texts@[j])@ == text::decimal(v@[j] as nat),
        decreases v@.len() - i,
    {
        texts.push(decimal_text(v[i] as u64));
        i += 1;
    }
    assert(Seq::new(texts@.len(), |i: int| texts@[i]@) =~= Seq::new(
        v@.len(),
        |i: int| text::decimal(v@[i] as nat),
    ));
    put_list(out, &texts);
}

fn put_pairs(out: &mut String, v: &Vec<(Arc<str>, Arc<str>)>)
    ensures
        final(out)@ == old(out)@ + pairs_shown(properties::pairs_of(v@)),
{
    let mut texts: Vec<String> = Vec::new();
    let mut i: usize = 0;
    while i < v.len()
        invariant
            i <= v@.len(),
            texts@.len() == i,
            forall|j: int|
                0 <= j < i ==> (#[trigger] texts@[j])@ == pair_shown(properties::pairs_of(v@)[j]),
        decreases v@.len() - i,
    {
        let mut t: String = "(".to_owned();
        let name: String = quote(&v[i].0);
        t.append(name.as_str());
        t.append(", ");
        let value: String = quote(&v[i].1);
        t.append(value.as_str());
        t.append(")");
        texts.push(t);
        i += 1;
    }
    let ghost pairs = properties::pairs_of(v@);
    assert(Seq::new(texts@.len(), |i: int| texts@[i]@) =~= Seq::new(
        pairs.len(),
        |i: int| pair_shown(pairs[i]),
    ));
    put_list(out, &texts);
}

/// The value of a property in a block.
pub open spec fn single_of(m: properties::PropertiesModel, id: u8) -> Option<PropValue> {
    if m.singles.contains_key(id) {
        Some(m.singles[id])
    } else {
        None
    }
}

pub open spec fn properties_shown(m: properties::PropertiesModel) -> Seq<char> {
    let s = named(Seq::<char>::empty(), "Properties { payload_format_indicator: "@, single_of(m, properties::PAYLOAD_FORMAT_INDICATOR));
    let s = named(s, ", message_expiry_interval: "@, single_of(m, properties::MESSAGE_EXPIRY_INTERVAL));
    let s = named(s, ", content_type: "@, single_of(m, properties::CONTENT_TYPE));
    let s = named(s, ", response_topic: "@, single_of(m, properties::RESPONSE_TOPIC));
    let s = named(s, ", correlation_data: "@, single_of(m, properties::CORRELATION_DATA));
    let s = s + ", subscription_identifiers: "@ + numbers_shown(m.subscription_identifiers);
    let s = named(s, ", session_expiry_interval: "@, single_of(m, properties::SESSION_EXPIRY_INTERVAL));
    let s = named(s, ", assigned_client_identifier: "@, single_of(m, properties::ASSIGNED_CLIENT_IDENTIFIER));
    let s = named(s, ", server_keep_alive: "@, single_of(m, properties::SERVER_KEEP_ALIVE));
    let s = named(s, ", authentication_method: "@, single_of(m, properties::AUTHENTICATION_METHOD));
    let s = named(s, ", authentication_data: "@, single_of(m, properties::AUTHENTICATION_DATA));
    let s = named(s, ", request_problem_information: "@, single_of(m, properties::REQUEST_PROBLEM_INFORMATION));
    let s = named(s, ", will_delay_interval: "@, single_of(m, properties::WILL_DELAY_INTERVAL));
    let s = named(s, ", request_response_information: "@, single_of(m, properties::REQUEST_RESPONSE_INFORMATION));
    let s = named(s, ", response_information: "@, single_of(m, properties::RESPONSE_INFORMATION));
    let s = named(s, ", server_reference: "@, single_of(m, properties::SERVER_REFERENCE));
    let s = named(s, ", reason_string: "@, single_of(m, properties::REASON_STRING));
    let s = named(s, ", receive_maximum: "@, single_of(m, properties::RECEIVE_MAXIMUM));
    let s = named(s, ", topic_alias_maximum: "@, single_of(m, properties::TOPIC_ALIAS_MAXIMUM));
    let s = named(s, ", topic_alias: "@, single_of(m, properties::TOPIC_ALIAS));
    let s = named(s, ", maximum_qos: "@, single_of(m, properties::MAXIMUM_QOS));
    let s = named(s, ", retain_available: "@, single_of(m, properties::RETAIN_AVAILABLE));
    let s = s + ", user_properties: "@ + pairs_shown(m.user_properties);
    let s = named(s, ", maximum_packet_size: "@, single_of(m, properties::MAXIMUM_PACKET_SIZE));
    let s = named(s, ", wildcard_subscription_available: "@, single_of(m, properties::WILDCARD_SUBSCRIPTION_AVAILABLE));
    let s = named(s, ", subscription_identifier_available: "@, single_of(m, properties::SUBSCRIPTION_IDENTIFIER_AVAILABLE));
    let s = named(s, ", shared_subscription_available: "@, single_of(m, properties::SHARED_SUBSCRIPTION_AVAILABLE));
    s + " }"@
}

fn properties_text(p: &Properties) -> (r: String)
    ensures
        r@ == properties_shown(p@),
{
    proof {
        assert forall|id: u8| single_of(p@, id) == #[trigger] properties::single(*p, id) by {}
        reveal_strlit("");
        assert(""@ =~= Seq::<char>::empty());
    }
    let mut out: String = "".to_owned();
    put_byte(&mut out, "Properties { payload_format_indicator: ", p.payload_format_indicator);
    put_four(&mut out, ", message_expiry_interval: ", p.message_expiry_interval);
    put_text(&mut out, ", content_type: ", &p.content_type);
    put_text(&mut out, ", response_topic: ", &p.response_topic);
    put_data(&mut out, ", correlation_data: ", &p.correlation_data);
    out.append(", subscription_identifiers: ");
    put_numbers(&mut out, &p.subscription_identifiers);
    put_four(&mut out, ", session_expiry_interval: ", p.session_expiry_interval);
    put_text(&mut out, ", assigned_client_identifier: ", &p.assigned_client_identifier);
    put_two(&mut out, ", server_keep_alive: ", p.server_keep_alive);
    put_text(&mut out, ", authentication_method: ", &p.authentication_method);
    put_data(&mut out, ", authentication_data: ", &p.authentication_data);
    put_byte(&mut out, ", request_problem_information: ", p.request_problem_information);
    put_four(&mut out, ", will_delay_interval: ", p.will_delay_interval);
    put_byte(&mut out, ", request_response_information: ", p.request_response_information);
    put_text(&mut out, ", response_information: ", &p.response_information);
    put_text(&mut out, ", server_reference: ", &p.server_reference);
    put_text(&mut out, ", reason_string: ", &p.reason_string);
    put_two(&mut out, ", receive_maximum: ", p.receive_maximum);
    put_two(&mut out, ", topic_alias_maximum: ", p.topic_alias_maximum);
    put_two(&mut out, ", topic_alias: ", p.topic_alias);
    put_byte(&mut out, ", maximum_qos: ", p.maximum_qos);
    put_byte(&mut out, ", retain_available: ", p.retain_available);
    out.append(", user_properties: ");
    put_pairs(&mut out, &p.user_properties);
    put_four(&mut out, ", maximum_packet_size: ", p.maximum_packet_size);
    put_byte(&mut out, ", wildcard_subscription_available: ", p.wildcard_subscription_available);
    put_byte(&mut out, ", subscription_identifier_available: ", p.subscription_identifier_available);
    put_byte(&mut out, ", shared_subscription_available: ", p.shared_subscription_available);
    out.append(" }");
    out
}

// ----------------------------------------------------------------------------
// Packets
// ----------------------------------------------------------------------------

pub open spec fn qos_shown(q: QoS) -> Seq<char> {
    match q {
        QoS::AtMostOnce => "AtMostOnce"@,
        QoS::AtLeastOnce => "AtLeastOnce"@,
        QoS::ExactlyOnce => "ExactlyOnce"@,
    }
}

fn qos_text(q: QoS) -> (r: &'static str)
    ensures
        r@ == qos_shown(q),
{
    match q {
        QoS::AtMostOnce => "AtMostOnce",
        QoS::AtLeastOnce => "AtLeastOnce",
        QoS::ExactlyOnce => "ExactlyOnce",
    }
}

pub open spec fn version_shown(v: ProtocolVersion) -> Seq<char> {
    match v {
        ProtocolVersion::V311 => "V311"@,
        ProtocolVersion::V5 => "V5"@,
    }
}

fn version_text(v: ProtocolVersion) -> (r: &'static str)
    ensures
        r@ == version_shown(v),
{
    match v {
        ProtocolVersion::V311 => "V311",
        ProtocolVersion::V5 => "V5",
    }
}

pub open spec fn will_shown(w: packet::WillModel) -> Seq<char> {
    "WillPacket { topic: "@ + quoted(w.topic) + ", payload: "@ + bytes_shown(w.payload) + ", qos: "@
        + qos_shown(w.qos) + ", retain: "@ + bool_shown(w.retain) + ", properties: "@
        + properties_shown(w.properties) + " }"@
}

fn will_text(w: &WillPacket) -> (r: String)
    ensures
        r@ == will_shown(w@),
{
    let mut out: String = "WillPacket { topic: ".to_owned();
    let topic: String = quote(&w.topic);
    out.append(topic.as_str());
    out.append(", payload: ");
    let payload: String = show_bytes(&w.payload);
    out.append(payload.as_str());
    out.append(", qos: ");
    out.append(qos_text(w.qos));
    out.append(", retain: ");
    out.append(bool_text(w.retain));
    out.append(", properties: ");
    let properties: String = properties_text(&w.properties);
    out.append(properties.as_str());
    out.append(" }");
    out
}

/// What stands for a secret of this many bytes.
pub open spec fn redacted(len: nat) -> Seq<char> {
    "<redacted: "@ + text::decimal(len) + " bytes>"@
}

/// What a log shows of a CONNECT: everything but the password, of which it shows the
/// length.
pub open spec fn connect_shown(c: packet::ConnectModel) -> Seq<char> {
    "ConnectPacket { version: "@ + version_shown(c.version) + ", properties: "@ + properties_shown(
        c.properties,
    ) + ", client_id: "@ + quoted(c.client_id) + ", clean_session: "@ + bool_shown(c.clean_session)
        + ", keep_alive: "@ + text::decimal(c.keep_alive as nat) + ", username: "@ + option_shown(
        match c.username {
            Some(u) => Some(quoted(u)),
            None => None,
        },
    ) + ", password: "@ + option_shown(
        match c.password {
            Some(p) => Some("\""@ + redacted(p.len()) + "\""@),
            None => None,
        },
    ) + ", will: "@ + option_shown(
        match c.will {
            Some(w) => Some(will_shown(w)),
            None => None,
        },
    ) + " }"@
}

impl ConnectPacket {
    /// A text for logs, in which the password does not show.
    pub fn debug_text(&self) -> (r: String)
        ensures
            r@ == connect_shown(self@),
    {
        let mut out: String = "ConnectPacket { version: ".to_owned();
        out.append(version_text(self.version));
        out.append(", properties: ");
        let properties: String = properties_text(&self.properties);
        out.append(properties.as_str());
        out.append(", client_id: ");
        let client_id: String = quote(&self.client_id);
        out.append(client_id.as_str());
        out.append(", clean_session: ");
        out.append(bool_text(self.clean_session));
        out.append(", keep_alive: ");
        let keep_alive: String = decimal_text(self.keep_alive as u64);
        out.append(keep_alive.as_str());
        let username: Option<String> = match &self.username {
            Some(u) => Some(quote(u)),
            None => None,
        };
        put_option(&mut out, ", username: ", username);
        let password: Option<String> = match &self.password {
            Some(p) => {
                let mut t: String = "\"".to_owned();
                let shown: String = with_number(
                    "<redacted: ",
                    p.as_slice().len() as u64,
                    " bytes>",
                );
                t.append(shown.as_str());
                t.append("\"");
                Some(t)
            },
            None => None,
        };
        put_option(&mut out, ", password: ", password);
        let will: Option<String> = match &self.will {
            Some(w) => Some(will_text(w)),
            None => None,
        };
        put_option(&mut out, ", will: ", will);
        out.append(" }");
        out
    }
}

/// What a log shows of credentials.
pub open spec fn credentials_shown(username: Seq<char>, password: Seq<u8>) -> Seq<char> {
    "Credentials { username: "@ + quoted(username) + ", password: "@ + redacted(password.len())
        + " }"@
}

impl Credentials {
    /// A text for logs, in which the password does not show.
    pub fn debug_text(&self) -> (r: String)
        ensures
            r@ == credentials_shown((*self.username)@, buffer::bytes_of(self.password)),
    {
        let mut out: String = "Credentials { username: ".to_owned();
        let username: String = quote(&self.username);
        out.append(username.as_str());
        out.append(", password: ");
        let shown: String = with_number(
            "<redacted: ",
            bytes_slice(&self.password).len() as u64,
            " bytes>",
        );
        out.append(shown.as_str());
        out.append(" }");
        out
    }
}

/// Of a password only the length shows: CONNECTs that differ in nothing else than
/// passwords of one length have the same text, and so have credentials.
pub proof fn law_password_hidden(c: packet::ConnectModel, username: Seq<char>, p: Seq<u8>, q: Seq<u8>)
    requires
        p.len() == q.len(),
    ensures
        connect_shown(packet::ConnectModel { password: Some(p), ..c }) == connect_shown(
            packet::ConnectModel { password: Some(q), ..c },
        ),
        credentials_shown(username, p) == credentials_shown(username, q),
{
}

} // verus!
