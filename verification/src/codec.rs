//! The MQTT 3.1.1 wire codec.
//!
//! `parse_model` and `encode_model` say what a packet body stands for and how a
//! packet is written; the functions below compute exactly that.
use crate::buffer;
use crate::buffer::{buffer_extend, buffer_slice, buffer_split_to, bytes_from_vec, bytes_slice, SecretBytes};
use crate::error::{CodecError, MqttError, Violation};
use crate::packet;
use crate::packet::{
    ConnackPacket, ConnackReturnCode, ConnectPacket, Packet, PacketType, ProtocolVersion,
    PublishPacket, SubackPacket, SubscribePacket, TopicSubscription, UnsubackPacket,
    UnsubscribePacket, WillPacket,
};
use crate::properties;
use crate::properties::Properties;
use crate::request;
use crate::request::{QoS, SubackCode};
use crate::text;
use crate::topic;
use crate::wire;
use crate::wire::{
    put_all, put_u16, read_arc_str, read_bytes, read_slice, read_u16, read_vbi, write_bytes,
    write_str, write_vbi,
};
use bytes::BytesMut;
use std::sync::Arc;
use vstd::prelude::*;
use vstd::slice::*;
use vstd::utf8::*;

verus! {

/// The largest body: what a four-byte variable byte integer can spell.
pub const MQTT_SPEC_MAX_PACKET_SIZE: usize = 268_435_455;

// ----------------------------------------------------------------------------
// What a body stands for
// ----------------------------------------------------------------------------

/// Whether the bit of a weight is set.
pub open spec fn bit(b: u8, weight: u8) -> bool {
    (b / weight) % 2 == 1
}

/// The type in the high nibble of the fixed header.
pub open spec fn type_of(first: u8) -> Option<PacketType> {
    let n = first / 16;
    if n == 1 {
        Some(PacketType::Connect)
    } else if n == 2 {
        Some(PacketType::Connack)
    } else if n == 3 {
        Some(PacketType::Publish)
    } else if n == 4 {
        Some(PacketType::Puback)
    } else if n == 5 {
        Some(PacketType::Pubrec)
    } else if n == 6 {
        Some(PacketType::Pubrel)
    } else if n == 7 {
        Some(PacketType::Pubcomp)
    } else if n == 8 {
        Some(PacketType::Subscribe)
    } else if n == 9 {
        Some(PacketType::Suback)
    } else if n == 10 {
        Some(PacketType::Unsubscribe)
    } else if n == 11 {
        Some(PacketType::Unsuback)
    } else if n == 12 {
        Some(PacketType::Pingreq)
    } else if n == 13 {
        Some(PacketType::Pingresp)
    } else if n == 14 {
        Some(PacketType::Disconnect)
    } else if n == 15 {
        Some(PacketType::Auth)
    } else {
        None
    }
}

/// The bytes of the protocol name with its length.
pub open spec fn protocol_name() -> Seq<u8> {
    seq![0u8, 4, 0x4D, 0x51, 0x54, 0x54]
}

pub open spec fn codec_err<T>(e: CodecError) -> Result<T, MqttError> {
    Err(MqttError::Codec(e))
}

pub open spec fn violation<T>(v: Violation) -> Result<T, MqttError> {
    Err(MqttError::Protocol(v))
}

/// The will of a CONNECT, where its flag is set.
pub open spec fn will_at(b: Seq<u8>, at: int, flags: u8) -> wire::Read<Option<packet::WillModel>> {
    if !bit(flags, 4) {
        Ok((None, at))
    } else {
        match wire::text_at(b, at) {
            Err(e) => Err(e),
            Ok((topic, p)) => match wire::field_at(b, p) {
                Err(e) => Err(e),
                Ok((payload, q)) => match request::qos_from_level((flags / 8) % 4) {
                    None => codec_err(CodecError::QosInvalid((flags / 8) % 4)),
                    Some(qos) => Ok(
                        (
                            Some(
                                packet::WillModel {
                                    topic,
                                    payload,
                                    qos,
                                    retain: bit(flags, 32),
                                    properties: properties::no_properties(),
                                },
                            ),
                            q,
                        ),
                    ),
                },
            },
        }
    }
}

/// A text, where it is there.
pub open spec fn opt_text_at(b: Seq<u8>, at: int, there: bool) -> wire::Read<Option<Seq<char>>> {
    if !there {
        Ok((None, at))
    } else {
        match wire::text_at(b, at) {
            Err(e) => Err(e),
            Ok((s, p)) => Ok((Some(s), p)),
        }
    }
}

/// Bytes, where they are there.
pub open spec fn opt_field_at(b: Seq<u8>, at: int, there: bool) -> wire::Read<Option<Seq<u8>>> {
    if !there {
        Ok((None, at))
    } else {
        match wire::field_at(b, at) {
            Err(e) => Err(e),
            Ok((s, p)) => Ok((Some(s), p)),
        }
    }
}

/// What is wrong with the flag byte of a CONNECT: the reserved bit, a will level
/// or will retain without a will, or a password without a user name.
pub open spec fn connect_flags_ok(flags: u8) -> bool {
    &&& !bit(flags, 1)
    &&& !bit(flags, 4) ==> (flags / 8) % 4 == 0 && !bit(flags, 32)
    &&& !bit(flags, 128) ==> !bit(flags, 64)
}

/// The fields of a CONNECT behind its fixed part.
pub open spec fn connect_fields(b: Seq<u8>, flags: u8) -> Result<packet::ConnectModel, MqttError> {
    match wire::text_at(b, 10) {
        Err(e) => Err(e),
        Ok((client_id, p)) => match will_at(b, p, flags) {
            Err(e) => Err(e),
            Ok((will, q)) => match opt_text_at(b, q, bit(flags, 128)) {
                Err(e) => Err(e),
                Ok((username, r)) => match opt_field_at(b, r, bit(flags, 64)) {
                    Err(e) => Err(e),
                    Ok((password, _)) => Ok(
                        packet::ConnectModel {
                            version: ProtocolVersion::V311,
                            properties: properties::no_properties(),
                            client_id,
                            clean_session: bit(flags, 2),
                            keep_alive: wire::be16(b[8], b[9]),
                            username,
                            password,
                            will,
                        },
                    ),
                },
            },
        },
    }
}

pub open spec fn connect_model(b: Seq<u8>) -> Result<packet::ConnectModel, MqttError> {
    if b.len() < 10 {
        codec_err(CodecError::UnexpectedEof)
    } else if b.subrange(0, 6) != protocol_name() {
        violation(Violation::InvalidProtocolName)
    } else if b[6] != 4 {
        violation(Violation::UnsupportedProtocolLevel(b[6]))
    } else if !connect_flags_ok(b[7]) {
        violation(Violation::ReservedHeaderBits)
    } else {
        connect_fields(b, b[7])
    }
}

pub open spec fn connack_model(b: Seq<u8>) -> Result<packet::ConnackModel, MqttError> {
    if b.len() < 2 {
        codec_err(CodecError::UnexpectedEof)
    } else if b[0] > 1 {
        violation(Violation::ConnackReservedBits)
    } else {
        match packet::return_code_from_byte(b[1]) {
            None => codec_err(CodecError::InvalidPacketType(b[1])),
            Some(code) => if b[0] == 1 && code != ConnackReturnCode::Accepted {
                violation(Violation::SessionPresentWithError)
            } else {
                Ok(
                    packet::ConnackModel {
                        session_present: b[0] == 1,
                        return_code: code,
                        properties: properties::no_properties(),
                    },
                )
            },
        }
    }
}

/// The packet identifier of a PUBLISH: none at QoS 0.
pub open spec fn publish_id_at(b: Seq<u8>, at: int, qos: QoS) -> wire::Read<Option<u16>> {
    if qos == QoS::AtMostOnce {
        Ok((None, at))
    } else {
        match wire::u16_at(b, at) {
            Err(e) => Err(e),
            Ok((id, p)) => if id == 0 {
                violation(Violation::PacketIdZero)
            } else {
                Ok((Some(id), p))
            },
        }
    }
}

pub open spec fn publish_model(first: u8, b: Seq<u8>) -> Result<packet::PublishModel, MqttError> {
    if b.len() < 2 {
        codec_err(CodecError::UnexpectedEof)
    } else {
        match request::qos_from_level((first / 2) % 4) {
            None => codec_err(CodecError::QosInvalid((first / 2) % 4)),
            Some(qos) => if bit(first, 8) && qos == QoS::AtMostOnce {
                violation(Violation::DupSetOnQos0)
            } else {
                match wire::text_at(b, 0) {
                    Err(e) => Err(e),
                    Ok((topic, p)) => if topic.len() == 0 {
                        violation(Violation::EmptyPublishTopic)
                    } else {
                        match topic::check_topic(topic) {
                            Err(e) => Err(e),
                            Ok(_) => match publish_id_at(b, p, qos) {
                                Err(e) => Err(e),
                                Ok((packet_id, q)) => Ok(
                                    packet::PublishModel {
                                        topic,
                                        payload: b.subrange(q, b.len() as int),
                                        dup: bit(first, 8),
                                        qos,
                                        retain: bit(first, 1),
                                        packet_id,
                                        properties: properties::no_properties(),
                                    },
                                ),
                            },
                        }
                    },
                }
            },
        }
    }
}

/// The packet identifier of an acknowledgement, which is never 0.
pub open spec fn ack_id(first: u8, nibble: u8, b: Seq<u8>) -> Result<u16, MqttError> {
    if b.len() != 2 {
        codec_err(CodecError::PayloadTooLong { len: b.len() as usize, max: 2 })
    } else if first % 16 != nibble {
        codec_err(CodecError::ReservedFlagSet)
    } else if wire::be16(b[0], b[1]) == 0 {
        violation(Violation::PacketIdZero)
    } else {
        Ok(wire::be16(b[0], b[1]))
    }
}

/// The filters of a SUBSCRIBE from a position on, behind those already read.
pub open spec fn filters_at(b: Seq<u8>, at: int, acc: Seq<(Seq<char>, QoS)>) -> Result<
    Seq<(Seq<char>, QoS)>,
    MqttError,
>
    decreases b.len() - at,
{
    if at >= b.len() {
        Ok(acc)
    } else {
        match wire::text_at(b, at) {
            Err(e) => Err(e),
            Ok((s, p)) => if p >= b.len() || p < at {
                codec_err(CodecError::UnexpectedEof)
            } else {
                match request::qos_from_level(b[p]) {
                    None => codec_err(CodecError::QosInvalid(b[p])),
                    Some(q) => filters_at(b, p + 1, acc.push((s, q))),
                }
            },
        }
    }
}

/// The filters of an UNSUBSCRIBE from a position on, behind those already read.
pub open spec fn topics_at(b: Seq<u8>, at: int, acc: Seq<Seq<char>>) -> Result<
    Seq<Seq<char>>,
    MqttError,
>
    decreases b.len() - at,
{
    if at >= b.len() {
        Ok(acc)
    } else {
        match wire::text_at(b, at) {
            Err(e) => Err(e),
            Ok((s, p)) => if p <= at {
                codec_err(CodecError::UnexpectedEof)
            } else {
                topics_at(b, p, acc.push(s))
            },
        }
    }
}

/// The codes of a SUBACK from a position on, behind those already read.
pub open spec fn codes_at(b: Seq<u8>, at: int, acc: Seq<SubackCode>) -> Result<
    Seq<SubackCode>,
    MqttError,
>
    decreases b.len() - at,
{
    if at >= b.len() {
        Ok(acc)
    } else {
        match request::suback_from_byte(b[at]) {
            None => codec_err(CodecError::InvalidPacketType(b[at])),
            Some(c) => codes_at(b, at + 1, acc.push(c)),
        }
    }
}

pub open spec fn subscribe_model(first: u8, b: Seq<u8>) -> Result<packet::PacketModel, MqttError> {
    if first % 16 != 2 {
        violation(Violation::SubscribeReservedBits)
    } else if b.len() < 5 {
        codec_err(CodecError::UnexpectedEof)
    } else {
        match filters_at(b, 2, seq![]) {
            Err(e) => Err(e),
            Ok(subscriptions) => Ok(
                packet::PacketModel::Subscribe { packet_id: wire::be16(b[0], b[1]), subscriptions },
            ),
        }
    }
}

pub open spec fn suback_model(b: Seq<u8>) -> Result<packet::PacketModel, MqttError> {
    if b.len() < 3 {
        codec_err(CodecError::UnexpectedEof)
    } else if wire::be16(b[0], b[1]) == 0 {
        violation(Violation::PacketIdZero)
    } else {
        match codes_at(b, 2, seq![]) {
            Err(e) => Err(e),
            Ok(return_codes) => Ok(
                packet::PacketModel::Suback { packet_id: wire::be16(b[0], b[1]), return_codes },
            ),
        }
    }
}

pub open spec fn unsubscribe_model(first: u8, b: Seq<u8>) -> Result<
    packet::PacketModel,
    MqttError,
> {
    if first % 16 != 2 {
        violation(Violation::UnsubscribeReservedBits)
    } else if b.len() < 4 {
        codec_err(CodecError::UnexpectedEof)
    } else {
        match topics_at(b, 2, seq![]) {
            Err(e) => Err(e),
            Ok(topics) => Ok(
                packet::PacketModel::Unsubscribe { packet_id: wire::be16(b[0], b[1]), topics },
            ),
        }
    }
}

pub open spec fn unsuback_model(b: Seq<u8>) -> Result<packet::PacketModel, MqttError> {
    if b.len() != 2 {
        codec_err(CodecError::PayloadTooLong { len: b.len() as usize, max: 2 })
    } else if wire::be16(b[0], b[1]) == 0 {
        violation(Violation::PacketIdZero)
    } else {
        Ok(
            packet::PacketModel::Unsuback {
                packet_id: wire::be16(b[0], b[1]),
                reason_codes: Seq::empty(),
            },
        )
    }
}

/// A packet without a body.
pub open spec fn bare(b: Seq<u8>, m: packet::PacketModel) -> Result<packet::PacketModel, MqttError> {
    if b.len() != 0 {
        codec_err(CodecError::PayloadTooLong { len: b.len() as usize, max: 0 })
    } else {
        Ok(m)
    }
}

/// What a body stands for, under the first byte of its frame.
pub open spec fn parse_model(first: u8, t: PacketType, b: Seq<u8>) -> Result<
    packet::PacketModel,
    MqttError,
> {
    match t {
        PacketType::Connect => match connect_model(b) {
            Ok(c) => Ok(packet::PacketModel::Connect(c)),
            Err(e) => Err(e),
        },
        PacketType::Connack => match connack_model(b) {
            Ok(c) => Ok(packet::PacketModel::Connack(c)),
            Err(e) => Err(e),
        },
        PacketType::Publish => match publish_model(first, b) {
            Ok(p) => Ok(packet::PacketModel::Publish(p)),
            Err(e) => Err(e),
        },
        PacketType::Puback => match ack_id(first, 0, b) {
            Ok(id) => Ok(packet::PacketModel::Puback(id)),
            Err(e) => Err(e),
        },
        PacketType::Pubrec => match ack_id(first, 0, b) {
            Ok(id) => Ok(packet::PacketModel::Pubrec(id)),
            Err(e) => Err(e),
        },
        PacketType::Pubrel => match ack_id(first, 2, b) {
            Ok(id) => Ok(packet::PacketModel::Pubrel(id)),
            Err(e) => Err(e),
        },
        PacketType::Pubcomp => match ack_id(first, 0, b) {
            Ok(id) => Ok(packet::PacketModel::Pubcomp(id)),
            Err(e) => Err(e),
        },
        PacketType::Subscribe => subscribe_model(first, b),
        PacketType::Suback => suback_model(b),
        PacketType::Unsubscribe => unsubscribe_model(first, b),
        PacketType::Unsuback => unsuback_model(b),
        PacketType::Pingreq => bare(b, packet::PacketModel::Pingreq),
        PacketType::Pingresp => bare(b, packet::PacketModel::Pingresp),
        PacketType::Disconnect => bare(b, packet::PacketModel::Disconnect),
        PacketType::Auth => violation(Violation::UnexpectedAuthPacket),
    }
}

/// What stands at the head of a buffer.
pub enum Head {
    /// Not yet a whole frame.
    Partial,
    /// No frame can start like this.
    Refused(MqttError),
    /// A whole frame: its length, and the packet or the error in it.
    Whole { total: int, packet: Result<packet::PacketModel, MqttError> },
}

/// What stands at the head of a buffer, where no body may be longer than `max`.
pub open spec fn head_of(b: Seq<u8>, max: usize) -> Head {
    if b.len() < 2 {
        Head::Partial
    } else {
        match type_of(b[0]) {
            None => Head::Refused(MqttError::Codec(CodecError::InvalidPacketType(b[0] / 16))),
            Some(t) => match wire::vbi_at(b, 1, 4) {
                Err(e) => if e == MqttError::Codec(CodecError::UnexpectedEof) {
                    Head::Partial
                } else {
                    Head::Refused(e)
                },
                Ok((n, p)) => if n > max {
                    Head::Refused(
                        MqttError::Protocol(Violation::PacketTooLarge { len: n as usize, max }),
                    )
                } else if b.len() < p + n {
                    Head::Partial
                } else {
                    Head::Whole {
                        total: p + n,
                        packet: parse_model(b[0], t, b.subrange(p, p + n)),
                    }
                },
            },
        }
    }
}

// ----------------------------------------------------------------------------
// How a packet is written
// ----------------------------------------------------------------------------

/// A frame: its first byte, the length of its body, and the body.
pub open spec fn frame(first: u8, body: Seq<u8>) -> Seq<u8> {
    seq![first] + wire::vbi(body.len()) + body
}

/// What was written so far with one field more, or the first error.
pub open spec fn append_field(
    acc: Result<Seq<u8>, MqttError>,
    raw: Seq<u8>,
    kind: &'static str,
) -> Result<Seq<u8>, MqttError> {
    match acc {
        Err(e) => Err(e),
        Ok(b) => if raw.len() > 65535 {
            Err(wire::field_too_long(kind, raw.len()))
        } else {
            Ok(b + wire::field(raw))
        },
    }
}

pub open spec fn flag(set: bool, weight: int) -> int {
    if set {
        weight
    } else {
        0
    }
}

/// The flag byte of a CONNECT.
pub open spec fn connect_flags(c: packet::ConnectModel) -> u8 {
    (flag(c.clean_session, 2) + (match c.will {
        Some(w) => 4 + 8 * request::qos_level(w.qos) + flag(w.retain, 32),
        None => 0,
    }) + flag(c.username is Some, 128) + flag(c.password is Some, 64)) as u8
}

/// The fixed part of a CONNECT.
pub open spec fn connect_fixed(c: packet::ConnectModel) -> Seq<u8> {
    protocol_name() + seq![4u8, connect_flags(c)] + wire::be16_bytes(c.keep_alive)
}

pub open spec fn connect_body(c: packet::ConnectModel) -> Result<Seq<u8>, MqttError> {
    let a = append_field(Ok(connect_fixed(c)), encode_utf8(c.client_id), "client_id");
    let b = match c.will {
        Some(w) => append_field(
            append_field(a, encode_utf8(w.topic), "will.topic"),
            w.payload,
            "will.payload",
        ),
        None => a,
    };
    let d = match c.username {
        Some(u) => append_field(b, encode_utf8(u), "username"),
        None => b,
    };
    match c.password {
        Some(p) => append_field(d, p, "password"),
        None => d,
    }
}

/// The first byte of a PUBLISH.
pub open spec fn publish_first(p: packet::PublishModel) -> u8 {
    (48 + flag(p.dup, 8) + 2 * request::qos_level(p.qos) + flag(p.retain, 1)) as u8
}

/// The bytes of a packet identifier that is there above QoS 0.
pub open spec fn id_bytes(p: packet::PublishModel) -> Seq<u8> {
    if p.qos == QoS::AtMostOnce {
        seq![]
    } else {
        wire::be16_bytes(p.packet_id->0)
    }
}

pub open spec fn publish_body(p: packet::PublishModel) -> Result<Seq<u8>, MqttError> {
    match append_field(Ok(seq![]), encode_utf8(p.topic), "publish.topic") {
        Err(e) => Err(e),
        Ok(b) => if p.qos != QoS::AtMostOnce && (p.packet_id is None || p.packet_id == Some(
            0u16,
        )) {
            codec_err(CodecError::QosRequiresPacketId)
        } else {
            Ok(b + id_bytes(p) + p.payload)
        },
    }
}

/// The filters of a SUBSCRIBE, each with its level, behind what was written.
pub open spec fn filters_bytes(acc: Seq<u8>, subs: Seq<(Seq<char>, QoS)>) -> Result<
    Seq<u8>,
    MqttError,
>
    decreases subs.len(),
{
    if subs.len() == 0 {
        Ok(acc)
    } else {
        match append_field(
            filters_bytes(acc, subs.drop_last()),
            encode_utf8(subs.last().0),
            "subscribe.filter",
        ) {
            Err(e) => Err(e),
            Ok(b) => Ok(b.push(request::qos_level(subs.last().1))),
        }
    }
}

/// The filters of an UNSUBSCRIBE behind what was written.
pub open spec fn topics_bytes(acc: Seq<u8>, topics: Seq<Seq<char>>) -> Result<Seq<u8>, MqttError>
    decreases topics.len(),
{
    if topics.len() == 0 {
        Ok(acc)
    } else {
        append_field(
            topics_bytes(acc, topics.drop_last()),
            encode_utf8(topics.last()),
            "unsubscribe.filter",
        )
    }
}

/// The bytes of SUBACK codes.
pub open spec fn codes_bytes(codes: Seq<SubackCode>) -> Seq<u8> {
    Seq::new(codes.len(), |i: int| request::suback_byte(codes[i]))
}

pub open spec fn framed(first: u8, body: Result<Seq<u8>, MqttError>) -> Result<Seq<u8>, MqttError> {
    match body {
        Ok(b) => Ok(frame(first, b)),
        Err(e) => Err(e),
    }
}

/// The first byte of a packet's frame.
pub open spec fn first_byte(m: packet::PacketModel) -> u8 {
    match m {
        packet::PacketModel::Connect(_) => 0x10,
        packet::PacketModel::Connack(_) => 0x20,
        packet::PacketModel::Publish(p) => publish_first(p),
        packet::PacketModel::Puback(_) => 0x40,
        packet::PacketModel::Pubrec(_) => 0x50,
        packet::PacketModel::Pubrel(_) => 0x62,
        packet::PacketModel::Pubcomp(_) => 0x70,
        packet::PacketModel::Subscribe { .. } => 0x82,
        packet::PacketModel::Suback { .. } => 0x90,
        packet::PacketModel::Unsubscribe { .. } => 0xA2,
        packet::PacketModel::Unsuback { .. } => 0xB0,
        packet::PacketModel::Pingreq => 0xC0,
        packet::PacketModel::Pingresp => 0xD0,
        packet::PacketModel::Disconnect => 0xE0,
    }
}

pub open spec fn connack_body(c: packet::ConnackModel) -> Seq<u8> {
    seq![flag(c.session_present, 1) as u8, packet::return_code_byte(c.return_code)]
}

/// The body of a packet's frame, or why there is none. Properties are not part
/// of the MQTT 3.1.1 wire, and neither are the reason codes of an UNSUBACK.
pub open spec fn body_of(m: packet::PacketModel) -> Result<Seq<u8>, MqttError> {
    match m {
        packet::PacketModel::Connect(c) => connect_body(c),
        packet::PacketModel::Connack(c) => Ok(connack_body(c)),
        packet::PacketModel::Publish(p) => publish_body(p),
        packet::PacketModel::Puback(id) => Ok(wire::be16_bytes(id)),
        packet::PacketModel::Pubrec(id) => Ok(wire::be16_bytes(id)),
        packet::PacketModel::Pubrel(id) => Ok(wire::be16_bytes(id)),
        packet::PacketModel::Pubcomp(id) => Ok(wire::be16_bytes(id)),
        packet::PacketModel::Subscribe { packet_id, subscriptions } => filters_bytes(
            wire::be16_bytes(packet_id),
            subscriptions,
        ),
        packet::PacketModel::Suback { packet_id, return_codes } => Ok(
            wire::be16_bytes(packet_id) + codes_bytes(return_codes),
        ),
        packet::PacketModel::Unsubscribe { packet_id, topics } => topics_bytes(
            wire::be16_bytes(packet_id),
            topics,
        ),
        packet::PacketModel::Unsuback { packet_id, .. } => Ok(wire::be16_bytes(packet_id)),
        packet::PacketModel::Pingreq => Ok(seq![]),
        packet::PacketModel::Pingresp => Ok(seq![]),
        packet::PacketModel::Disconnect => Ok(seq![]),
    }
}

/// A packet as it is written, or why it cannot be.
pub open spec fn encode_model(m: packet::PacketModel) -> Result<Seq<u8>, MqttError> {
    framed(first_byte(m), body_of(m))
}

// ----------------------------------------------------------------------------
// Reading
// ----------------------------------------------------------------------------

/// Reads the type from the first byte of a frame.
pub fn packet_type(first: u8) -> (r: Option<PacketType>)
    ensures
        r == type_of(first),
{
    PacketType::from_u8(first / 16)
}

fn read_opt_str(body: &[u8], at: usize, there: bool) -> (r: Result<
    (Option<Arc<str>>, usize),
    MqttError,
>)
    requires
        at <= body@.len(),
    ensures
        match opt_text_at(body@, at as int, there) {
            Ok((s, p)) => r is Ok && text::opt_chars(r->Ok_0.0) == s && r->Ok_0.1 == p,
            Err(e) => r is Err && r->Err_0 == e,
        },
        r matches Ok((_, p)) ==> p <= body@.len(),
{
    if !there {
        return Ok((None, at));
    }
    match read_arc_str(body, at) {
        Err(e) => Err(e),
        Ok((s, p)) => Ok((Some(s), p)),
    }
}

fn read_opt_secret(body: &[u8], at: usize, there: bool) -> (r: Result<
    (Option<SecretBytes>, usize),
    MqttError,
>)
    requires
        at <= body@.len(),
    ensures
        match opt_field_at(body@, at as int, there) {
            Ok((s, p)) => r is Ok && buffer::opt_secret(r->Ok_0.0) == s && r->Ok_0.1 == p,
            Err(e) => r is Err && r->Err_0 == e,
        },
{
    if !there {
        return Ok((None, at));
    }
    match read_slice(body, at) {
        Err(e) => Err(e),
        Ok((raw, p)) => Ok((Some(SecretBytes::new(slice_to_vec(raw))), p)),
    }
}

pub open spec fn opt_will(w: Option<WillPacket>) -> Option<packet::WillModel> {
    match w {
        Some(x) => Some(x@),
        None => None,
    }
}

fn read_will(body: &[u8], at: usize, flags: u8) -> (r: Result<
    (Option<WillPacket>, usize),
    MqttError,
>)
    requires
        at <= body@.len(),
    ensures
        match will_at(body@, at as int, flags) {
            Ok((w, p)) => r is Ok && opt_will(r->Ok_0.0) == w && r->Ok_0.1 == p,
            Err(e) => r is Err && r->Err_0 == e,
        },
        r matches Ok((_, p)) ==> p <= body@.len(),
{
    if (flags / 4) % 2 != 1 {
        return Ok((None, at));
    }
    match read_arc_str(body, at) {
        Err(e) => Err(e),
        Ok((topic, p)) => match read_bytes(body, p) {
            Err(e) => Err(e),
            Ok((payload, q)) => {
                let bits: u8 = (flags / 8) % 4;
                match QoS::from_u8(bits) {
                    None => Err(MqttError::Codec(CodecError::QosInvalid(bits))),
                    Some(qos) => Ok(
                        (
                            Some(
                                WillPacket {
                                    topic,
                                    payload,
                                    qos,
                                    retain: (flags / 32) % 2 == 1,
                                    properties: Properties::default(),
                                },
                            ),
                            q,
                        ),
                    ),
                }
            },
        },
    }
}

/// Whether the body starts with the protocol name and its length.
fn has_protocol_name(body: &[u8]) -> (r: bool)
    requires
        body@.len() >= 10,
    ensures
        r == (body@.subrange(0, 6) == protocol_name()),
{
    let ghost s = body@.subrange(0, 6);
    let r = body[0] == 0 && body[1] == 4 && body[2] == 0x4D && body[3] == 0x51 && body[4] == 0x54
        && body[5] == 0x54;
    proof {
        let n = protocol_name();
        assert(s[0] == body@[0] && s[1] == body@[1] && s[2] == body@[2] && s[3] == body@[3] && s[4]
            == body@[4] && s[5] == body@[5]);
        if r {
            assert(s =~= n);
        }
    }
    r
}

fn parse_connect(body: &[u8]) -> (r: Result<ConnectPacket, MqttError>)
    ensures
        match connect_model(body@) {
            Ok(m) => r is Ok && r->Ok_0@ == m,
            Err(e) => r is Err && r->Err_0 == e,
        },
{
    if body.len() < 10 {
        return Err(MqttError::Codec(CodecError::UnexpectedEof));
    }
    if !has_protocol_name(body) {
        return Err(MqttError::Protocol(Violation::InvalidProtocolName));
    }
    let level: u8 = body[6];
    if level != 4 {
        return Err(MqttError::Protocol(Violation::UnsupportedProtocolLevel(level)));
    }
    let flags: u8 = body[7];
    if flags % 2 == 1 {
        return Err(MqttError::Protocol(Violation::ReservedHeaderBits));
    }
    let will_flag: bool = (flags / 4) % 2 == 1;
    if !will_flag && ((flags / 8) % 4 != 0 || (flags / 32) % 2 == 1) {
        return Err(MqttError::Protocol(Violation::ReservedHeaderBits));
    }
    let username_flag: bool = (flags / 128) % 2 == 1;
    let password_flag: bool = (flags / 64) % 2 == 1;
    if !username_flag && password_flag {
        return Err(MqttError::Protocol(Violation::ReservedHeaderBits));
    }
    let keep_alive: u16 = body[8] as u16 * 256 + body[9] as u16;
    let (client_id, p) = match read_arc_str(body, 10) {
        Err(e) => {
            return Err(e);
        },
        Ok(v) => v,
    };
    let (will, q) = match read_will(body, p, flags) {
        Err(e) => {
            return Err(e);
        },
        Ok(v) => v,
    };
    let (username, s) = match read_opt_str(body, q, username_flag) {
        Err(e) => {
            return Err(e);
        },
        Ok(v) => v,
    };
    let (password, _end) = match read_opt_secret(body, s, password_flag) {
        Err(e) => {
            return Err(e);
        },
        Ok(v) => v,
    };
    Ok(
        ConnectPacket {
            version: ProtocolVersion::V311,
            properties: Properties::default(),
            client_id,
            clean_session: (flags / 2) % 2 == 1,
            keep_alive,
            username,
            password,
            will,
        },
    )
}

fn parse_connack(body: &[u8]) -> (r: Result<ConnackPacket, MqttError>)
    ensures
        match connack_model(body@) {
            Ok(m) => r is Ok && r->Ok_0@ == m,
            Err(e) => r is Err && r->Err_0 == e,
        },
{
    if body.len() < 2 {
        return Err(MqttError::Codec(CodecError::UnexpectedEof));
    }
    if body[0] > 1 {
        return Err(MqttError::Protocol(Violation::ConnackReservedBits));
    }
    let session_present: bool = body[0] == 1;
    match ConnackReturnCode::from_u8(body[1]) {
        None => Err(MqttError::Codec(CodecError::InvalidPacketType(body[1]))),
        Some(return_code) => {
            if session_present && return_code != ConnackReturnCode::Accepted {
                return Err(MqttError::Protocol(Violation::SessionPresentWithError));
            }
            Ok(ConnackPacket { session_present, return_code, properties: Properties::default() })
        },
    }
}

fn parse_publish(first: u8, body: &[u8]) -> (r: Result<PublishPacket, MqttError>)
    ensures
        match publish_model(first, body@) {
            Ok(m) => r is Ok && r->Ok_0@ == m,
            Err(e) => r is Err && r->Err_0 == e,
        },
{
    if body.len() < 2 {
        return Err(MqttError::Codec(CodecError::UnexpectedEof));
    }
    let dup: bool = (first / 8) % 2 == 1;
    let retain: bool = first % 2 == 1;
    let bits: u8 = (first / 2) % 4;
    let qos = match QoS::from_u8(bits) {
        None => {
            return Err(MqttError::Codec(CodecError::QosInvalid(bits)));
        },
        Some(q) => q,
    };
    if dup && qos == QoS::AtMostOnce {
        return Err(MqttError::Protocol(Violation::DupSetOnQos0));
    }
    let (topic, p) = match read_arc_str(body, 0) {
        Err(e) => {
            return Err(e);
        },
        Ok(v) => v,
    };
    if topic.is_empty() {
        return Err(MqttError::Protocol(Violation::EmptyPublishTopic));
    }
    match topic::validate_publish_topic(&topic) {
        Err(e) => {
            return Err(e);
        },
        Ok(_) => {},
    }
    let mut at: usize = p;
    let mut packet_id: Option<u16> = None;
    if qos != QoS::AtMostOnce {
        match read_u16(body, p) {
            Err(e) => {
                return Err(e);
            },
            Ok((id, q)) => {
                if id == 0 {
                    return Err(MqttError::Protocol(Violation::PacketIdZero));
                }
                packet_id = Some(id);
                at = q;
            },
        }
    }
    let payload = bytes_from_vec(slice_to_vec(slice_subrange(body, at, body.len())));
    Ok(
        PublishPacket {
            topic,
            payload,
            dup,
            qos,
            retain,
            packet_id,
            properties: Properties::default(),
        },
    )
}

fn parse_ack(first: u8, nibble: u8, body: &[u8]) -> (r: Result<u16, MqttError>)
    ensures
        r == ack_id(first, nibble, body@),
{
    if body.len() != 2 {
        return Err(MqttError::Codec(CodecError::PayloadTooLong { len: body.len(), max: 2 }));
    }
    if first % 16 != nibble {
        return Err(MqttError::Codec(CodecError::ReservedFlagSet));
    }
    let packet_id: u16 = body[0] as u16 * 256 + body[1] as u16;
    if packet_id == 0 {
        return Err(MqttError::Protocol(Violation::PacketIdZero));
    }
    Ok(packet_id)
}

fn parse_subscribe(first: u8, body: &[u8]) -> (r: Result<Packet, MqttError>)
    ensures
        match subscribe_model(first, body@) {
            Ok(m) => r is Ok && r->Ok_0@ == m,
            Err(e) => r is Err && r->Err_0 == e,
        },
{
    if first % 16 != 2 {
        return Err(MqttError::Protocol(Violation::SubscribeReservedBits));
    }
    if body.len() < 5 {
        return Err(MqttError::Codec(CodecError::UnexpectedEof));
    }
    let packet_id: u16 = body[0] as u16 * 256 + body[1] as u16;
    let mut subscriptions: Vec<TopicSubscription> = Vec::new();
    let mut at: usize = 2;
    proof {
        assert(packet::subscriptions_of(subscriptions@) =~= Seq::<(Seq<char>, QoS)>::empty());
    }
    while at < body.len()
        invariant
            at <= body@.len(),
            filters_at(body@, 2, seq![]) == filters_at(
                body@,
                at as int,
                packet::subscriptions_of(subscriptions@),
            ),
            subscribe_model(first, body@) == (match filters_at(body@, 2, seq![]) {
                Err(e) => Err(e),
                Ok(subscriptions) => Ok(
                    packet::PacketModel::Subscribe { packet_id, subscriptions },
                ),
            }),
        decreases body@.len() - at,
    {
        let ghost before = packet::subscriptions_of(subscriptions@);
        match read_arc_str(body, at) {
            Err(e) => {
                return Err(e);
            },
            Ok((topic, p)) => {
                if p >= body.len() {
                    return Err(MqttError::Codec(CodecError::UnexpectedEof));
                }
                match QoS::from_u8(body[p]) {
                    None => {
                        return Err(MqttError::Codec(CodecError::QosInvalid(body[p])));
                    },
                    Some(qos) => {
                        subscriptions.push(TopicSubscription { topic, qos });
                        proof {
                            assert(packet::subscriptions_of(subscriptions@) =~= before.push(
                                ((*topic)@, qos),
                            ));
                        }
                        at = p + 1;
                    },
                }
            },
        }
    }
    Ok(Packet::Subscribe(SubscribePacket { packet_id, subscriptions }))
}

fn parse_suback(body: &[u8]) -> (r: Result<Packet, MqttError>)
    ensures
        match suback_model(body@) {
            Ok(m) => r is Ok && r->Ok_0@ == m,
            Err(e) => r is Err && r->Err_0 == e,
        },
{
    if body.len() < 3 {
        return Err(MqttError::Codec(CodecError::UnexpectedEof));
    }
    let packet_id: u16 = body[0] as u16 * 256 + body[1] as u16;
    if packet_id == 0 {
        return Err(MqttError::Protocol(Violation::PacketIdZero));
    }
    let mut return_codes: Vec<SubackCode> = Vec::new();
    let mut at: usize = 2;
    while at < body.len()
        invariant
            at <= body@.len(),
            codes_at(body@, 2, seq![]) == codes_at(body@, at as int, return_codes@),
            suback_model(body@) == (match codes_at(body@, 2, seq![]) {
                Err(e) => Err(e),
                Ok(return_codes) => Ok(packet::PacketModel::Suback { packet_id, return_codes }),
            }),
        decreases body@.len() - at,
    {
        match SubackCode::from_u8(body[at]) {
            None => {
                return Err(MqttError::Codec(CodecError::InvalidPacketType(body[at])));
            },
            Some(c) => {
                return_codes.push(c);
            },
        }
        at += 1;
    }
    Ok(Packet::Suback(SubackPacket { packet_id, return_codes }))
}

fn parse_unsubscribe(first: u8, body: &[u8]) -> (r: Result<Packet, MqttError>)
    ensures
        match unsubscribe_model(first, body@) {
            Ok(m) => r is Ok && r->Ok_0@ == m,
            Err(e) => r is Err && r->Err_0 == e,
        },
{
    if first % 16 != 2 {
        return Err(MqttError::Protocol(Violation::UnsubscribeReservedBits));
    }
    if body.len() < 4 {
        return Err(MqttError::Codec(CodecError::UnexpectedEof));
    }
    let packet_id: u16 = body[0] as u16 * 256 + body[1] as u16;
    let mut topics: Vec<Arc<str>> = Vec::new();
    let mut at: usize = 2;
    proof {
        assert(packet::names_of(topics@) =~= Seq::<Seq<char>>::empty());
    }
    while at < body.len()
        invariant
            at <= body@.len(),
            topics_at(body@, 2, seq![]) == topics_at(
                body@,
                at as int,
                packet::names_of(topics@),
            ),
            unsubscribe_model(first, body@) == (match topics_at(body@, 2, seq![]) {
                Err(e) => Err(e),
                Ok(topics) => Ok(packet::PacketModel::Unsubscribe { packet_id, topics }),
            }),
        decreases body@.len() - at,
    {
        let ghost before = packet::names_of(topics@);
        match read_arc_str(body, at) {
            Err(e) => {
                return Err(e);
            },
            Ok((topic, p)) => {
                topics.push(topic);
                proof {
                    assert(packet::names_of(topics@) =~= before.push((*topic)@));
                }
                at = p;
            },
        }
    }
    Ok(Packet::Unsubscribe(UnsubscribePacket { packet_id, topics }))
}

fn parse_unsuback(body: &[u8]) -> (r: Result<Packet, MqttError>)
    ensures
        match unsuback_model(body@) {
            Ok(m) => r is Ok && r->Ok_0@ == m,
            Err(e) => r is Err && r->Err_0 == e,
        },
{
    if body.len() != 2 {
        return Err(MqttError::Codec(CodecError::PayloadTooLong { len: body.len(), max: 2 }));
    }
    let packet_id: u16 = body[0] as u16 * 256 + body[1] as u16;
    if packet_id == 0 {
        return Err(MqttError::Protocol(Violation::PacketIdZero));
    }
    Ok(Packet::Unsuback(UnsubackPacket::new(packet_id)))
}

fn require_empty_body(body: &[u8]) -> (r: Result<(), MqttError>)
    ensures
        r == (if body@.len() != 0 {
            codec_err(CodecError::PayloadTooLong { len: body@.len() as usize, max: 0 })
        } else {
            Ok(())
        }),
{
    if body.len() != 0 {
        return Err(MqttError::Codec(CodecError::PayloadTooLong { len: body.len(), max: 0 }));
    }
    Ok(())
}

/// Parses the body of a frame whose first byte is `first`.
pub fn parse_packet(first: u8, packet_type: PacketType, body: &[u8]) -> (r: Result<
    Packet,
    MqttError,
>)
    ensures
        match parse_model(first, packet_type, body@) {
            Ok(m) => r is Ok && r->Ok_0@ == m,
            Err(e) => r is Err && r->Err_0 == e,
        },
{
    match packet_type {
        PacketType::Connect => match parse_connect(body) {
            Ok(c) => Ok(Packet::Connect(c)),
            Err(e) => Err(e),
        },
        PacketType::Connack => match parse_connack(body) {
            Ok(c) => Ok(Packet::Connack(c)),
            Err(e) => Err(e),
        },
        PacketType::Publish => match parse_publish(first, body) {
            Ok(p) => Ok(Packet::Publish(p)),
            Err(e) => Err(e),
        },
        PacketType::Puback => match parse_ack(first, 0, body) {
            Ok(id) => Ok(Packet::Puback(id)),
            Err(e) => Err(e),
        },
        PacketType::Pubrec => match parse_ack(first, 0, body) {
            Ok(id) => Ok(Packet::Pubrec(id)),
            Err(e) => Err(e),
        },
        PacketType::Pubrel => match parse_ack(first, 2, body) {
            Ok(id) => Ok(Packet::Pubrel(id)),
            Err(e) => Err(e),
        },
        PacketType::Pubcomp => match parse_ack(first, 0, body) {
            Ok(id) => Ok(Packet::Pubcomp(id)),
            Err(e) => Err(e),
        },
        PacketType::Subscribe => parse_subscribe(first, body),
        PacketType::Suback => parse_suback(body),
        PacketType::Unsubscribe => parse_unsubscribe(first, body),
        PacketType::Unsuback => parse_unsuback(body),
        PacketType::Pingreq => match require_empty_body(body) {
            Ok(_) => Ok(Packet::Pingreq),
            Err(e) => Err(e),
        },
        PacketType::Pingresp => match require_empty_body(body) {
            Ok(_) => Ok(Packet::Pingresp),
            Err(e) => Err(e),
        },
        PacketType::Disconnect => match require_empty_body(body) {
            Ok(_) => Ok(Packet::Disconnect),
            Err(e) => Err(e),
        },
        PacketType::Auth => Err(MqttError::Protocol(Violation::UnexpectedAuthPacket)),
    }
}

/// Takes one packet from the head of a buffer. A buffer that does not yet hold a
/// whole frame, or whose head is refused, stays as it is; a whole frame leaves
/// the buffer, whether its packet is accepted or not.
pub fn decode_packet_from_bytes(buf: &mut BytesMut, max_size: usize) -> (r: Result<
    Option<Packet>,
    MqttError,
>)
    ensures
        match head_of(buffer::buffer_of(*old(buf)), max_size) {
            Head::Partial => r is Ok && r->Ok_0 is None && *final(buf) == *old(buf),
            Head::Refused(e) => r is Err && r->Err_0 == e && *final(buf) == *old(buf),
            Head::Whole { total, packet } => {
                &&& match packet {
                    Ok(m) => r is Ok && r->Ok_0 is Some && r->Ok_0->0@ == m,
                    Err(e) => r is Err && r->Err_0 == e,
                }
                &&& buffer::buffer_of(*final(buf)) == buffer::buffer_of(*old(buf)).subrange(
                    total,
                    buffer::buffer_of(*old(buf)).len() as int,
                )
            },
        },
{
    let ghost all = buffer::buffer_of(*old(buf));
    let (first, kind, header, total) = {
        let view = buffer_slice(buf);
        if view.len() < 2 {
            return Ok(None);
        }
        let first: u8 = view[0];
        let kind = match packet_type(first) {
            None => {
                return Err(MqttError::Codec(CodecError::InvalidPacketType(first / 16)));
            },
            Some(t) => t,
        };
        match read_vbi(view, 1) {
            Err(MqttError::Codec(CodecError::UnexpectedEof)) => {
                return Ok(None);
            },
            Err(e) => {
                return Err(e);
            },
            Ok((remaining, header)) => {
                if remaining > max_size {
                    return Err(
                        MqttError::Protocol(
                            Violation::PacketTooLarge { len: remaining, max: max_size },
                        ),
                    );
                }
                let total: usize = header + remaining;
                if view.len() < total {
                    return Ok(None);
                }
                (first, kind, header, total)
            },
        }
    };
    let frame = buffer_split_to(buf, total);
    let bytes = buffer_slice(&frame);
    let body = slice_subrange(bytes, header, total);
    assert(body@ =~= all.subrange(header as int, total as int));
    match parse_packet(first, kind, body) {
        Ok(p) => Ok(Some(p)),
        Err(e) => Err(e),
    }
}

// ----------------------------------------------------------------------------
// Reading byte by byte
// ----------------------------------------------------------------------------

/// What the bytes of a header say that were taken so far from a stream: the
/// first byte, the type and the length of the body, once the length is whole;
/// nothing before that; or why the frame is refused.
pub open spec fn header_model(b: Seq<u8>, max: usize) -> Result<
    Option<(u8, PacketType, usize)>,
    MqttError,
> {
    if b.len() == 0 {
        Ok(None)
    } else {
        match type_of(b[0]) {
            None => codec_err(CodecError::InvalidPacketType(b[0] / 16)),
            Some(kind) => match wire::vbi_at(b, 1, 4) {
                Ok((n, _)) => if n > max {
                    violation(Violation::PacketTooLarge { len: n as usize, max })
                } else {
                    Ok(Some((b[0], kind, n as usize)))
                },
                Err(e) => if e == MqttError::Codec(CodecError::UnexpectedEof) {
                    Ok(None)
                } else {
                    Err(e)
                },
            },
        }
    }
}

/// Reads the bytes of a header that were taken so far from a stream. A reader
/// takes bytes one by one until this gives the length of the body, and then the
/// body at once; a body longer than `max_size` is refused before it is taken.
pub fn read_header(seen: &[u8], max_size: usize) -> (r: Result<
    Option<(u8, PacketType, usize)>,
    MqttError,
>)
    ensures
        r == header_model(seen@, max_size),
{
    if seen.len() == 0 {
        return Ok(None);
    }
    let first: u8 = seen[0];
    match packet_type(first) {
        None => Err(MqttError::Codec(CodecError::InvalidPacketType(first / 16))),
        Some(kind) => match read_vbi(seen, 1) {
            Err(MqttError::Codec(CodecError::UnexpectedEof)) => Ok(None),
            Err(e) => Err(e),
            Ok((remaining, _)) => {
                if remaining > max_size {
                    return Err(
                        MqttError::Protocol(
                            Violation::PacketTooLarge { len: remaining, max: max_size },
                        ),
                    );
                }
                Ok(Some((first, kind, remaining)))
            },
        },
    }
}

/// A number that is read within a prefix is read alike in the whole.
proof fn lemma_vbi_prefix(b: Seq<u8>, k: int, at: int, left: nat)
    requires
        0 <= at <= k <= b.len(),
        wire::vbi_at(b.subrange(0, k), at, left) is Ok,
    ensures
        wire::vbi_at(b, at, left) == wire::vbi_at(b.subrange(0, k), at, left),
        wire::vbi_at(b, at, left)->Ok_0.1 <= k,
    decreases left,
{
    let c = b.subrange(0, k);
    if at < k {
        assert(c[at] == b[at]);
        if c[at] >= 128 && left > 1 {
            lemma_vbi_prefix(b, k, at + 1, (left - 1) as nat);
        }
    }
}

/// A number that is read in the whole, and that ends within a prefix, is read
/// alike in the prefix.
proof fn lemma_vbi_within(b: Seq<u8>, k: int, at: int, left: nat)
    requires
        0 <= at <= k <= b.len(),
        wire::vbi_at(b, at, left) is Ok,
        wire::vbi_at(b, at, left)->Ok_0.1 <= k,
    ensures
        wire::vbi_at(b.subrange(0, k), at, left) == wire::vbi_at(b, at, left),
    decreases left,
{
    let c = b.subrange(0, k);
    properties::lemma_vbi_progress(b, at, left);
    if at < k {
        assert(c[at] == b[at]);
        if c[at] >= 128 && left > 1 {
            properties::lemma_vbi_progress(b, at + 1, (left - 1) as nat);
            lemma_vbi_within(b, k, at + 1, (left - 1) as nat);
        }
    }
}

/// Taking a header byte by byte from a stream, and then its body, gives the same
/// packet as decoding the same bytes from a buffer.
pub proof fn law_stream_agrees_with_buffer(b: Seq<u8>, k: int, max: usize)
    requires
        2 <= k <= b.len(),
        header_model(b.subrange(0, k - 1), max) == Ok::<Option<(u8, PacketType, usize)>, MqttError>(
            None,
        ),
        header_model(b.subrange(0, k), max) is Ok,
        header_model(b.subrange(0, k), max)->Ok_0 is Some,
    ensures
        ({
            let (first, kind, n) = header_model(b.subrange(0, k), max)->Ok_0->0;
            &&& k + n <= b.len() ==> head_of(b, max) == (Head::Whole {
                total: k + n,
                packet: parse_model(first, kind, b.subrange(k, k + n)),
            })
            &&& k + n > b.len() ==> head_of(b, max) is Partial
        }),
{
    let c = b.subrange(0, k);
    let d = b.subrange(0, k - 1);
    lemma_vbi_prefix(b, k, 1, 4);
    let (n, p) = wire::vbi_at(b, 1, 4)->Ok_0;
    lemma_vbi_bound(b, 1, 4);
    assert(c[0] == b[0]);
    assert(d[0] == b[0]);
    if p < k {
        lemma_vbi_within(b, k - 1, 1, 4);
    }
}

/// A number of at most `left` bytes is below the bound of `left` bytes.
proof fn lemma_vbi_bound(b: Seq<u8>, at: int, left: nat)
    requires
        left >= 1,
    ensures
        wire::vbi_at(b, at, left) matches Ok((n, p)) ==> n < wire::vbi_bound(left),
        wire::vbi_bound(4) == 268435456,
    decreases left,
{
    wire::lemma_vbi_bounds();
    reveal_with_fuel(wire::vbi_bound, 2);
    if left > 1 {
        lemma_vbi_bound(b, at + 1, (left - 1) as nat);
    }
    if left > 1 {
        lemma_bound_grows(left);
    }
}

proof fn lemma_bound_grows(left: nat)
    requires
        left >= 1,
    ensures
        wire::vbi_bound(left) >= 128,
    decreases left,
{
    reveal_with_fuel(wire::vbi_bound, 2);
    if left > 1 {
        lemma_bound_grows((left - 1) as nat);
    }
}

// ----------------------------------------------------------------------------
// Writing
// ----------------------------------------------------------------------------

fn put_frame(first: u8, body: &Vec<u8>) -> (r: Vec<u8>)
    ensures
        r@ == frame(first, body@),
{
    let mut buf: Vec<u8> = Vec::new();
    buf.push(first);
    write_vbi(&mut buf, body.len());
    put_all(&mut buf, body.as_slice());
    assert(buf@ =~= frame(first, body@));
    buf
}

fn pack_connect_flags(conn: &ConnectPacket) -> (r: u8)
    ensures
        r == connect_flags(conn@),
{
    let mut flags: u8 = 0;
    if conn.clean_session {
        flags = flags + 2;
    }
    match &conn.will {
        Some(will) => {
            flags = flags + 4 + 8 * will.qos.as_u8();
            if will.retain {
                flags = flags + 32;
            }
        },
        None => {},
    }
    if conn.username.is_some() {
        flags = flags + 128;
    }
    if conn.password.is_some() {
        flags = flags + 64;
    }
    flags
}

fn encode_connect(conn: &ConnectPacket) -> (r: Result<Vec<u8>, MqttError>)
    ensures
        match framed(0x10, connect_body(conn@)) {
            Ok(b) => r is Ok && r->Ok_0@ == b,
            Err(e) => r is Err && r->Err_0 == e,
        },
{
    let mut body: Vec<u8> = vec![0u8, 4, 0x4D, 0x51, 0x54, 0x54, 4];
    body.push(pack_connect_flags(conn));
    put_u16(&mut body, conn.keep_alive);
    assert(body@ =~= connect_fixed(conn@));
    match write_str(&mut body, &conn.client_id, "client_id") {
        Err(e) => {
            return Err(e);
        },
        Ok(_) => {},
    }
    match &conn.will {
        Some(will) => {
            match write_str(&mut body, &will.topic, "will.topic") {
                Err(e) => {
                    return Err(e);
                },
                Ok(_) => {},
            }
            match write_bytes(&mut body, bytes_slice(&will.payload), "will.payload") {
                Err(e) => {
                    return Err(e);
                },
                Ok(_) => {},
            }
        },
        None => {},
    }
    match &conn.username {
        Some(username) => match write_str(&mut body, username, "username") {
            Err(e) => {
                return Err(e);
            },
            Ok(_) => {},
        },
        None => {},
    }
    match &conn.password {
        Some(password) => match write_bytes(&mut body, password.as_slice(), "password") {
            Err(e) => {
                return Err(e);
            },
            Ok(_) => {},
        },
        None => {},
    }
    Ok(put_frame(0x10, &body))
}

fn encode_connack(ack: &ConnackPacket) -> (r: Vec<u8>)
    ensures
        r@ == frame(0x20, connack_body(ack@)),
{
    let present: u8 = if ack.session_present {
        1
    } else {
        0
    };
    let r: Vec<u8> = vec![0x20u8, 2, present, ack.return_code.as_u8()];
    assert(r@ =~= frame(0x20, connack_body(ack@)));
    r
}

fn pack_publish_first(p: &PublishPacket) -> (r: u8)
    ensures
        r == publish_first(p@),
{
    let mut first: u8 = 48 + 2 * p.qos.as_u8();
    if p.dup {
        first = first + 8;
    }
    if p.retain {
        first = first + 1;
    }
    first
}

fn encode_publish(p: &PublishPacket) -> (r: Result<Vec<u8>, MqttError>)
    ensures
        match framed(publish_first(p@), publish_body(p@)) {
            Ok(b) => r is Ok && r->Ok_0@ == b,
            Err(e) => r is Err && r->Err_0 == e,
        },
{
    let mut body: Vec<u8> = Vec::new();
    match write_str(&mut body, &p.topic, "publish.topic") {
        Err(e) => {
            return Err(e);
        },
        Ok(_) => {},
    }
    let ghost head = body@;
    if p.qos != QoS::AtMostOnce {
        match p.packet_id {
            None => {
                return Err(MqttError::Codec(CodecError::QosRequiresPacketId));
            },
            Some(id) => {
                if id == 0 {
                    return Err(MqttError::Codec(CodecError::QosRequiresPacketId));
                }
                put_u16(&mut body, id);
            },
        }
    }
    assert(body@ =~= head + id_bytes(p@));
    put_all(&mut body, bytes_slice(&p.payload));
    Ok(put_frame(pack_publish_first(p), &body))
}

/// The header of a PUBLISH that is written apart from its payload: everything
/// before the payload.
pub open spec fn publish_header_model(p: packet::PublishModel) -> Result<Seq<u8>, MqttError> {
    match append_field(Ok(seq![]), encode_utf8(p.topic), "publish.topic") {
        Err(e) => Err(e),
        Ok(b) => if p.qos != QoS::AtMostOnce && (p.packet_id is None || p.packet_id == Some(
            0u16,
        )) {
            codec_err(CodecError::QosRequiresPacketId)
        } else {
            Ok(
                seq![publish_first(p)] + wire::vbi(
                    (b + id_bytes(p)).len() + p.payload.len(),
                ) + b + id_bytes(p),
            )
        },
    }
}

/// Writes the header of a PUBLISH, behind which its payload is sent as it is.
pub fn publish_header(p: &PublishPacket) -> (r: Result<Vec<u8>, MqttError>)
    requires
        p@.payload.len() + 65541 <= usize::MAX,
    ensures
        match publish_header_model(p@) {
            Ok(b) => r is Ok && r->Ok_0@ == b,
            Err(e) => r is Err && r->Err_0 == e,
        },
{
    let mut rest: Vec<u8> = Vec::new();
    match write_str(&mut rest, &p.topic, "publish.topic") {
        Err(e) => {
            return Err(e);
        },
        Ok(_) => {},
    }
    let ghost head = rest@;
    if p.qos != QoS::AtMostOnce {
        match p.packet_id {
            None => {
                return Err(MqttError::Codec(CodecError::QosRequiresPacketId));
            },
            Some(id) => {
                if id == 0 {
                    return Err(MqttError::Codec(CodecError::QosRequiresPacketId));
                }
                put_u16(&mut rest, id);
            },
        }
    }
    assert(rest@ =~= head + id_bytes(p@));
    let mut out: Vec<u8> = Vec::new();
    out.push(pack_publish_first(p));
    write_vbi(&mut out, rest.len() + bytes_slice(&p.payload).len());
    put_all(&mut out, rest.as_slice());
    proof {
        assert(head =~= wire::text_field(p@.topic));
        assert(out@ =~= publish_header_model(p@)->Ok_0);
    }
    Ok(out)
}

fn encode_subscribe(s: &SubscribePacket) -> (r: Result<Vec<u8>, MqttError>)
    ensures
        match framed(
            0x82,
            filters_bytes(
                wire::be16_bytes(s.packet_id),
                packet::subscriptions_of(s.subscriptions@),
            ),
        ) {
            Ok(b) => r is Ok && r->Ok_0@ == b,
            Err(e) => r is Err && r->Err_0 == e,
        },
{
    let ghost id = wire::be16_bytes(s.packet_id);
    let ghost all = packet::subscriptions_of(s.subscriptions@);
    let mut body: Vec<u8> = Vec::new();
    put_u16(&mut body, s.packet_id);
    let mut i: usize = 0;
    proof {
        assert(body@ =~= id);
        assert(all.subrange(0, 0) =~= Seq::<(Seq<char>, QoS)>::empty());
    }
    while i < s.subscriptions.len()
        invariant
            i <= s.subscriptions@.len(),
            all == packet::subscriptions_of(s.subscriptions@),
            id == wire::be16_bytes(s.packet_id),
            filters_bytes(id, all.subrange(0, i as int)) == Ok::<Seq<u8>, MqttError>(body@),
        decreases s.subscriptions@.len() - i,
    {
        let sub = &s.subscriptions[i];
        let ghost part = all.subrange(0, i + 1);
        proof {
            assert(part.drop_last() =~= all.subrange(0, i as int));
            assert(part.last() == ((*sub.topic)@, sub.qos));
            if filters_bytes(id, part) is Err {
                lemma_filters_error(id, all, i + 1);
            }
        }
        match write_str(&mut body, &sub.topic, "subscribe.filter") {
            Err(e) => {
                return Err(e);
            },
            Ok(_) => {},
        }
        body.push(sub.qos.as_u8());
        i += 1;
    }
    assert(all.subrange(0, all.len() as int) =~= all);
    Ok(put_frame(0x82, &body))
}

proof fn lemma_filters_error(acc: Seq<u8>, subs: Seq<(Seq<char>, QoS)>, n: int)
    requires
        0 <= n <= subs.len(),
        filters_bytes(acc, subs.subrange(0, n)) is Err,
    ensures
        filters_bytes(acc, subs) == filters_bytes(acc, subs.subrange(0, n)),
    decreases subs.len() - n,
{
    if n < subs.len() {
        assert(subs.subrange(0, n + 1).drop_last() =~= subs.subrange(0, n));
        lemma_filters_error(acc, subs, n + 1);
    } else {
        assert(subs.subrange(0, n) =~= subs);
    }
}

proof fn lemma_topics_error(acc: Seq<u8>, topics: Seq<Seq<char>>, n: int)
    requires
        0 <= n <= topics.len(),
        topics_bytes(acc, topics.subrange(0, n)) is Err,
    ensures
        topics_bytes(acc, topics) == topics_bytes(acc, topics.subrange(0, n)),
    decreases topics.len() - n,
{
    if n < topics.len() {
        assert(topics.subrange(0, n + 1).drop_last() =~= topics.subrange(0, n));
        lemma_topics_error(acc, topics, n + 1);
    } else {
        assert(topics.subrange(0, n) =~= topics);
    }
}

fn encode_suback(s: &SubackPacket) -> (r: Vec<u8>)
    ensures
        r@ == frame(0x90, wire::be16_bytes(s.packet_id) + codes_bytes(s.return_codes@)),
{
    let mut body: Vec<u8> = Vec::new();
    put_u16(&mut body, s.packet_id);
    let ghost id = wire::be16_bytes(s.packet_id);
    let ghost all = codes_bytes(s.return_codes@);
    let mut i: usize = 0;
    assert(body@ =~= id + all.subrange(0, 0));
    while i < s.return_codes.len()
        invariant
            i <= s.return_codes@.len(),
            all == codes_bytes(s.return_codes@),
            body@ == id + all.subrange(0, i as int),
        decreases s.return_codes@.len() - i,
    {
        body.push(s.return_codes[i].as_u8());
        i += 1;
        assert(body@ =~= id + all.subrange(0, i as int));
    }
    assert(all.subrange(0, all.len() as int) =~= all);
    put_frame(0x90, &body)
}

fn encode_unsubscribe(u: &UnsubscribePacket) -> (r: Result<Vec<u8>, MqttError>)
    ensures
        match framed(
            0xA2,
            topics_bytes(wire::be16_bytes(u.packet_id), packet::names_of(u.topics@)),
        ) {
            Ok(b) => r is Ok && r->Ok_0@ == b,
            Err(e) => r is Err && r->Err_0 == e,
        },
{
    let ghost id = wire::be16_bytes(u.packet_id);
    let ghost all = packet::names_of(u.topics@);
    let mut body: Vec<u8> = Vec::new();
    put_u16(&mut body, u.packet_id);
    let mut i: usize = 0;
    proof {
        assert(body@ =~= id);
        assert(all.subrange(0, 0) =~= Seq::<Seq<char>>::empty());
    }
    while i < u.topics.len()
        invariant
            i <= u.topics@.len(),
            all == packet::names_of(u.topics@),
            id == wire::be16_bytes(u.packet_id),
            topics_bytes(id, all.subrange(0, i as int)) == Ok::<Seq<u8>, MqttError>(body@),
        decreases u.topics@.len() - i,
    {
        let topic = &u.topics[i];
        let ghost part = all.subrange(0, i + 1);
        proof {
            assert(part.drop_last() =~= all.subrange(0, i as int));
            assert(part.last() == (**topic)@);
            if topics_bytes(id, part) is Err {
                lemma_topics_error(id, all, i + 1);
            }
        }
        match write_str(&mut body, topic, "unsubscribe.filter") {
            Err(e) => {
                return Err(e);
            },
            Ok(_) => {},
        }
        i += 1;
    }
    assert(all.subrange(0, all.len() as int) =~= all);
    Ok(put_frame(0xA2, &body))
}

fn encode_id(first: u8, id: u16) -> (r: Vec<u8>)
    ensures
        r@ == frame(first, wire::be16_bytes(id)),
{
    let mut buf: Vec<u8> = vec![first, 2u8];
    put_u16(&mut buf, id);
    assert(buf@ =~= frame(first, wire::be16_bytes(id)));
    buf
}

/// Encodes a packet.
pub fn encode_packet(packet: &Packet) -> (r: Result<Vec<u8>, MqttError>)
    ensures
        match encode_model(packet@) {
            Ok(b) => r is Ok && r->Ok_0@ == b,
            Err(e) => r is Err && r->Err_0 == e,
        },
{
    match packet {
        Packet::Connect(c) => encode_connect(c),
        Packet::Connack(c) => Ok(encode_connack(c)),
        Packet::Publish(p) => encode_publish(p),
        Packet::Puback(id) => Ok(encode_id(0x40, *id)),
        Packet::Pubrec(id) => Ok(encode_id(0x50, *id)),
        Packet::Pubrel(id) => Ok(encode_id(0x62, *id)),
        Packet::Pubcomp(id) => Ok(encode_id(0x70, *id)),
        Packet::Subscribe(s) => encode_subscribe(s),
        Packet::Suback(s) => Ok(encode_suback(s)),
        Packet::Unsubscribe(u) => encode_unsubscribe(u),
        Packet::Unsuback(u) => Ok(encode_id(0xB0, u.packet_id)),
        Packet::Pingreq => {
            let r: Vec<u8> = vec![0xC0u8, 0];
            assert(r@ =~= frame(0xC0, seq![]));
            Ok(r)
        },
        Packet::Pingresp => {
            let r: Vec<u8> = vec![0xD0u8, 0];
            assert(r@ =~= frame(0xD0, seq![]));
            Ok(r)
        },
        Packet::Disconnect => {
            let r: Vec<u8> = vec![0xE0u8, 0];
            assert(r@ =~= frame(0xE0, seq![]));
            Ok(r)
        },
    }
}

impl Packet {
    /// Appends the packet to a buffer. On an error the buffer stays as it was.
    pub fn encode(&self, buf: &mut BytesMut) -> (r: Result<(), MqttError>)
        ensures
            match encode_model(self@) {
                Ok(b) => r is Ok && buffer::buffer_of(*final(buf)) == buffer::buffer_of(*old(buf))
                    + b,
                Err(e) => r == Err::<(), MqttError>(e) && *final(buf) == *old(buf),
            },
    {
        match encode_packet(self) {
            Err(e) => Err(e),
            Ok(bytes) => {
                buffer_extend(buf, bytes.as_slice());
                Ok(())
            },
        }
    }

    /// Takes one packet from the head of a buffer, under the largest limit.
    pub fn decode(buf: &mut BytesMut) -> (r: Result<Option<Packet>, MqttError>)
        ensures
            match head_of(buffer::buffer_of(*old(buf)), MQTT_SPEC_MAX_PACKET_SIZE) {
                Head::Partial => r is Ok && r->Ok_0 is None && *final(buf) == *old(buf),
                Head::Refused(e) => r is Err && r->Err_0 == e && *final(buf) == *old(buf),
                Head::Whole { total, packet } => {
                    &&& match packet {
                        Ok(m) => r is Ok && r->Ok_0 is Some && r->Ok_0->0@ == m,
                        Err(e) => r is Err && r->Err_0 == e,
                    }
                    &&& buffer::buffer_of(*final(buf)) == buffer::buffer_of(*old(buf)).subrange(
                        total,
                        buffer::buffer_of(*old(buf)).len() as int,
                    )
                },
            },
    {
        decode_packet_from_bytes(buf, MQTT_SPEC_MAX_PACKET_SIZE)
    }
}

// ----------------------------------------------------------------------------
// Laws
// ----------------------------------------------------------------------------

/// Whether a packet keeps the rules of the MQTT 3.1.1 wire: no U+0000 in a text,
/// a topic name without wildcards, at least one filter or code, no password
/// without a user name, DUP only above QoS 0, and nothing that the wire does not
/// carry.
pub open spec fn sendable(m: packet::PacketModel) -> bool {
    match m {
        packet::PacketModel::Connect(c) => {
            &&& c.version == ProtocolVersion::V311
            &&& c.properties == properties::no_properties()
            &&& !c.client_id.contains('\0')
            &&& c.will matches Some(w) ==> !w.topic.contains('\0') && w.properties
                == properties::no_properties()
            &&& c.username matches Some(u) ==> !u.contains('\0')
            &&& c.password is Some ==> c.username is Some
        },
        packet::PacketModel::Connack(c) => {
            &&& c.session_present ==> c.return_code == ConnackReturnCode::Accepted
            &&& c.properties == properties::no_properties()
        },
        packet::PacketModel::Publish(p) => {
            &&& topic::check_topic(p.topic) is Ok
            &&& !p.topic.contains('\0')
            &&& p.dup ==> p.qos != QoS::AtMostOnce
            &&& p.qos == QoS::AtMostOnce ==> p.packet_id is None
            &&& p.properties == properties::no_properties()
        },
        packet::PacketModel::Subscribe { subscriptions, .. } => {
            &&& subscriptions.len() >= 1
            &&& forall|i: int|
                0 <= i < subscriptions.len() ==> !(#[trigger] subscriptions[i]).0.contains('\0')
        },
        packet::PacketModel::Puback(id) => id != 0,
        packet::PacketModel::Pubrec(id) => id != 0,
        packet::PacketModel::Pubrel(id) => id != 0,
        packet::PacketModel::Pubcomp(id) => id != 0,
        packet::PacketModel::Suback { packet_id, return_codes } => packet_id != 0
            && return_codes.len() >= 1,
        packet::PacketModel::Unsubscribe { topics, .. } => {
            &&& topics.len() >= 1
            &&& forall|i: int| 0 <= i < topics.len() ==> !(#[trigger] topics[i]).contains('\0')
        },
        packet::PacketModel::Unsuback { packet_id, reason_codes } => packet_id != 0
            && reason_codes.len() == 0,
        _ => true,
    }
}

/// A frame at the head of a buffer is taken whole.
proof fn lemma_frame(first: u8, body: Seq<u8>, rest: Seq<u8>, max: usize)
    requires
        type_of(first) is Some,
        body.len() <= max,
        body.len() <= 268435455,
    ensures
        head_of(frame(first, body) + rest, max) == (Head::Whole {
            total: frame(first, body).len() as int,
            packet: parse_model(first, type_of(first)->0, body),
        }),
{
    let b = frame(first, body) + rest;
    let v = wire::vbi(body.len());
    wire::lemma_vbi_bounds();
    wire::lemma_vbi_len(body.len(), 4);
    assert(b.subrange(1, 1int + v.len()) =~= v);
    wire::lemma_vbi_read(b, 1, body.len(), 4);
    assert(b[0] == first);
    assert(b.subrange(1int + v.len(), 1int + v.len() + body.len()) =~= body);
}

proof fn lemma_connect_flags(c: packet::ConnectModel)
    requires
        c.password is Some ==> c.username is Some,
    ensures
        connect_flags_ok(connect_flags(c)),
        bit(connect_flags(c), 2) == c.clean_session,
        bit(connect_flags(c), 4) == c.will is Some,
        bit(connect_flags(c), 128) == c.username is Some,
        bit(connect_flags(c), 64) == c.password is Some,
        c.will matches Some(w) ==> bit(connect_flags(c), 32) == w.retain && (connect_flags(c) / 8)
            % 4 == request::qos_level(w.qos),
{
}

spec fn will_bytes(c: packet::ConnectModel) -> Seq<u8> {
    match c.will {
        Some(w) => wire::text_field(w.topic) + wire::field(w.payload),
        None => Seq::empty(),
    }
}

spec fn user_bytes(c: packet::ConnectModel) -> Seq<u8> {
    match c.username {
        Some(u) => wire::text_field(u),
        None => Seq::empty(),
    }
}

spec fn password_bytes(c: packet::ConnectModel) -> Seq<u8> {
    match c.password {
        Some(p) => wire::field(p),
        None => Seq::empty(),
    }
}

/// The parts of a CONNECT, each of which fits its length.
proof fn lemma_connect_parts(c: packet::ConnectModel)
    requires
        connect_body(c) is Ok,
    ensures
        connect_body(c)->Ok_0 == connect_fixed(c) + wire::text_field(c.client_id) + will_bytes(c)
            + user_bytes(c) + password_bytes(c),
        connect_fixed(c).len() == 10,
        encode_utf8(c.client_id).len() <= 65535,
        c.will matches Some(w) ==> encode_utf8(w.topic).len() <= 65535 && w.payload.len() <= 65535,
        c.username matches Some(u) ==> encode_utf8(u).len() <= 65535,
        c.password matches Some(p) ==> p.len() <= 65535,
{
    assert(connect_body(c)->Ok_0 =~= connect_fixed(c) + wire::text_field(c.client_id) + will_bytes(
        c,
    ) + user_bytes(c) + password_bytes(c));
}

proof fn lemma_will_read(b: Seq<u8>, at: int, c: packet::ConnectModel)
    requires
        sendable(packet::PacketModel::Connect(c)),
        0 <= at,
        at + will_bytes(c).len() <= b.len(),
        b.subrange(at, at + will_bytes(c).len()) == will_bytes(c),
        c.will matches Some(w) ==> encode_utf8(w.topic).len() <= 65535 && w.payload.len() <= 65535,
    ensures
        will_at(b, at, connect_flags(c)) == Ok::<(Option<packet::WillModel>, int), MqttError>(
            (c.will, at + will_bytes(c).len()),
        ),
{
    lemma_connect_flags(c);
    if c.will is Some {
        let w = c.will->0;
        let ft = wire::text_field(w.topic);
        let fl = wire::field(w.payload);
        let fw = will_bytes(c);
        assert(fw.subrange(0, ft.len() as int) =~= ft);
        assert(fw.subrange(ft.len() as int, ft.len() as int + fl.len()) =~= fl);
        wire::lemma_inner(b, at, fw, 0, ft);
        wire::lemma_inner(b, at, fw, ft.len() as int, fl);
        wire::lemma_text_read(b, at, w.topic);
        wire::lemma_field_read(b, at + ft.len(), w.payload);
        request::law_qos_round_trip(w.qos, 0);
        assert(c.will == Some(
            packet::WillModel {
                topic: w.topic,
                payload: w.payload,
                qos: w.qos,
                retain: bit(connect_flags(c), 32),
                properties: properties::no_properties(),
            },
        ));
    }
}

/// Where the parts of a concatenation stand.
proof fn lemma_five_parts(a: Seq<u8>, b: Seq<u8>, c: Seq<u8>, d: Seq<u8>, e: Seq<u8>)
    ensures
        ({
            let s = a + b + c + d + e;
            let p1 = a.len() as int;
            let p2 = p1 + b.len();
            let p3 = p2 + c.len();
            let p4 = p3 + d.len();
            &&& s.len() == p4 + e.len()
            &&& s.subrange(0, p1) == a
            &&& s.subrange(p1, p2) == b
            &&& s.subrange(p2, p3) == c
            &&& s.subrange(p3, p4) == d
            &&& s.subrange(p4, p4 + e.len()) == e
        }),
{
    let s = a + b + c + d + e;
    let p1 = a.len() as int;
    let p2 = p1 + b.len();
    let p3 = p2 + c.len();
    let p4 = p3 + d.len();
    assert(s.subrange(0, p1) =~= a);
    assert(s.subrange(p1, p2) =~= b);
    assert(s.subrange(p2, p3) =~= c);
    assert(s.subrange(p3, p4) =~= d);
    assert(s.subrange(p4, p4 + e.len()) =~= e);
}

/// The fixed part of a CONNECT is read back.
proof fn lemma_fixed_read(b: Seq<u8>, c: packet::ConnectModel)
    requires
        b.len() >= 10,
        b.subrange(0, 10) == connect_fixed(c),
    ensures
        b.subrange(0, 6) == protocol_name(),
        b[6] == 4,
        b[7] == connect_flags(c),
        wire::be16(b[8], b[9]) == c.keep_alive,
{
    let fixed = connect_fixed(c);
    wire::lemma_be16(c.keep_alive);
    assert(fixed.subrange(0, 6) =~= protocol_name());
    assert(b.subrange(0, 10).subrange(0, 6) =~= b.subrange(0, 6));
    let w = b.subrange(0, 10);
    assert(b[6] == w[6] && b[7] == w[7] && b[8] == w[8] && b[9] == w[9]);
}

proof fn lemma_connect_read(c: packet::ConnectModel)
    requires
        sendable(packet::PacketModel::Connect(c)),
        connect_body(c) is Ok,
    ensures
        connect_model(connect_body(c)->Ok_0) == Ok::<packet::ConnectModel, MqttError>(c),
{
    lemma_connect_flags(c);
    lemma_connect_parts(c);
    let b = connect_body(c)->Ok_0;
    let fixed = connect_fixed(c);
    let f1 = wire::text_field(c.client_id);
    let fw = will_bytes(c);
    let fu = user_bytes(c);
    let fp = password_bytes(c);
    let flags = connect_flags(c);
    let p1 = 10int + f1.len();
    let p2 = p1 + fw.len();
    let p3 = p2 + fu.len();
    lemma_five_parts(fixed, f1, fw, fu, fp);
    lemma_fixed_read(b, c);
    wire::lemma_text_read(b, 10, c.client_id);
    lemma_will_read(b, p1, c);
    assert(opt_text_at(b, p2, bit(flags, 128)) == Ok::<(Option<Seq<char>>, int), MqttError>(
        (c.username, p3),
    )) by {
        if c.username is Some {
            wire::lemma_text_read(b, p2, c.username->0);
        }
    }
    assert(opt_field_at(b, p3, bit(flags, 64)) == Ok::<(Option<Seq<u8>>, int), MqttError>(
        (c.password, p3 + fp.len()),
    )) by {
        if c.password is Some {
            wire::lemma_field_read(b, p3, c.password->0);
        }
    }
    let back = connect_fields(b, flags)->Ok_0;
    assert(back == c);
}

proof fn lemma_publish_read(p: packet::PublishModel)
    requires
        sendable(packet::PacketModel::Publish(p)),
        publish_body(p) is Ok,
    ensures
        publish_model(publish_first(p), publish_body(p)->Ok_0) == Ok::<
            packet::PublishModel,
            MqttError,
        >(p),
        type_of(publish_first(p)) == Some(PacketType::Publish),
{
    let b = publish_body(p)->Ok_0;
    let ft = wire::text_field(p.topic);
    let fi = id_bytes(p);
    assert(b =~= ft + fi + p.payload);
    assert(b.subrange(0, ft.len() as int) =~= ft);
    wire::lemma_text_read(b, 0, p.topic);
    request::law_qos_round_trip(p.qos, 0);
    let first = publish_first(p);
    assert((first / 2) % 4 == request::qos_level(p.qos));
    assert(bit(first, 8) == p.dup);
    assert(bit(first, 1) == p.retain);
    if p.qos != QoS::AtMostOnce {
        wire::lemma_be16(p.packet_id->0);
        assert(b[ft.len() as int] == fi[0]);
        assert(b[ft.len() as int + 1] == fi[1]);
    }
    let q = ft.len() + fi.len();
    assert(b.subrange(q as int, b.len() as int) =~= p.payload);
}

proof fn lemma_filters_prefix(acc: Seq<u8>, subs: Seq<(Seq<char>, QoS)>, n: int)
    requires
        0 <= n <= subs.len(),
        filters_bytes(acc, subs) is Ok,
    ensures
        filters_bytes(acc, subs.subrange(0, n)) is Ok,
        acc.len() <= filters_bytes(acc, subs.subrange(0, n))->Ok_0.len() <= filters_bytes(
            acc,
            subs,
        )->Ok_0.len(),
        filters_bytes(acc, subs)->Ok_0.subrange(
            0,
            filters_bytes(acc, subs.subrange(0, n))->Ok_0.len() as int,
        ) == filters_bytes(acc, subs.subrange(0, n))->Ok_0,
        filters_bytes(acc, subs)->Ok_0.subrange(0, acc.len() as int) == acc,
    decreases subs.len(),
{
    let t = filters_bytes(acc, subs)->Ok_0;
    if n == subs.len() {
        assert(subs.subrange(0, n) =~= subs);
        assert(t.subrange(0, t.len() as int) =~= t);
        if subs.len() > 0 {
            let front = subs.drop_last();
            lemma_filters_prefix(acc, front, front.len() as int);
            let f = filters_bytes(acc, front)->Ok_0;
            assert(front.subrange(0, front.len() as int) =~= front);
            assert(t.subrange(0, acc.len() as int) =~= f.subrange(0, acc.len() as int));
        } else {
            assert(acc.subrange(0, acc.len() as int) =~= acc);
        }
    } else {
        let front = subs.drop_last();
        assert(front.subrange(0, n) =~= subs.subrange(0, n));
        lemma_filters_prefix(acc, front, n);
        let f = filters_bytes(acc, front)->Ok_0;
        let p = filters_bytes(acc, subs.subrange(0, n))->Ok_0;
        assert(t.subrange(0, p.len() as int) =~= f.subrange(0, p.len() as int));
        assert(t.subrange(0, acc.len() as int) =~= f.subrange(0, acc.len() as int));
    }
}

proof fn lemma_filters_read(acc: Seq<u8>, subs: Seq<(Seq<char>, QoS)>, n: int)
    requires
        0 <= n <= subs.len(),
        filters_bytes(acc, subs) is Ok,
        forall|i: int| 0 <= i < subs.len() ==> !(#[trigger] subs[i]).0.contains('\0'),
    ensures
        filters_at(
            filters_bytes(acc, subs)->Ok_0,
            filters_bytes(acc, subs.subrange(0, n))->Ok_0.len() as int,
            subs.subrange(0, n),
        ) == Ok::<Seq<(Seq<char>, QoS)>, MqttError>(subs),
    decreases subs.len() - n,
{
    let b = filters_bytes(acc, subs)->Ok_0;
    if n == subs.len() {
        assert(subs.subrange(0, n) =~= subs);
    } else {
        lemma_filters_read(acc, subs, n + 1);
        lemma_filters_prefix(acc, subs, n);
        lemma_filters_prefix(acc, subs, n + 1);
        let p = filters_bytes(acc, subs.subrange(0, n))->Ok_0;
        let q = filters_bytes(acc, subs.subrange(0, n + 1))->Ok_0;
        assert(subs.subrange(0, n + 1).drop_last() =~= subs.subrange(0, n));
        let f = wire::text_field(subs[n].0);
        assert(q =~= p + f + seq![request::qos_level(subs[n].1)]);
        assert(b.subrange(p.len() as int, p.len() as int + f.len()) =~= f) by {
            assert forall|i: int| 0 <= i < f.len() implies b[p.len() + i] == f[i] by {
                assert(b.subrange(0, q.len() as int)[p.len() + i] == q[p.len() + i]);
            }
        }
        wire::lemma_text_read(b, p.len() as int, subs[n].0);
        assert(b[q.len() - 1] == request::qos_level(subs[n].1)) by {
            assert(b.subrange(0, q.len() as int)[q.len() - 1] == q[q.len() - 1]);
        }
        request::law_qos_round_trip(subs[n].1, 0);
        assert(subs.subrange(0, n + 1) =~= subs.subrange(0, n).push(subs[n]));
    }
}

proof fn lemma_topics_prefix(acc: Seq<u8>, topics: Seq<Seq<char>>, n: int)
    requires
        0 <= n <= topics.len(),
        topics_bytes(acc, topics) is Ok,
    ensures
        topics_bytes(acc, topics.subrange(0, n)) is Ok,
        acc.len() <= topics_bytes(acc, topics.subrange(0, n))->Ok_0.len() <= topics_bytes(
            acc,
            topics,
        )->Ok_0.len(),
        topics_bytes(acc, topics)->Ok_0.subrange(
            0,
            topics_bytes(acc, topics.subrange(0, n))->Ok_0.len() as int,
        ) == topics_bytes(acc, topics.subrange(0, n))->Ok_0,
        topics_bytes(acc, topics)->Ok_0.subrange(0, acc.len() as int) == acc,
    decreases topics.len(),
{
    let t = topics_bytes(acc, topics)->Ok_0;
    if n == topics.len() {
        assert(topics.subrange(0, n) =~= topics);
        assert(t.subrange(0, t.len() as int) =~= t);
        if topics.len() > 0 {
            let front = topics.drop_last();
            lemma_topics_prefix(acc, front, front.len() as int);
            let f = topics_bytes(acc, front)->Ok_0;
            assert(front.subrange(0, front.len() as int) =~= front);
            assert(t.subrange(0, acc.len() as int) =~= f.subrange(0, acc.len() as int));
        } else {
            assert(acc.subrange(0, acc.len() as int) =~= acc);
        }
    } else {
        let front = topics.drop_last();
        assert(front.subrange(0, n) =~= topics.subrange(0, n));
        lemma_topics_prefix(acc, front, n);
        let f = topics_bytes(acc, front)->Ok_0;
        let p = topics_bytes(acc, topics.subrange(0, n))->Ok_0;
        assert(t.subrange(0, p.len() as int) =~= f.subrange(0, p.len() as int));
        assert(t.subrange(0, acc.len() as int) =~= f.subrange(0, acc.len() as int));
    }
}

proof fn lemma_topics_read(acc: Seq<u8>, topics: Seq<Seq<char>>, n: int)
    requires
        0 <= n <= topics.len(),
        topics_bytes(acc, topics) is Ok,
        forall|i: int| 0 <= i < topics.len() ==> !(#[trigger] topics[i]).contains('\0'),
    ensures
        topics_at(
            topics_bytes(acc, topics)->Ok_0,
            topics_bytes(acc, topics.subrange(0, n))->Ok_0.len() as int,
            topics.subrange(0, n),
        ) == Ok::<Seq<Seq<char>>, MqttError>(topics),
    decreases topics.len() - n,
{
    let b = topics_bytes(acc, topics)->Ok_0;
    if n == topics.len() {
        assert(topics.subrange(0, n) =~= topics);
    } else {
        lemma_topics_read(acc, topics, n + 1);
        lemma_topics_prefix(acc, topics, n);
        lemma_topics_prefix(acc, topics, n + 1);
        let p = topics_bytes(acc, topics.subrange(0, n))->Ok_0;
        let q = topics_bytes(acc, topics.subrange(0, n + 1))->Ok_0;
        assert(topics.subrange(0, n + 1).drop_last() =~= topics.subrange(0, n));
        let f = wire::text_field(topics[n]);
        assert(q =~= p + f);
        assert(b.subrange(p.len() as int, p.len() as int + f.len()) =~= f) by {
            assert forall|i: int| 0 <= i < f.len() implies b[p.len() + i] == f[i] by {
                assert(b.subrange(0, q.len() as int)[p.len() + i] == q[p.len() + i]);
            }
        }
        wire::lemma_text_read(b, p.len() as int, topics[n]);
        assert(topics.subrange(0, n + 1) =~= topics.subrange(0, n).push(topics[n]));
    }
}

proof fn lemma_codes_read(b: Seq<u8>, codes: Seq<SubackCode>, n: int)
    requires
        0 <= n <= codes.len(),
        b.len() == 2 + codes.len(),
        b.subrange(2, b.len() as int) == codes_bytes(codes),
    ensures
        codes_at(b, 2 + n, codes.subrange(0, n)) == Ok::<Seq<SubackCode>, MqttError>(codes),
    decreases codes.len() - n,
{
    if n == codes.len() {
        assert(codes.subrange(0, n) =~= codes);
    } else {
        lemma_codes_read(b, codes, n + 1);
        assert(b[2 + n] == b.subrange(2, b.len() as int)[n]);
        request::law_suback_round_trip(codes[n], 0);
        assert(codes.subrange(0, n + 1) =~= codes.subrange(0, n).push(codes[n]));
    }
}

proof fn lemma_subscribe_read(packet_id: u16, subscriptions: Seq<(Seq<char>, QoS)>)
    requires
        sendable((packet::PacketModel::Subscribe { packet_id, subscriptions })),
        filters_bytes(wire::be16_bytes(packet_id), subscriptions) is Ok,
    ensures
        subscribe_model(0x82, filters_bytes(wire::be16_bytes(packet_id), subscriptions)->Ok_0)
            == Ok::<packet::PacketModel, MqttError>(
            (packet::PacketModel::Subscribe { packet_id, subscriptions }),
        ),
{
    let acc = wire::be16_bytes(packet_id);
    let b = filters_bytes(acc, subscriptions)->Ok_0;
    wire::lemma_be16(packet_id);
    lemma_filters_prefix(acc, subscriptions, 0);
    lemma_filters_prefix(acc, subscriptions, 1);
    assert(subscriptions.subrange(0, 0) =~= Seq::<(Seq<char>, QoS)>::empty());
    assert(subscriptions.subrange(0, 1).drop_last() =~= subscriptions.subrange(0, 0));
    lemma_filters_read(acc, subscriptions, 0);
    assert(b.subrange(0, 2) == acc);
    assert(b[0] == b.subrange(0, 2)[0] && b[1] == b.subrange(0, 2)[1]);
}

proof fn lemma_unsubscribe_read(packet_id: u16, topics: Seq<Seq<char>>)
    requires
        sendable((packet::PacketModel::Unsubscribe { packet_id, topics })),
        topics_bytes(wire::be16_bytes(packet_id), topics) is Ok,
    ensures
        unsubscribe_model(0xA2, topics_bytes(wire::be16_bytes(packet_id), topics)->Ok_0) == Ok::<
            packet::PacketModel,
            MqttError,
        >((packet::PacketModel::Unsubscribe { packet_id, topics })),
{
    let acc = wire::be16_bytes(packet_id);
    let b = topics_bytes(acc, topics)->Ok_0;
    wire::lemma_be16(packet_id);
    lemma_topics_prefix(acc, topics, 0);
    lemma_topics_prefix(acc, topics, 1);
    assert(topics.subrange(0, 0) =~= Seq::<Seq<char>>::empty());
    assert(topics.subrange(0, 1).drop_last() =~= topics.subrange(0, 0));
    lemma_topics_read(acc, topics, 0);
    assert(b.subrange(0, 2) == acc);
    assert(b[0] == b.subrange(0, 2)[0] && b[1] == b.subrange(0, 2)[1]);
}

proof fn lemma_suback_read(packet_id: u16, return_codes: Seq<SubackCode>)
    requires
        packet_id != 0,
        return_codes.len() >= 1,
    ensures
        suback_model(wire::be16_bytes(packet_id) + codes_bytes(return_codes)) == Ok::<
            packet::PacketModel,
            MqttError,
        >((packet::PacketModel::Suback { packet_id, return_codes })),
{
    let b = wire::be16_bytes(packet_id) + codes_bytes(return_codes);
    wire::lemma_be16(packet_id);
    assert(b.subrange(2, b.len() as int) =~= codes_bytes(return_codes));
    lemma_codes_read(b, return_codes, 0);
    assert(return_codes.subrange(0, 0) =~= Seq::<SubackCode>::empty());
}

/// The body of a packet stands for that packet.
proof fn lemma_body_read(m: packet::PacketModel)
    requires
        sendable(m),
        body_of(m) is Ok,
    ensures
        type_of(first_byte(m)) is Some,
        parse_model(first_byte(m), type_of(first_byte(m))->0, body_of(m)->Ok_0) == Ok::<
            packet::PacketModel,
            MqttError,
        >(m),
{
    match m {
        packet::PacketModel::Connect(c) => {
            lemma_connect_read(c);
        },
        packet::PacketModel::Connack(c) => {
            packet::law_return_code_round_trip(c.return_code, 0);
        },
        packet::PacketModel::Publish(p) => {
            lemma_publish_read(p);
        },
        packet::PacketModel::Puback(id) => {
            wire::lemma_be16(id);
        },
        packet::PacketModel::Pubrec(id) => {
            wire::lemma_be16(id);
        },
        packet::PacketModel::Pubrel(id) => {
            wire::lemma_be16(id);
        },
        packet::PacketModel::Pubcomp(id) => {
            wire::lemma_be16(id);
        },
        packet::PacketModel::Subscribe { packet_id, subscriptions } => {
            lemma_subscribe_read(packet_id, subscriptions);
        },
        packet::PacketModel::Suback { packet_id, return_codes } => {
            lemma_suback_read(packet_id, return_codes);
        },
        packet::PacketModel::Unsubscribe { packet_id, topics } => {
            lemma_unsubscribe_read(packet_id, topics);
        },
        packet::PacketModel::Unsuback { packet_id, reason_codes } => {
            wire::lemma_be16(packet_id);
            assert(reason_codes =~= Seq::<u8>::empty());
        },
        packet::PacketModel::Pingreq => {},
        packet::PacketModel::Pingresp => {},
        packet::PacketModel::Disconnect => {},
    }
}

/// A packet that keeps the rules of the wire is read back from the bytes it was
/// written as, and the reader stops right behind them, whatever follows.
pub proof fn law_encode_decode_round_trip(m: packet::PacketModel, rest: Seq<u8>, max: usize)
    requires
        sendable(m),
        encode_model(m) is Ok,
        body_of(m)->Ok_0.len() <= max,
        body_of(m)->Ok_0.len() <= MQTT_SPEC_MAX_PACKET_SIZE,
    ensures
        head_of(encode_model(m)->Ok_0 + rest, max) == (Head::Whole {
            total: encode_model(m)->Ok_0.len() as int,
            packet: Ok::<packet::PacketModel, MqttError>(m),
        }),
{
    lemma_body_read(m);
    lemma_frame(first_byte(m), body_of(m)->Ok_0, rest, max);
}

/// As long as a frame has not come in whole, the reader waits: the head of every
/// proper part of it, from its first byte on, is incomplete, so that nothing is taken
/// from the buffer.
pub proof fn law_incomplete_frame_waits(b: Seq<u8>, k: int, max: usize)
    requires
        head_of(b, max) matches Head::Whole { total, .. } && 0 <= k < total,
    ensures
        head_of(b.subrange(0, k), max) is Partial,
{
    let c = b.subrange(0, k);
    if k >= 2 {
        assert(c[0] == b[0]);
        let (n, p) = wire::vbi_at(b, 1, 4)->Ok_0;
        if p <= k {
            lemma_vbi_within(b, k, 1, 4);
        } else {
            lemma_vbi_cut(b, k, 1, 4);
        }
    }
}

/// The same of a packet: every proper part of the bytes that it is written as, from
/// the first on, is incomplete.
pub proof fn law_encoded_prefix_waits(m: packet::PacketModel, k: int, max: usize)
    requires
        encode_model(m) is Ok,
        body_of(m)->Ok_0.len() <= max,
        body_of(m)->Ok_0.len() <= MQTT_SPEC_MAX_PACKET_SIZE,
        0 <= k < encode_model(m)->Ok_0.len(),
    ensures
        head_of(encode_model(m)->Ok_0.subrange(0, k), max) is Partial,
{
    let e = encode_model(m)->Ok_0;
    assert(type_of(first_byte(m)) is Some);
    lemma_frame(first_byte(m), body_of(m)->Ok_0, Seq::empty(), max);
    assert(e + Seq::<u8>::empty() =~= e);
    law_incomplete_frame_waits(e, k, max);
}

/// A number that ends behind a prefix is not read from the prefix.
proof fn lemma_vbi_cut(b: Seq<u8>, k: int, at: int, left: nat)
    requires
        0 <= at <= k <= b.len(),
        wire::vbi_at(b, at, left) matches Ok((_, p)) && p > k,
    ensures
        wire::vbi_at(b.subrange(0, k), at, left) == wire::eof::<nat>(),
    decreases left,
{
    let c = b.subrange(0, k);
    if at < k {
        assert(c[at] == b[at]);
        if c[at] >= 128 && left > 1 {
            lemma_vbi_cut(b, k, at + 1, (left - 1) as nat);
        }
    }
}

/// A PUBLISH written as its header and its payload is the PUBLISH written at once;
/// and what cannot be written at once cannot be written in two parts, for the same
/// reason.
pub proof fn law_publish_header(p: packet::PublishModel)
    ensures
        match encode_model(packet::PacketModel::Publish(p)) {
            Ok(whole) => publish_header_model(p) matches Ok(header) && header + p.payload == whole,
            Err(e) => publish_header_model(p) == Err::<Seq<u8>, MqttError>(e),
        },
{
    if encode_model(packet::PacketModel::Publish(p)) is Ok {
        let h = publish_header_model(p)->Ok_0;
        let b = publish_body(p)->Ok_0;
        assert(h + p.payload =~= frame(publish_first(p), b));
    }
}

proof fn lemma_text_clean(b: Seq<u8>, at: int)
    requires
        0 <= at,
        wire::text_at(b, at) is Ok,
    ensures
        ({
            let (s, p) = wire::text_at(b, at)->Ok_0;
            &&& !s.contains('\0')
            &&& encode_utf8(s).len() <= 65535
            &&& p == at + 2 + encode_utf8(s).len()
            &&& p <= b.len()
        }),
{
    let raw = wire::field_at(b, at)->Ok_0.0;
    decode_utf8_encode_utf8(raw);
}

proof fn lemma_filters_clean(b: Seq<u8>, at: int, acc: Seq<(Seq<char>, QoS)>, head: Seq<u8>)
    requires
        0 <= at,
        filters_at(b, at, acc) is Ok,
        forall|i: int| 0 <= i < acc.len() ==> !(#[trigger] acc[i]).0.contains('\0'),
        filters_bytes(head, acc) is Ok,
        at < b.len() || acc.len() >= 1,
        filters_bytes(head, acc)->Ok_0.len() == at,
        at <= b.len(),
    ensures
        ({
            let subs = filters_at(b, at, acc)->Ok_0;
            &&& subs.len() >= 1
            &&& forall|i: int| 0 <= i < subs.len() ==> !(#[trigger] subs[i]).0.contains('\0')
            &&& filters_bytes(head, subs) is Ok
            &&& filters_bytes(head, subs)->Ok_0.len() == b.len()
        }),
    decreases b.len() - at,
{
    if at < b.len() {
        lemma_text_clean(b, at);
        let (s, p) = wire::text_at(b, at)->Ok_0;
        let q = request::qos_from_level(b[p])->0;
        assert(acc.push((s, q)).drop_last() =~= acc);
        lemma_filters_clean(b, p + 1, acc.push((s, q)), head);
    }
}

proof fn lemma_topics_clean(b: Seq<u8>, at: int, acc: Seq<Seq<char>>, head: Seq<u8>)
    requires
        0 <= at,
        topics_at(b, at, acc) is Ok,
        forall|i: int| 0 <= i < acc.len() ==> !(#[trigger] acc[i]).contains('\0'),
        topics_bytes(head, acc) is Ok,
        at < b.len() || acc.len() >= 1,
        topics_bytes(head, acc)->Ok_0.len() == at,
        at <= b.len(),
    ensures
        ({
            let topics = topics_at(b, at, acc)->Ok_0;
            &&& topics.len() >= 1
            &&& forall|i: int| 0 <= i < topics.len() ==> !(#[trigger] topics[i]).contains('\0')
            &&& topics_bytes(head, topics) is Ok
            &&& topics_bytes(head, topics)->Ok_0.len() == b.len()
        }),
    decreases b.len() - at,
{
    if at < b.len() {
        lemma_text_clean(b, at);
        let (s, p) = wire::text_at(b, at)->Ok_0;
        assert(acc.push(s).drop_last() =~= acc);
        lemma_topics_clean(b, p, acc.push(s), head);
    }
}

proof fn lemma_codes_count(b: Seq<u8>, at: int, acc: Seq<SubackCode>)
    requires
        0 <= at <= b.len(),
        codes_at(b, at, acc) is Ok,
    ensures
        codes_at(b, at, acc)->Ok_0.len() == acc.len() + b.len() - at,
    decreases b.len() - at,
{
    if at < b.len() {
        lemma_codes_count(b, at + 1, acc.push(request::suback_from_byte(b[at])->0));
    }
}

proof fn lemma_connect_clean(b: Seq<u8>)
    requires
        connect_model(b) is Ok,
    ensures
        sendable(packet::PacketModel::Connect(connect_model(b)->Ok_0)),
        connect_body(connect_model(b)->Ok_0) is Ok,
        connect_body(connect_model(b)->Ok_0)->Ok_0.len() <= b.len(),
{
    let c = connect_model(b)->Ok_0;
    let flags = b[7];
    lemma_text_clean(b, 10);
    let p = wire::text_at(b, 10)->Ok_0.1;
    if bit(flags, 4) {
        lemma_text_clean(b, p);
    }
    let q = will_at(b, p, flags)->Ok_0.1;
    assert(q == p + will_bytes(c).len());
    assert(q <= b.len());
    if bit(flags, 128) {
        lemma_text_clean(b, q);
    }
    let r = opt_text_at(b, q, bit(flags, 128))->Ok_0.1;
    assert(r == q + user_bytes(c).len());
    assert(r <= b.len());
    let e = opt_field_at(b, r, bit(flags, 64))->Ok_0.1;
    assert(e == r + password_bytes(c).len());
    assert(e <= b.len());
    assert(connect_fixed(c).len() == 10);
    assert(p == 10 + wire::text_field(c.client_id).len());
    assert(connect_body(c) is Ok);
    lemma_connect_parts(c);
}

proof fn lemma_publish_clean(first: u8, b: Seq<u8>)
    requires
        publish_model(first, b) is Ok,
    ensures
        sendable(packet::PacketModel::Publish(publish_model(first, b)->Ok_0)),
        publish_body(publish_model(first, b)->Ok_0) is Ok,
        publish_body(publish_model(first, b)->Ok_0)->Ok_0.len() == b.len(),
{
    lemma_text_clean(b, 0);
}

/// Every packet that is read keeps the rules of the wire, so that it can be
/// written again, in a body no longer than the one it was read from.
pub proof fn law_decoded_is_sendable(first: u8, t: PacketType, b: Seq<u8>)
    requires
        parse_model(first, t, b) is Ok,
    ensures
        sendable(parse_model(first, t, b)->Ok_0),
        body_of(parse_model(first, t, b)->Ok_0) is Ok,
        body_of(parse_model(first, t, b)->Ok_0)->Ok_0.len() <= b.len(),
{
    match t {
        PacketType::Connect => {
            lemma_connect_clean(b);
        },
        PacketType::Publish => {
            lemma_publish_clean(first, b);
        },
        PacketType::Subscribe => {
            let head = wire::be16_bytes(wire::be16(b[0], b[1]));
            lemma_filters_clean(b, 2, seq![], head);
        },
        PacketType::Unsubscribe => {
            let head = wire::be16_bytes(wire::be16(b[0], b[1]));
            lemma_topics_clean(b, 2, seq![], head);
        },
        PacketType::Suback => {
            lemma_codes_count(b, 2, seq![]);
        },
        _ => {},
    }
}

} // verus!
