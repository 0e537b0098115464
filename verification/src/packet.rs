//! Wire packet types.
//!
//! Payloads are `Bytes` and names are `Arc<str>`, so that handing a packet to
//! many consumers copies handles only. The view of a packet is a model over
//! sequences, in which contracts speak of it.
use crate::buffer;
use crate::buffer::SecretBytes;
use crate::properties;
use crate::properties::Properties;
use crate::request::{IncomingPublish, PacketId, QoS, SubackCode};
use crate::text;
use bytes::Bytes;
use std::sync::Arc;
use vstd::prelude::*;

verus! {

/// Protocol level of a connection.
#[derive(Debug, Clone, Copy, PartialEq, Eq, Structural)]
pub enum ProtocolVersion {
    /// MQTT 3.1.1.
    V311,
    /// MQTT 5.0.
    V5,
}

impl Default for ProtocolVersion {
    fn default() -> (r: ProtocolVersion)
        ensures
            r == ProtocolVersion::V311,
    {
        ProtocolVersion::V311
    }
}

/// The version with a protocol level byte, if there is one.
pub open spec fn version_of_level(level: u8) -> Option<ProtocolVersion> {
    if level == 4 {
        Some(ProtocolVersion::V311)
    } else if level == 5 {
        Some(ProtocolVersion::V5)
    } else {
        None
    }
}

impl ProtocolVersion {
    /// The protocol level byte of CONNECT.
    pub fn level(self) -> (r: u8)
        ensures
            version_of_level(r) == Some(self),
    {
        match self {
            ProtocolVersion::V311 => 4,
            ProtocolVersion::V5 => 5,
        }
    }

    /// Reads the protocol level byte of CONNECT.
    pub fn from_level(level: u8) -> (r: Option<ProtocolVersion>)
        ensures
            r == version_of_level(level),
    {
        match level {
            4 => Some(ProtocolVersion::V311),
            5 => Some(ProtocolVersion::V5),
            _ => None,
        }
    }
}

// ----------------------------------------------------------------------------
// Packets
// ----------------------------------------------------------------------------

#[derive(Clone)]
pub enum Packet {
    Connect(ConnectPacket),
    Connack(ConnackPacket),
    Publish(PublishPacket),
    Puback(PacketId),
    Pubrec(PacketId),
    Pubrel(PacketId),
    Pubcomp(PacketId),
    Subscribe(SubscribePacket),
    Suback(SubackPacket),
    Unsubscribe(UnsubscribePacket),
    Unsuback(UnsubackPacket),
    Pingreq,
    Pingresp,
    Disconnect,
}

#[derive(Debug)]
pub struct PublishPacket {
    pub topic: Arc<str>,
    pub payload: Bytes,
    pub dup: bool,
    pub qos: QoS,
    pub retain: bool,
    pub packet_id: Option<PacketId>,
    pub properties: Properties,
}

#[derive(Clone)]
pub struct ConnectPacket {
    pub version: ProtocolVersion,
    pub properties: Properties,
    pub client_id: Arc<str>,
    pub clean_session: bool,
    pub keep_alive: u16,
    pub username: Option<Arc<str>>,
    /// Wiped from memory when the packet is dropped.
    pub password: Option<SecretBytes>,
    pub will: Option<WillPacket>,
}

#[derive(Debug, Clone)]
pub struct WillPacket {
    pub topic: Arc<str>,
    pub payload: Bytes,
    pub qos: QoS,
    pub retain: bool,
    pub properties: Properties,
}

#[derive(Debug, Clone)]
pub struct ConnackPacket {
    pub session_present: bool,
    pub return_code: ConnackReturnCode,
    pub properties: Properties,
}

#[derive(Debug, Clone)]
pub struct SubscribePacket {
    pub packet_id: PacketId,
    pub subscriptions: Vec<TopicSubscription>,
}

#[derive(Debug, Clone)]
pub struct TopicSubscription {
    pub topic: Arc<str>,
    pub qos: QoS,
}

#[derive(Debug, Clone)]
pub struct SubackPacket {
    pub packet_id: PacketId,
    pub return_codes: Vec<SubackCode>,
}

#[derive(Debug, Clone)]
pub struct UnsubscribePacket {
    pub packet_id: PacketId,
    pub topics: Vec<Arc<str>>,
}

#[derive(Debug, Clone)]
pub struct UnsubackPacket {
    pub packet_id: PacketId,
    /// One reason code per filter on MQTT 5.0; empty on 3.1.1.
    pub reason_codes: Vec<u8>,
}

impl UnsubackPacket {
    /// A bare acknowledgement.
    pub fn new(packet_id: PacketId) -> (r: UnsubackPacket)
        ensures
            r.packet_id == packet_id,
            r.reason_codes@ == Seq::<u8>::empty(),
    {
        UnsubackPacket { packet_id, reason_codes: Vec::new() }
    }
}

// ----------------------------------------------------------------------------
// Model
// ----------------------------------------------------------------------------

#[verifier::ext_equal]
pub struct PublishModel {
    pub topic: Seq<char>,
    pub payload: Seq<u8>,
    pub dup: bool,
    pub qos: QoS,
    pub retain: bool,
    pub packet_id: Option<PacketId>,
    pub properties: properties::PropertiesModel,
}

#[verifier::ext_equal]
pub struct WillModel {
    pub topic: Seq<char>,
    pub payload: Seq<u8>,
    pub qos: QoS,
    pub retain: bool,
    pub properties: properties::PropertiesModel,
}

#[verifier::ext_equal]
pub struct ConnectModel {
    pub version: ProtocolVersion,
    pub properties: properties::PropertiesModel,
    pub client_id: Seq<char>,
    pub clean_session: bool,
    pub keep_alive: u16,
    pub username: Option<Seq<char>>,
    pub password: Option<Seq<u8>>,
    pub will: Option<WillModel>,
}

#[verifier::ext_equal]
pub struct ConnackModel {
    pub session_present: bool,
    pub return_code: ConnackReturnCode,
    pub properties: properties::PropertiesModel,
}

#[verifier::ext_equal]
pub enum PacketModel {
    Connect(ConnectModel),
    Connack(ConnackModel),
    Publish(PublishModel),
    Puback(PacketId),
    Pubrec(PacketId),
    Pubrel(PacketId),
    Pubcomp(PacketId),
    Subscribe { packet_id: PacketId, subscriptions: Seq<(Seq<char>, QoS)> },
    Suback { packet_id: PacketId, return_codes: Seq<SubackCode> },
    Unsubscribe { packet_id: PacketId, topics: Seq<Seq<char>> },
    Unsuback { packet_id: PacketId, reason_codes: Seq<u8> },
    Pingreq,
    Pingresp,
    Disconnect,
}

/// The filters of a SUBSCRIBE as pairs of text and level.
pub open spec fn subscriptions_of(v: Seq<TopicSubscription>) -> Seq<(Seq<char>, QoS)> {
    Seq::new(v.len(), |i: int| ((*v[i].topic)@, v[i].qos))
}

/// The texts of a list of shared strings.
pub open spec fn names_of(v: Seq<Arc<str>>) -> Seq<Seq<char>> {
    Seq::new(v.len(), |i: int| (*v[i])@)
}

impl View for PublishPacket {
    type V = PublishModel;

    open spec fn view(&self) -> PublishModel {
        PublishModel {
            topic: (*self.topic)@,
            payload: buffer::bytes_of(self.payload),
            dup: self.dup,
            qos: self.qos,
            retain: self.retain,
            packet_id: self.packet_id,
            properties: self.properties@,
        }
    }
}

impl View for WillPacket {
    type V = WillModel;

    open spec fn view(&self) -> WillModel {
        WillModel {
            topic: (*self.topic)@,
            payload: buffer::bytes_of(self.payload),
            qos: self.qos,
            retain: self.retain,
            properties: self.properties@,
        }
    }
}

impl View for ConnectPacket {
    type V = ConnectModel;

    open spec fn view(&self) -> ConnectModel {
        ConnectModel {
            version: self.version,
            properties: self.properties@,
            client_id: (*self.client_id)@,
            clean_session: self.clean_session,
            keep_alive: self.keep_alive,
            username: text::opt_chars(self.username),
            password: buffer::opt_secret(self.password),
            will: match self.will {
                Some(w) => Some(w@),
                None => None,
            },
        }
    }
}

impl View for ConnackPacket {
    type V = ConnackModel;

    open spec fn view(&self) -> ConnackModel {
        ConnackModel {
            session_present: self.session_present,
            return_code: self.return_code,
            properties: self.properties@,
        }
    }
}

impl View for Packet {
    type V = PacketModel;

    open spec fn view(&self) -> PacketModel {
        match *self {
            Packet::Connect(c) => PacketModel::Connect(c@),
            Packet::Connack(c) => PacketModel::Connack(c@),
            Packet::Publish(p) => PacketModel::Publish(p@),
            Packet::Puback(id) => PacketModel::Puback(id),
            Packet::Pubrec(id) => PacketModel::Pubrec(id),
            Packet::Pubrel(id) => PacketModel::Pubrel(id),
            Packet::Pubcomp(id) => PacketModel::Pubcomp(id),
            Packet::Subscribe(s) => PacketModel::Subscribe {
                packet_id: s.packet_id,
                subscriptions: subscriptions_of(s.subscriptions@),
            },
            Packet::Suback(s) => PacketModel::Suback {
                packet_id: s.packet_id,
                return_codes: s.return_codes@,
            },
            Packet::Unsubscribe(u) => PacketModel::Unsubscribe {
                packet_id: u.packet_id,
                topics: names_of(u.topics@),
            },
            Packet::Unsuback(u) => PacketModel::Unsuback {
                packet_id: u.packet_id,
                reason_codes: u.reason_codes@,
            },
            Packet::Pingreq => PacketModel::Pingreq,
            Packet::Pingresp => PacketModel::Pingresp,
            Packet::Disconnect => PacketModel::Disconnect,
        }
    }
}

impl Clone for PublishPacket {
    fn clone(&self) -> (r: PublishPacket)
        ensures
            r@ == self@,
    {
        PublishPacket {
            topic: self.topic.clone(),
            payload: self.payload.clone(),
            dup: self.dup,
            qos: self.qos,
            retain: self.retain,
            packet_id: self.packet_id,
            properties: self.properties.clone(),
        }
    }
}

impl PublishPacket {
    /// The same message under another packet identifier.
    pub fn with_id(self, id: PacketId) -> (r: PublishPacket)
        ensures
            r@ == (PublishModel { packet_id: Some(id), ..self@ }),
    {
        let mut p = self;
        p.packet_id = Some(id);
        p
    }
}

/// The name of a packet's type.
pub open spec fn packet_name(m: PacketModel) -> Seq<char> {
    match m {
        PacketModel::Connect(_) => "CONNECT"@,
        PacketModel::Connack(_) => "CONNACK"@,
        PacketModel::Publish(_) => "PUBLISH"@,
        PacketModel::Puback(_) => "PUBACK"@,
        PacketModel::Pubrec(_) => "PUBREC"@,
        PacketModel::Pubrel(_) => "PUBREL"@,
        PacketModel::Pubcomp(_) => "PUBCOMP"@,
        PacketModel::Subscribe { .. } => "SUBSCRIBE"@,
        PacketModel::Suback { .. } => "SUBACK"@,
        PacketModel::Unsubscribe { .. } => "UNSUBSCRIBE"@,
        PacketModel::Unsuback { .. } => "UNSUBACK"@,
        PacketModel::Pingreq => "PINGREQ"@,
        PacketModel::Pingresp => "PINGRESP"@,
        PacketModel::Disconnect => "DISCONNECT"@,
    }
}

impl Packet {
    /// The name of the packet's type.
    pub fn name(&self) -> (r: &'static str)
        ensures
            r@ == packet_name(self@),
    {
        match self {
            Packet::Connect(_) => "CONNECT",
            Packet::Connack(_) => "CONNACK",
            Packet::Publish(_) => "PUBLISH",
            Packet::Puback(_) => "PUBACK",
            Packet::Pubrec(_) => "PUBREC",
            Packet::Pubrel(_) => "PUBREL",
            Packet::Pubcomp(_) => "PUBCOMP",
            Packet::Subscribe(_) => "SUBSCRIBE",
            Packet::Suback(_) => "SUBACK",
            Packet::Unsubscribe(_) => "UNSUBSCRIBE",
            Packet::Unsuback(_) => "UNSUBACK",
            Packet::Pingreq => "PINGREQ",
            Packet::Pingresp => "PINGRESP",
            Packet::Disconnect => "DISCONNECT",
        }
    }
}

// ----------------------------------------------------------------------------
// Numeric types
// ----------------------------------------------------------------------------

#[derive(Debug, Clone, Copy, PartialEq, Eq, Structural)]
pub enum PacketType {
    Connect,
    Connack,
    Publish,
    Puback,
    Pubrec,
    Pubrel,
    Pubcomp,
    Subscribe,
    Suback,
    Unsubscribe,
    Unsuback,
    Pingreq,
    Pingresp,
    Disconnect,
    /// MQTT 5.0 enhanced authentication, which is never offered here.
    Auth,
}

/// The type's number in the high nibble of the fixed header.
pub open spec fn type_number(t: PacketType) -> u8 {
    match t {
        PacketType::Connect => 1,
        PacketType::Connack => 2,
        PacketType::Publish => 3,
        PacketType::Puback => 4,
        PacketType::Pubrec => 5,
        PacketType::Pubrel => 6,
        PacketType::Pubcomp => 7,
        PacketType::Subscribe => 8,
        PacketType::Suback => 9,
        PacketType::Unsubscribe => 10,
        PacketType::Unsuback => 11,
        PacketType::Pingreq => 12,
        PacketType::Pingresp => 13,
        PacketType::Disconnect => 14,
        PacketType::Auth => 15,
    }
}

impl PacketType {
    /// The type's number.
    pub fn as_u8(self) -> (r: u8)
        ensures
            r == type_number(self),
    {
        match self {
            PacketType::Connect => 1,
            PacketType::Connack => 2,
            PacketType::Publish => 3,
            PacketType::Puback => 4,
            PacketType::Pubrec => 5,
            PacketType::Pubrel => 6,
            PacketType::Pubcomp => 7,
            PacketType::Subscribe => 8,
            PacketType::Suback => 9,
            PacketType::Unsubscribe => 10,
            PacketType::Unsuback => 11,
            PacketType::Pingreq => 12,
            PacketType::Pingresp => 13,
            PacketType::Disconnect => 14,
            PacketType::Auth => 15,
        }
    }

    /// The type with a number: every number from 1 to 15 has one.
    pub fn from_u8(value: u8) -> (r: Option<PacketType>)
        ensures
            r is Some <==> 1 <= value <= 15,
            r matches Some(t) ==> type_number(t) == value,
    {
        match value {
            1 => Some(PacketType::Connect),
            2 => Some(PacketType::Connack),
            3 => Some(PacketType::Publish),
            4 => Some(PacketType::Puback),
            5 => Some(PacketType::Pubrec),
            6 => Some(PacketType::Pubrel),
            7 => Some(PacketType::Pubcomp),
            8 => Some(PacketType::Subscribe),
            9 => Some(PacketType::Suback),
            10 => Some(PacketType::Unsubscribe),
            11 => Some(PacketType::Unsuback),
            12 => Some(PacketType::Pingreq),
            13 => Some(PacketType::Pingresp),
            14 => Some(PacketType::Disconnect),
            15 => Some(PacketType::Auth),
            _ => None,
        }
    }
}

#[derive(Debug, Clone, Copy, PartialEq, Eq, Structural)]
pub enum ConnackReturnCode {
    Accepted,
    UnacceptableProtocolVersion,
    IdentifierRejected,
    ServerUnavailable,
    BadUsernameOrPassword,
    NotAuthorized,
}

/// The code's byte on the MQTT 3.1.1 wire.
pub open spec fn return_code_byte(c: ConnackReturnCode) -> u8 {
    match c {
        ConnackReturnCode::Accepted => 0,
        ConnackReturnCode::UnacceptableProtocolVersion => 1,
        ConnackReturnCode::IdentifierRejected => 2,
        ConnackReturnCode::ServerUnavailable => 3,
        ConnackReturnCode::BadUsernameOrPassword => 4,
        ConnackReturnCode::NotAuthorized => 5,
    }
}

/// The code with a byte on the MQTT 3.1.1 wire, if there is one.
pub open spec fn return_code_from_byte(v: u8) -> Option<ConnackReturnCode> {
    if v == 0 {
        Some(ConnackReturnCode::Accepted)
    } else if v == 1 {
        Some(ConnackReturnCode::UnacceptableProtocolVersion)
    } else if v == 2 {
        Some(ConnackReturnCode::IdentifierRejected)
    } else if v == 3 {
        Some(ConnackReturnCode::ServerUnavailable)
    } else if v == 4 {
        Some(ConnackReturnCode::BadUsernameOrPassword)
    } else if v == 5 {
        Some(ConnackReturnCode::NotAuthorized)
    } else {
        None
    }
}

/// The MQTT 5.0 reason code that stands for a return code.
pub open spec fn v5_reason(c: ConnackReturnCode) -> u8 {
    match c {
        ConnackReturnCode::Accepted => 0x00,
        ConnackReturnCode::UnacceptableProtocolVersion => 0x84,
        ConnackReturnCode::IdentifierRejected => 0x85,
        ConnackReturnCode::ServerUnavailable => 0x88,
        ConnackReturnCode::BadUsernameOrPassword => 0x86,
        ConnackReturnCode::NotAuthorized => 0x87,
    }
}

/// The return code that an MQTT 5.0 reason code stands for: the code's own, the
/// nearest one for the two redirections, server unavailable for every other
/// failure, and none for the success codes that are not CONNACK's.
pub open spec fn from_v5(code: u8) -> Result<ConnackReturnCode, ()> {
    if code == 0x00 {
        Ok(ConnackReturnCode::Accepted)
    } else if code < 0x80 {
        Err(())
    } else if code == 0x84 {
        Ok(ConnackReturnCode::UnacceptableProtocolVersion)
    } else if code == 0x85 {
        Ok(ConnackReturnCode::IdentifierRejected)
    } else if code == 0x86 {
        Ok(ConnackReturnCode::BadUsernameOrPassword)
    } else if code == 0x87 || code == 0x9C || code == 0x9D {
        Ok(ConnackReturnCode::NotAuthorized)
    } else {
        Ok(ConnackReturnCode::ServerUnavailable)
    }
}

impl ConnackReturnCode {
    pub fn as_u8(self) -> (r: u8)
        ensures
            r == return_code_byte(self),
    {
        match self {
            ConnackReturnCode::Accepted => 0,
            ConnackReturnCode::UnacceptableProtocolVersion => 1,
            ConnackReturnCode::IdentifierRejected => 2,
            ConnackReturnCode::ServerUnavailable => 3,
            ConnackReturnCode::BadUsernameOrPassword => 4,
            ConnackReturnCode::NotAuthorized => 5,
        }
    }

    /// The code with a byte on the MQTT 3.1.1 wire.
    pub fn from_u8(value: u8) -> (r: Option<ConnackReturnCode>)
        ensures
            r == return_code_from_byte(value),
    {
        match value {
            0 => Some(ConnackReturnCode::Accepted),
            1 => Some(ConnackReturnCode::UnacceptableProtocolVersion),
            2 => Some(ConnackReturnCode::IdentifierRejected),
            3 => Some(ConnackReturnCode::ServerUnavailable),
            4 => Some(ConnackReturnCode::BadUsernameOrPassword),
            5 => Some(ConnackReturnCode::NotAuthorized),
            _ => None,
        }
    }

    /// The MQTT 5.0 reason code.
    pub fn to_v5_reason(self) -> (r: u8)
        ensures
            r == v5_reason(self),
    {
        match self {
            ConnackReturnCode::Accepted => 0x00,
            ConnackReturnCode::UnacceptableProtocolVersion => 0x84,
            ConnackReturnCode::IdentifierRejected => 0x85,
            ConnackReturnCode::ServerUnavailable => 0x88,
            ConnackReturnCode::BadUsernameOrPassword => 0x86,
            ConnackReturnCode::NotAuthorized => 0x87,
        }
    }

    /// Reads an MQTT 5.0 reason code.
    pub fn from_v5_reason(code: u8) -> (r: Result<ConnackReturnCode, ()>)
        ensures
            r == from_v5(code),
    {
        match code {
            0x00 => Ok(ConnackReturnCode::Accepted),
            0x84 => Ok(ConnackReturnCode::UnacceptableProtocolVersion),
            0x85 => Ok(ConnackReturnCode::IdentifierRejected),
            0x86 => Ok(ConnackReturnCode::BadUsernameOrPassword),
            0x87 | 0x9C | 0x9D => Ok(ConnackReturnCode::NotAuthorized),
            0x80..=0xFF => Ok(ConnackReturnCode::ServerUnavailable),
            _ => Err(()),
        }
    }

    /// The code in words.
    pub fn text(self) -> (r: &'static str)
        ensures
            r@ == (match self {
                ConnackReturnCode::Accepted => "Accepted"@,
                ConnackReturnCode::UnacceptableProtocolVersion => "Unacceptable Protocol Version"@,
                ConnackReturnCode::IdentifierRejected => "Identifier Rejected"@,
                ConnackReturnCode::ServerUnavailable => "Server Unavailable"@,
                ConnackReturnCode::BadUsernameOrPassword => "Bad Username or Password"@,
                ConnackReturnCode::NotAuthorized => "Not Authorized"@,
            }),
    {
        match self {
            ConnackReturnCode::Accepted => "Accepted",
            ConnackReturnCode::UnacceptableProtocolVersion => "Unacceptable Protocol Version",
            ConnackReturnCode::IdentifierRejected => "Identifier Rejected",
            ConnackReturnCode::ServerUnavailable => "Server Unavailable",
            ConnackReturnCode::BadUsernameOrPassword => "Bad Username or Password",
            ConnackReturnCode::NotAuthorized => "Not Authorized",
        }
    }
}

/// A return code survives both of its encodings.
pub proof fn law_return_code_round_trip(c: ConnackReturnCode, v: u8)
    ensures
        return_code_from_byte(return_code_byte(c)) == Some(c),
        return_code_from_byte(v) matches Some(d) ==> return_code_byte(d) == v,
        from_v5(v5_reason(c)) == Ok::<ConnackReturnCode, ()>(c),
{
}

// ----------------------------------------------------------------------------
// Wire packet to handler value
// ----------------------------------------------------------------------------

/// What a handler receives of a wire PUBLISH.
pub fn incoming_from_packet(p: &PublishPacket) -> (r: IncomingPublish)
    ensures
        r@ == p@,
{
    IncomingPublish {
        topic: p.topic.clone(),
        payload: p.payload.clone(),
        qos: p.qos,
        retain: p.retain,
        dup: p.dup,
        packet_id: p.packet_id,
        properties: p.properties.clone(),
    }
}

/// The reasons by which a later version of the protocol refuses a client, by number. A
/// number from 128 on is a refusal, whatever it says; one below that other than 0 says
/// nothing of a connection.
pub proof fn law_later_reasons(v: u8)
    ensures
        v5_reason(ConnackReturnCode::Accepted) == 0,
        v5_reason(ConnackReturnCode::UnacceptableProtocolVersion) == 0x84,
        v5_reason(ConnackReturnCode::IdentifierRejected) == 0x85,
        v5_reason(ConnackReturnCode::BadUsernameOrPassword) == 0x86,
        v5_reason(ConnackReturnCode::NotAuthorized) == 0x87,
        v5_reason(ConnackReturnCode::ServerUnavailable) == 0x88,
        from_v5(v) is Err <==> 0 < v < 0x80,
        from_v5(v) == Ok::<ConnackReturnCode, ()>(ConnackReturnCode::Accepted) <==> v == 0,
        from_v5(v) == Ok::<ConnackReturnCode, ()>(ConnackReturnCode::NotAuthorized) <==> v == 0x87
            || v == 0x9C || v == 0x9D,
        v >= 0x80 && v != 0x84 && v != 0x85 && v != 0x86 && v != 0x87 && v != 0x9C && v != 0x9D
            ==> from_v5(v) == Ok::<ConnackReturnCode, ()>(ConnackReturnCode::ServerUnavailable),
{
}

/// The levels of the protocol: 4 and 5 stand for a version, and no other number does.
pub proof fn law_protocol_levels(level: u8)
    ensures
        version_of_level(level) is Some <==> level == 4 || level == 5,
        version_of_level(4) == Some(ProtocolVersion::V311),
        version_of_level(5) == Some(ProtocolVersion::V5),
{
}

} // verus!
