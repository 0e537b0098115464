//! Request and response types, and the data types they share.
use crate::buffer;
use crate::buffer::bytes_slice;
use crate::properties::Properties;
use crate::text::shared;
use bytes::Bytes;
use std::cmp::Ordering;
use std::sync::Arc;
use vstd::prelude::*;

verus! {

/// Quality of service.
#[derive(Debug, Clone, Copy, PartialEq, Eq, Ord, Structural)]
pub enum QoS {
    AtMostOnce,
    AtLeastOnce,
    ExactlyOnce,
}

/// The level's number on the wire.
pub open spec fn qos_level(q: QoS) -> u8 {
    match q {
        QoS::AtMostOnce => 0,
        QoS::AtLeastOnce => 1,
        QoS::ExactlyOnce => 2,
    }
}

/// The level with a number, if there is one.
pub open spec fn qos_from_level(v: u8) -> Option<QoS> {
    if v == 0 {
        Some(QoS::AtMostOnce)
    } else if v == 1 {
        Some(QoS::AtLeastOnce)
    } else if v == 2 {
        Some(QoS::ExactlyOnce)
    } else {
        None
    }
}

/// The lower of two levels.
pub open spec fn qos_min(a: QoS, b: QoS) -> QoS {
    if qos_level(a) <= qos_level(b) {
        a
    } else {
        b
    }
}

impl QoS {
    pub fn as_u8(self) -> (r: u8)
        ensures
            r == qos_level(self),
    {
        match self {
            QoS::AtMostOnce => 0,
            QoS::AtLeastOnce => 1,
            QoS::ExactlyOnce => 2,
        }
    }

    pub fn from_u8(v: u8) -> (r: Option<QoS>)
        ensures
            r == qos_from_level(v),
    {
        match v {
            0 => Some(QoS::AtMostOnce),
            1 => Some(QoS::AtLeastOnce),
            2 => Some(QoS::ExactlyOnce),
            _ => None,
        }
    }

    /// The lower of two levels.
    pub fn lower(self, other: QoS) -> (r: QoS)
        ensures
            r == qos_min(self, other),
    {
        if self.as_u8() <= other.as_u8() {
            self
        } else {
            other
        }
    }
}

/// How two levels compare: as their numbers do.
pub open spec fn qos_order(a: QoS, b: QoS) -> Option<Ordering> {
    if qos_level(a) < qos_level(b) {
        Some(Ordering::Less)
    } else if qos_level(a) == qos_level(b) {
        Some(Ordering::Equal)
    } else {
        Some(Ordering::Greater)
    }
}

impl PartialOrd for QoS {
    fn partial_cmp(&self, other: &QoS) -> (r: Option<Ordering>) {
        let a: u8 = self.as_u8();
        let b: u8 = other.as_u8();
        if a < b {
            Some(Ordering::Less)
        } else if a == b {
            Some(Ordering::Equal)
        } else {
            Some(Ordering::Greater)
        }
    }
}

impl vstd::std_specs::cmp::PartialOrdSpecImpl for QoS {
    open spec fn obeys_partial_cmp_spec() -> bool {
        true
    }

    open spec fn partial_cmp_spec(&self, other: &QoS) -> Option<Ordering> {
        qos_order(*self, *other)
    }
}

/// The levels are ordered as their numbers are: at most once, at least once, exactly
/// once. Two that compare equal are the same, and the lower of two has the lower
/// number.
pub proof fn law_qos_ordered(a: QoS, b: QoS)
    ensures
        qos_level(a) <= 2,
        qos_order(QoS::AtMostOnce, QoS::AtLeastOnce) == Some(Ordering::Less),
        qos_order(QoS::AtLeastOnce, QoS::ExactlyOnce) == Some(Ordering::Less),
        qos_order(a, b) == Some(Ordering::Less) <==> qos_level(a) < qos_level(b),
        qos_order(a, b) == Some(Ordering::Equal) <==> a == b,
        qos_order(a, b) == Some(Ordering::Greater) <==> qos_level(b) < qos_level(a),
        qos_min(a, b) == a || qos_min(a, b) == b,
        qos_level(qos_min(a, b)) == (if qos_level(a) <= qos_level(b) {
            qos_level(a)
        } else {
            qos_level(b)
        }),
{
}

/// Every level has its own number, and that number gives the level back.
pub proof fn law_qos_round_trip(q: QoS, v: u8)
    ensures
        qos_from_level(qos_level(q)) == Some(q),
        qos_from_level(v) matches Some(p) ==> qos_level(p) == v,
{
}

/// Packet identifier.
pub type PacketId = u16;

#[derive(Debug, Clone)]
pub enum MqttRequest {
    Publish(PublishRequest),
    Subscribe(Vec<TopicFilter>),
    Unsubscribe(Vec<Arc<str>>),
}

#[derive(Debug, Clone)]
pub enum MqttResponse {
    Published(PublishAck),
    Subscribed(Vec<SubackCode>),
    Unsubscribed,
}

/// What a caller gives to publish.
#[derive(Debug, Clone)]
pub struct PublishRequest {
    pub topic: Arc<str>,
    pub payload: Bytes,
    pub qos: QoS,
    pub retain: bool,
}

impl Default for PublishRequest {
    fn default() -> (r: PublishRequest)
        ensures
            (*r.topic)@ == Seq::<char>::empty(),
            buffer::bytes_of(r.payload) == Seq::<u8>::empty(),
            r.qos == QoS::AtMostOnce,
            !r.retain,
    {
        proof {
            reveal_strlit("");
            assert(""@ =~= Seq::<char>::empty());
        }
        PublishRequest {
            topic: shared(""),
            payload: Bytes::new(),
            qos: QoS::AtMostOnce,
            retain: false,
        }
    }
}

/// What a handler receives of an inbound PUBLISH.
#[derive(Debug)]
pub struct IncomingPublish {
    pub topic: Arc<str>,
    pub payload: Bytes,
    pub qos: QoS,
    pub retain: bool,
    pub dup: bool,
    pub packet_id: Option<PacketId>,
    pub properties: Properties,
}

impl Clone for IncomingPublish {
    fn clone(&self) -> (r: IncomingPublish)
        ensures
            r@ == self@,
    {
        IncomingPublish {
            topic: self.topic.clone(),
            payload: self.payload.clone(),
            qos: self.qos,
            retain: self.retain,
            dup: self.dup,
            packet_id: self.packet_id,
            properties: self.properties.clone(),
        }
    }
}

impl View for IncomingPublish {
    type V = crate::packet::PublishModel;

    open spec fn view(&self) -> crate::packet::PublishModel {
        crate::packet::PublishModel {
            topic: (*self.topic)@,
            payload: buffer::bytes_of(self.payload),
            dup: self.dup,
            qos: self.qos,
            retain: self.retain,
            packet_id: self.packet_id,
            properties: self.properties@,
        }
    }
}

impl IncomingPublish {
    pub fn topic(&self) -> (r: &str)
        ensures
            r@ == self@.topic,
    {
        &self.topic
    }

    pub fn payload(&self) -> (r: &[u8])
        ensures
            r@ == self@.payload,
    {
        bytes_slice(&self.payload)
    }
}

/// The outcome of a publish.
#[derive(Debug, Clone, Copy, PartialEq, Eq, Structural)]
pub enum PublishAck {
    /// QoS 0: handed to the transport.
    Sent,
    /// QoS 1: PUBACK arrived.
    Acknowledged(PacketId),
    /// QoS 2: PUBREC and PUBCOMP arrived.
    Completed(PacketId),
}

#[derive(Debug, Clone)]
pub struct TopicFilter {
    pub filter: Arc<str>,
    pub qos: QoS,
}

/// Filters with their levels, as texts.
pub open spec fn filters_of(v: Seq<TopicFilter>) -> Seq<(Seq<char>, QoS)> {
    Seq::new(v.len(), |i: int| ((*v[i].filter)@, v[i].qos))
}

impl TopicFilter {
    pub fn new(filter: &str, qos: QoS) -> (r: TopicFilter)
        ensures
            (*r.filter)@ == filter@,
            r.qos == qos,
    {
        TopicFilter { filter: shared(filter), qos }
    }
}

#[derive(Debug, Clone, Copy, PartialEq, Eq, Structural)]
pub enum SubackCode {
    Granted(QoS),
    Failure,
}

/// The code's byte on the wire.
pub open spec fn suback_byte(c: SubackCode) -> u8 {
    match c {
        SubackCode::Granted(q) => qos_level(q),
        SubackCode::Failure => 0x80,
    }
}

/// The code with a byte, if there is one.
pub open spec fn suback_from_byte(v: u8) -> Option<SubackCode> {
    if v == 0x80 {
        Some(SubackCode::Failure)
    } else {
        match qos_from_level(v) {
            Some(q) => Some(SubackCode::Granted(q)),
            None => None,
        }
    }
}

impl SubackCode {
    pub fn as_u8(self) -> (r: u8)
        ensures
            r == suback_byte(self),
    {
        match self {
            SubackCode::Granted(q) => q.as_u8(),
            SubackCode::Failure => 0x80,
        }
    }

    pub fn from_u8(v: u8) -> (r: Option<SubackCode>)
        ensures
            r == suback_from_byte(v),
    {
        match v {
            0 => Some(SubackCode::Granted(QoS::AtMostOnce)),
            1 => Some(SubackCode::Granted(QoS::AtLeastOnce)),
            2 => Some(SubackCode::Granted(QoS::ExactlyOnce)),
            0x80 => Some(SubackCode::Failure),
            _ => None,
        }
    }
}

/// Every SUBACK code has its own byte, and that byte gives the code back.
pub proof fn law_suback_round_trip(c: SubackCode, v: u8)
    ensures
        suback_from_byte(suback_byte(c)) == Some(c),
        suback_from_byte(v) matches Some(d) ==> suback_byte(d) == v,
{
}

/// User name and password of a CONNECT.
#[derive(Clone)]
pub struct Credentials {
    pub username: Arc<str>,
    pub password: Bytes,
}

impl Credentials {
    pub fn new(username: &str, password: Bytes) -> (r: Credentials)
        ensures
            (*r.username)@ == username@,
            r.password == password,
    {
        Credentials { username: shared(username), password }
    }
}

/// The message the broker publishes when its client is lost.
#[derive(Debug, Clone)]
pub struct WillMessage {
    pub topic: Arc<str>,
    pub payload: Bytes,
    pub qos: QoS,
    pub retain: bool,
}

/// A will as text and bytes.
#[verifier::ext_equal]
pub struct WillMessageModel {
    pub topic: Seq<char>,
    pub payload: Seq<u8>,
    pub qos: QoS,
    pub retain: bool,
}

impl View for WillMessage {
    type V = WillMessageModel;

    open spec fn view(&self) -> WillMessageModel {
        WillMessageModel {
            topic: (*self.topic)@,
            payload: buffer::bytes_of(self.payload),
            qos: self.qos,
            retain: self.retain,
        }
    }
}

impl WillMessage {
    pub fn new(topic: &str, payload: Bytes, qos: QoS, retain: bool) -> (r: WillMessage)
        ensures
            (*r.topic)@ == topic@,
            r.payload == payload,
            r.qos == qos,
            r.retain == retain,
    {
        WillMessage { topic: shared(topic), payload, qos, retain }
    }
}

/// The numbers of the levels are 0, 1 and 2, and no other number is one; the lower of
/// two levels is one of the two and not above either; and a refused filter is 128.
pub proof fn law_levels_by_number(a: QoS, b: QoS, v: u8)
    ensures
        qos_level(QoS::AtMostOnce) == 0,
        qos_level(QoS::AtLeastOnce) == 1,
        qos_level(QoS::ExactlyOnce) == 2,
        qos_from_level(v) is Some <==> v <= 2,
        v <= 2 ==> qos_level(qos_from_level(v)->0) == v,
        qos_min(a, b) == a || qos_min(a, b) == b,
        qos_level(qos_min(a, b)) <= qos_level(a),
        qos_level(qos_min(a, b)) <= qos_level(b),
        suback_byte(SubackCode::Failure) == 128,
        suback_byte(SubackCode::Granted(a)) == qos_level(a),
        suback_from_byte(v) is Some <==> v <= 2 || v == 128,
{
}

} // verus!
