//! MQTT 5.0 properties.
//!
//! A property block is a variable byte integer, the length, followed by pairs
//! of identifier and value. Every identifier but two may occur once. The checks
//! here are structural: a known identifier, a well-formed value, no forbidden
//! repetition.
use crate::buffer;
use crate::buffer::{bytes_slice, clone_opt_bytes};
use crate::error::{CodecError, MqttError, Violation};
use crate::text;
use crate::text::clone_opt;
use crate::wire;
use crate::wire::{
    end_of_vbi, put_all, put_u16, put_u32, read_arc_str, read_bytes, read_u16, read_u32, read_u8,
    read_vbi, write_bytes, write_str, write_vbi,
};
use bytes::Bytes;
use std::sync::Arc;
use vstd::prelude::*;
use vstd::utf8::*;

verus! {

// ----------------------------------------------------------------------------
// Identifiers
// ----------------------------------------------------------------------------
pub const PAYLOAD_FORMAT_INDICATOR: u8 = 0x01;
pub const MESSAGE_EXPIRY_INTERVAL: u8 = 0x02;
pub const CONTENT_TYPE: u8 = 0x03;
pub const RESPONSE_TOPIC: u8 = 0x08;
pub const CORRELATION_DATA: u8 = 0x09;
pub const SUBSCRIPTION_IDENTIFIER: u8 = 0x0B;
pub const SESSION_EXPIRY_INTERVAL: u8 = 0x11;
pub const ASSIGNED_CLIENT_IDENTIFIER: u8 = 0x12;
pub const SERVER_KEEP_ALIVE: u8 = 0x13;
pub const AUTHENTICATION_METHOD: u8 = 0x15;
pub const AUTHENTICATION_DATA: u8 = 0x16;
pub const REQUEST_PROBLEM_INFORMATION: u8 = 0x17;
pub const WILL_DELAY_INTERVAL: u8 = 0x18;
pub const REQUEST_RESPONSE_INFORMATION: u8 = 0x19;
pub const RESPONSE_INFORMATION: u8 = 0x1A;
pub const SERVER_REFERENCE: u8 = 0x1C;
pub const REASON_STRING: u8 = 0x1F;
pub const RECEIVE_MAXIMUM: u8 = 0x21;
pub const TOPIC_ALIAS_MAXIMUM: u8 = 0x22;
pub const TOPIC_ALIAS: u8 = 0x23;
pub const MAXIMUM_QOS: u8 = 0x24;
pub const RETAIN_AVAILABLE: u8 = 0x25;
pub const USER_PROPERTY: u8 = 0x26;
pub const MAXIMUM_PACKET_SIZE: u8 = 0x27;
pub const WILDCARD_SUBSCRIPTION_AVAILABLE: u8 = 0x28;
pub const SUBSCRIPTION_IDENTIFIER_AVAILABLE: u8 = 0x29;
pub const SHARED_SUBSCRIPTION_AVAILABLE: u8 = 0x2A;

/// How the value of a property that may occur once is written.
#[derive(Debug, Clone, Copy, PartialEq, Eq, Structural)]
pub enum PropKind {
    Byte,
    Two,
    Four,
    Text,
    Data,
}

/// The form of the value of a property that may occur once; none for the two
/// that may repeat and for identifiers that are not defined.
pub open spec fn single_kind(id: u8) -> Option<PropKind> {
    if id == PAYLOAD_FORMAT_INDICATOR || id == REQUEST_PROBLEM_INFORMATION || id == REQUEST_RESPONSE_INFORMATION || id == MAXIMUM_QOS || id == RETAIN_AVAILABLE || id == WILDCARD_SUBSCRIPTION_AVAILABLE || id == SUBSCRIPTION_IDENTIFIER_AVAILABLE || id == SHARED_SUBSCRIPTION_AVAILABLE {
        Some(PropKind::Byte)
    } else if id == SERVER_KEEP_ALIVE || id == RECEIVE_MAXIMUM || id == TOPIC_ALIAS_MAXIMUM || id == TOPIC_ALIAS {
        Some(PropKind::Two)
    } else if id == MESSAGE_EXPIRY_INTERVAL || id == SESSION_EXPIRY_INTERVAL || id == WILL_DELAY_INTERVAL || id == MAXIMUM_PACKET_SIZE {
        Some(PropKind::Four)
    } else if id == CONTENT_TYPE || id == RESPONSE_TOPIC || id == ASSIGNED_CLIENT_IDENTIFIER || id == AUTHENTICATION_METHOD || id == RESPONSE_INFORMATION || id == SERVER_REFERENCE || id == REASON_STRING {
        Some(PropKind::Text)
    } else if id == CORRELATION_DATA || id == AUTHENTICATION_DATA {
        Some(PropKind::Data)
    } else {
        None
    }
}

/// The form of a property's value.
pub fn kind_of(id: u8) -> (r: Option<PropKind>)
    ensures
        r == single_kind(id),
{
    match id {
        PAYLOAD_FORMAT_INDICATOR | REQUEST_PROBLEM_INFORMATION | REQUEST_RESPONSE_INFORMATION | MAXIMUM_QOS | RETAIN_AVAILABLE | WILDCARD_SUBSCRIPTION_AVAILABLE | SUBSCRIPTION_IDENTIFIER_AVAILABLE | SHARED_SUBSCRIPTION_AVAILABLE => Some(PropKind::Byte),
        SERVER_KEEP_ALIVE | RECEIVE_MAXIMUM | TOPIC_ALIAS_MAXIMUM | TOPIC_ALIAS => Some(PropKind::Two),
        MESSAGE_EXPIRY_INTERVAL | SESSION_EXPIRY_INTERVAL | WILL_DELAY_INTERVAL | MAXIMUM_PACKET_SIZE => Some(PropKind::Four),
        CONTENT_TYPE | RESPONSE_TOPIC | ASSIGNED_CLIENT_IDENTIFIER | AUTHENTICATION_METHOD | RESPONSE_INFORMATION | SERVER_REFERENCE | REASON_STRING => Some(PropKind::Text),
        CORRELATION_DATA | AUTHENTICATION_DATA => Some(PropKind::Data),
        _ => None,
    }
}

// ----------------------------------------------------------------------------
// Properties
// ----------------------------------------------------------------------------

/// A property block. The default is the empty block, which is written as the
/// single byte 0.
#[derive(Debug)]
pub struct Properties {
    pub payload_format_indicator: Option<u8>,
    pub message_expiry_interval: Option<u32>,
    pub content_type: Option<Arc<str>>,
    pub response_topic: Option<Arc<str>>,
    pub correlation_data: Option<Bytes>,
    /// May repeat; the value 0 is not allowed.
    pub subscription_identifiers: Vec<u32>,
    pub session_expiry_interval: Option<u32>,
    pub assigned_client_identifier: Option<Arc<str>>,
    pub server_keep_alive: Option<u16>,
    pub authentication_method: Option<Arc<str>>,
    pub authentication_data: Option<Bytes>,
    pub request_problem_information: Option<u8>,
    pub will_delay_interval: Option<u32>,
    pub request_response_information: Option<u8>,
    pub response_information: Option<Arc<str>>,
    pub server_reference: Option<Arc<str>>,
    pub reason_string: Option<Arc<str>>,
    pub receive_maximum: Option<u16>,
    pub topic_alias_maximum: Option<u16>,
    pub topic_alias: Option<u16>,
    pub maximum_qos: Option<u8>,
    pub retain_available: Option<u8>,
    /// May repeat; the order is kept.
    pub user_properties: Vec<(Arc<str>, Arc<str>)>,
    pub maximum_packet_size: Option<u32>,
    pub wildcard_subscription_available: Option<u8>,
    pub subscription_identifier_available: Option<u8>,
    pub shared_subscription_available: Option<u8>,
}

/// The value of a property that may occur once.
#[verifier::ext_equal]
pub enum PropValue {
    Byte(u8),
    Two(u16),
    Four(u32),
    Text(Seq<char>),
    Data(Seq<u8>),
}

/// A property block: the values of the properties that may occur once, by
/// identifier, and the lists of the two that may repeat.
#[verifier::ext_equal]
pub struct PropertiesModel {
    pub singles: Map<u8, PropValue>,
    pub subscription_identifiers: Seq<u32>,
    pub user_properties: Seq<(Seq<char>, Seq<char>)>,
}

pub open spec fn byte_value(v: Option<u8>) -> Option<PropValue> {
    match v {
        Some(x) => Some(PropValue::Byte(x)),
        None => None,
    }
}

pub open spec fn two_value(v: Option<u16>) -> Option<PropValue> {
    match v {
        Some(x) => Some(PropValue::Two(x)),
        None => None,
    }
}

pub open spec fn four_value(v: Option<u32>) -> Option<PropValue> {
    match v {
        Some(x) => Some(PropValue::Four(x)),
        None => None,
    }
}

pub open spec fn text_value(v: Option<Arc<str>>) -> Option<PropValue> {
    match v {
        Some(x) => Some(PropValue::Text((*x)@)),
        None => None,
    }
}

pub open spec fn data_value(v: Option<Bytes>) -> Option<PropValue> {
    match v {
        Some(x) => Some(PropValue::Data(buffer::bytes_of(x))),
        None => None,
    }
}

/// The value that a block has under an identifier.
pub open spec fn single(p: Properties, id: u8) -> Option<PropValue> {
    if id == PAYLOAD_FORMAT_INDICATOR {
        byte_value(p.payload_format_indicator)
    } else if id == MESSAGE_EXPIRY_INTERVAL {
        four_value(p.message_expiry_interval)
    } else if id == CONTENT_TYPE {
        text_value(p.content_type)
    } else if id == RESPONSE_TOPIC {
        text_value(p.response_topic)
    } else if id == CORRELATION_DATA {
        data_value(p.correlation_data)
    } else if id == SESSION_EXPIRY_INTERVAL {
        four_value(p.session_expiry_interval)
    } else if id == ASSIGNED_CLIENT_IDENTIFIER {
        text_value(p.assigned_client_identifier)
    } else if id == SERVER_KEEP_ALIVE {
        two_value(p.server_keep_alive)
    } else if id == AUTHENTICATION_METHOD {
        text_value(p.authentication_method)
    } else if id == AUTHENTICATION_DATA {
        data_value(p.authentication_data)
    } else if id == REQUEST_PROBLEM_INFORMATION {
        byte_value(p.request_problem_information)
    } else if id == WILL_DELAY_INTERVAL {
        four_value(p.will_delay_interval)
    } else if id == REQUEST_RESPONSE_INFORMATION {
        byte_value(p.request_response_information)
    } else if id == RESPONSE_INFORMATION {
        text_value(p.response_information)
    } else if id == SERVER_REFERENCE {
        text_value(p.server_reference)
    } else if id == REASON_STRING {
        text_value(p.reason_string)
    } else if id == RECEIVE_MAXIMUM {
        two_value(p.receive_maximum)
    } else if id == TOPIC_ALIAS_MAXIMUM {
        two_value(p.topic_alias_maximum)
    } else if id == TOPIC_ALIAS {
        two_value(p.topic_alias)
    } else if id == MAXIMUM_QOS {
        byte_value(p.maximum_qos)
    } else if id == RETAIN_AVAILABLE {
        byte_value(p.retain_available)
    } else if id == MAXIMUM_PACKET_SIZE {
        four_value(p.maximum_packet_size)
    } else if id == WILDCARD_SUBSCRIPTION_AVAILABLE {
        byte_value(p.wildcard_subscription_available)
    } else if id == SUBSCRIPTION_IDENTIFIER_AVAILABLE {
        byte_value(p.subscription_identifier_available)
    } else if id == SHARED_SUBSCRIPTION_AVAILABLE {
        byte_value(p.shared_subscription_available)
    } else {
        None
    }
}

/// The user properties as pairs of texts.
pub open spec fn pairs_of(v: Seq<(Arc<str>, Arc<str>)>) -> Seq<(Seq<char>, Seq<char>)> {
    Seq::new(v.len(), |i: int| ((*v[i].0)@, (*v[i].1)@))
}

impl View for Properties {
    type V = PropertiesModel;

    open spec fn view(&self) -> PropertiesModel {
        PropertiesModel {
            singles: Map::new(
                |id: u8| single(*self, id) is Some,
                |id: u8| single(*self, id)->0,
            ),
            subscription_identifiers: self.subscription_identifiers@,
            user_properties: pairs_of(self.user_properties@),
        }
    }
}

/// The block without properties.
pub open spec fn no_properties() -> PropertiesModel {
    PropertiesModel {
        singles: Map::empty(),
        subscription_identifiers: Seq::empty(),
        user_properties: Seq::empty(),
    }
}

/// The block with one value more.
pub open spec fn with_single(m: PropertiesModel, id: u8, v: PropValue) -> PropertiesModel {
    PropertiesModel { singles: m.singles.insert(id, v), ..m }
}

impl Default for Properties {
    fn default() -> (r: Properties)
        ensures
            r@ == no_properties(),
    {
        let r = Properties {
            payload_format_indicator: None,
            message_expiry_interval: None,
            content_type: None,
            response_topic: None,
            correlation_data: None,
            subscription_identifiers: Vec::new(),
            session_expiry_interval: None,
            assigned_client_identifier: None,
            server_keep_alive: None,
            authentication_method: None,
            authentication_data: None,
            request_problem_information: None,
            will_delay_interval: None,
            request_response_information: None,
            response_information: None,
            server_reference: None,
            reason_string: None,
            receive_maximum: None,
            topic_alias_maximum: None,
            topic_alias: None,
            maximum_qos: None,
            retain_available: None,
            user_properties: Vec::new(),
            maximum_packet_size: None,
            wildcard_subscription_available: None,
            subscription_identifier_available: None,
            shared_subscription_available: None,
        };
        assert(r@ =~= no_properties());
        r
    }
}

impl Clone for Properties {
    fn clone(&self) -> (r: Properties)
        ensures
            r@ == self@,
    {
        let mut ids: Vec<u32> = Vec::new();
        let mut i: usize = 0;
        while i < self.subscription_identifiers.len()
            invariant
                i <= self.subscription_identifiers@.len(),
                ids@ == self.subscription_identifiers@.subrange(0, i as int),
            decreases self.subscription_identifiers@.len() - i,
        {
            ids.push(self.subscription_identifiers[i]);
            i += 1;
            assert(ids@ =~= self.subscription_identifiers@.subrange(0, i as int));
        }
        let mut pairs: Vec<(Arc<str>, Arc<str>)> = Vec::new();
        let mut j: usize = 0;
        while j < self.user_properties.len()
            invariant
                j <= self.user_properties@.len(),
                pairs@ == self.user_properties@.subrange(0, j as int),
            decreases self.user_properties@.len() - j,
        {
            let pair = &self.user_properties[j];
            pairs.push((pair.0.clone(), pair.1.clone()));
            j += 1;
            assert(pairs@ =~= self.user_properties@.subrange(0, j as int));
        }
        let r = Properties {
            payload_format_indicator: self.payload_format_indicator,
            message_expiry_interval: self.message_expiry_interval,
            content_type: clone_opt(&self.content_type),
            response_topic: clone_opt(&self.response_topic),
            correlation_data: clone_opt_bytes(&self.correlation_data),
            subscription_identifiers: ids,
            session_expiry_interval: self.session_expiry_interval,
            assigned_client_identifier: clone_opt(&self.assigned_client_identifier),
            server_keep_alive: self.server_keep_alive,
            authentication_method: clone_opt(&self.authentication_method),
            authentication_data: clone_opt_bytes(&self.authentication_data),
            request_problem_information: self.request_problem_information,
            will_delay_interval: self.will_delay_interval,
            request_response_information: self.request_response_information,
            response_information: clone_opt(&self.response_information),
            server_reference: clone_opt(&self.server_reference),
            reason_string: clone_opt(&self.reason_string),
            receive_maximum: self.receive_maximum,
            topic_alias_maximum: self.topic_alias_maximum,
            topic_alias: self.topic_alias,
            maximum_qos: self.maximum_qos,
            retain_available: self.retain_available,
            user_properties: pairs,
            maximum_packet_size: self.maximum_packet_size,
            wildcard_subscription_available: self.wildcard_subscription_available,
            subscription_identifier_available: self.subscription_identifier_available,
            shared_subscription_available: self.shared_subscription_available,
        };
        proof {
            assert(ids@ =~= self.subscription_identifiers@);
            assert(pairs@ =~= self.user_properties@);
            assert forall|id: u8| single(r, id) == single(*self, id) by {}
            assert(r@.singles =~= self@.singles);
        }
        r
    }
}

/// A value of a property that may occur once.
pub enum PropRef<'a> {
    Byte(u8),
    Two(u16),
    Four(u32),
    Text(&'a Arc<str>),
    Data(&'a Bytes),
}

pub open spec fn ref_value(r: PropRef) -> PropValue {
    match r {
        PropRef::Byte(v) => PropValue::Byte(v),
        PropRef::Two(v) => PropValue::Two(v),
        PropRef::Four(v) => PropValue::Four(v),
        PropRef::Text(v) => PropValue::Text((**v)@),
        PropRef::Data(v) => PropValue::Data(buffer::bytes_of(*v)),
    }
}

pub open spec fn opt_ref_value(r: Option<PropRef>) -> Option<PropValue> {
    match r {
        Some(v) => Some(ref_value(v)),
        None => None,
    }
}

fn byte_ref<'a>(v: Option<u8>) -> (r: Option<PropRef<'a>>)
    ensures
        opt_ref_value(r) == byte_value(v),
{
    match v {
        Some(x) => Some(PropRef::Byte(x)),
        None => None,
    }
}

fn two_ref<'a>(v: Option<u16>) -> (r: Option<PropRef<'a>>)
    ensures
        opt_ref_value(r) == two_value(v),
{
    match v {
        Some(x) => Some(PropRef::Two(x)),
        None => None,
    }
}

fn four_ref<'a>(v: Option<u32>) -> (r: Option<PropRef<'a>>)
    ensures
        opt_ref_value(r) == four_value(v),
{
    match v {
        Some(x) => Some(PropRef::Four(x)),
        None => None,
    }
}

fn text_ref<'a>(v: &'a Option<Arc<str>>) -> (r: Option<PropRef<'a>>)
    ensures
        opt_ref_value(r) == text_value(*v),
{
    match v {
        Some(x) => Some(PropRef::Text(x)),
        None => None,
    }
}

fn data_ref<'a>(v: &'a Option<Bytes>) -> (r: Option<PropRef<'a>>)
    ensures
        opt_ref_value(r) == data_value(*v),
{
    match v {
        Some(x) => Some(PropRef::Data(x)),
        None => None,
    }
}

impl Properties {
    /// The value under an identifier, for a property that may occur once.
    pub fn get<'a>(&'a self, id: u8) -> (r: Option<PropRef<'a>>)
        ensures
            opt_ref_value(r) == single(*self, id),
            r is Some <==> self@.singles.contains_key(id),
    {
        match id {
            PAYLOAD_FORMAT_INDICATOR => byte_ref(self.payload_format_indicator),
            MESSAGE_EXPIRY_INTERVAL => four_ref(self.message_expiry_interval),
            CONTENT_TYPE => text_ref(&self.content_type),
            RESPONSE_TOPIC => text_ref(&self.response_topic),
            CORRELATION_DATA => data_ref(&self.correlation_data),
            SESSION_EXPIRY_INTERVAL => four_ref(self.session_expiry_interval),
            ASSIGNED_CLIENT_IDENTIFIER => text_ref(&self.assigned_client_identifier),
            SERVER_KEEP_ALIVE => two_ref(self.server_keep_alive),
            AUTHENTICATION_METHOD => text_ref(&self.authentication_method),
            AUTHENTICATION_DATA => data_ref(&self.authentication_data),
            REQUEST_PROBLEM_INFORMATION => byte_ref(self.request_problem_information),
            WILL_DELAY_INTERVAL => four_ref(self.will_delay_interval),
            REQUEST_RESPONSE_INFORMATION => byte_ref(self.request_response_information),
            RESPONSE_INFORMATION => text_ref(&self.response_information),
            SERVER_REFERENCE => text_ref(&self.server_reference),
            REASON_STRING => text_ref(&self.reason_string),
            RECEIVE_MAXIMUM => two_ref(self.receive_maximum),
            TOPIC_ALIAS_MAXIMUM => two_ref(self.topic_alias_maximum),
            TOPIC_ALIAS => two_ref(self.topic_alias),
            MAXIMUM_QOS => byte_ref(self.maximum_qos),
            RETAIN_AVAILABLE => byte_ref(self.retain_available),
            MAXIMUM_PACKET_SIZE => four_ref(self.maximum_packet_size),
            WILDCARD_SUBSCRIPTION_AVAILABLE => byte_ref(self.wildcard_subscription_available),
            SUBSCRIPTION_IDENTIFIER_AVAILABLE => byte_ref(self.subscription_identifier_available),
            SHARED_SUBSCRIPTION_AVAILABLE => byte_ref(self.shared_subscription_available),
            _ => None,
        }
    }

    fn set_byte(&mut self, id: u8, v: u8)
        requires
            single_kind(id) == Some(PropKind::Byte),
        ensures
            final(self)@ == with_single(old(self)@, id, PropValue::Byte(v)),
    {
        match id {
            PAYLOAD_FORMAT_INDICATOR => self.payload_format_indicator = Some(v),
            REQUEST_PROBLEM_INFORMATION => self.request_problem_information = Some(v),
            REQUEST_RESPONSE_INFORMATION => self.request_response_information = Some(v),
            MAXIMUM_QOS => self.maximum_qos = Some(v),
            RETAIN_AVAILABLE => self.retain_available = Some(v),
            WILDCARD_SUBSCRIPTION_AVAILABLE => self.wildcard_subscription_available = Some(v),
            SUBSCRIPTION_IDENTIFIER_AVAILABLE => self.subscription_identifier_available = Some(v),
            _ => self.shared_subscription_available = Some(v),
        }
        proof {
            assert forall|k: u8| single(*self, k) == (if k == id {
                Some(PropValue::Byte(v))
            } else {
                single(*old(self), k)
            }) by {}
            assert(self@.singles =~= old(self)@.singles.insert(id, PropValue::Byte(v)));
        }
    }

    fn set_two(&mut self, id: u8, v: u16)
        requires
            single_kind(id) == Some(PropKind::Two),
        ensures
            final(self)@ == with_single(old(self)@, id, PropValue::Two(v)),
    {
        match id {
            SERVER_KEEP_ALIVE => self.server_keep_alive = Some(v),
            RECEIVE_MAXIMUM => self.receive_maximum = Some(v),
            TOPIC_ALIAS_MAXIMUM => self.topic_alias_maximum = Some(v),
            _ => self.topic_alias = Some(v),
        }
        proof {
            assert forall|k: u8| single(*self, k) == (if k == id {
                Some(PropValue::Two(v))
            } else {
                single(*old(self), k)
            }) by {}
            assert(self@.singles =~= old(self)@.singles.insert(id, PropValue::Two(v)));
        }
    }

    fn set_four(&mut self, id: u8, v: u32)
        requires
            single_kind(id) == Some(PropKind::Four),
        ensures
            final(self)@ == with_single(old(self)@, id, PropValue::Four(v)),
    {
        match id {
            MESSAGE_EXPIRY_INTERVAL => self.message_expiry_interval = Some(v),
            SESSION_EXPIRY_INTERVAL => self.session_expiry_interval = Some(v),
            WILL_DELAY_INTERVAL => self.will_delay_interval = Some(v),
            _ => self.maximum_packet_size = Some(v),
        }
        proof {
            assert forall|k: u8| single(*self, k) == (if k == id {
                Some(PropValue::Four(v))
            } else {
                single(*old(self), k)
            }) by {}
            assert(self@.singles =~= old(self)@.singles.insert(id, PropValue::Four(v)));
        }
    }

    fn set_text(&mut self, id: u8, v: Arc<str>)
        requires
            single_kind(id) == Some(PropKind::Text),
        ensures
            final(self)@ == with_single(old(self)@, id, PropValue::Text((*v)@)),
    {
        match id {
            CONTENT_TYPE => self.content_type = Some(v),
            RESPONSE_TOPIC => self.response_topic = Some(v),
            ASSIGNED_CLIENT_IDENTIFIER => self.assigned_client_identifier = Some(v),
            AUTHENTICATION_METHOD => self.authentication_method = Some(v),
            RESPONSE_INFORMATION => self.response_information = Some(v),
            SERVER_REFERENCE => self.server_reference = Some(v),
            _ => self.reason_string = Some(v),
        }
        proof {
            assert forall|k: u8| single(*self, k) == (if k == id {
                Some(PropValue::Text((*v)@))
            } else {
                single(*old(self), k)
            }) by {}
            assert(self@.singles =~= old(self)@.singles.insert(id, PropValue::Text((*v)@)));
        }
    }

    fn set_data(&mut self, id: u8, v: Bytes)
        requires
            single_kind(id) == Some(PropKind::Data),
        ensures
            final(self)@ == with_single(old(self)@, id, PropValue::Data(buffer::bytes_of(v))),
    {
        match id {
            CORRELATION_DATA => self.correlation_data = Some(v),
            _ => self.authentication_data = Some(v),
        }
        proof {
            assert forall|k: u8| single(*self, k) == (if k == id {
                Some(PropValue::Data(buffer::bytes_of(v)))
            } else {
                single(*old(self), k)
            }) by {}
            assert(self@.singles =~= old(self)@.singles.insert(id, PropValue::Data(buffer::bytes_of(v))));
        }
    }

}

// ----------------------------------------------------------------------------
// Reading
// ----------------------------------------------------------------------------

/// The value read at a position, in a given form.
pub open spec fn value_at(b: Seq<u8>, at: int, kind: PropKind) -> wire::Read<PropValue> {
    match kind {
        PropKind::Byte => match wire::u8_at(b, at) {
            Ok((v, p)) => Ok((PropValue::Byte(v), p)),
            Err(e) => Err(e),
        },
        PropKind::Two => match wire::u16_at(b, at) {
            Ok((v, p)) => Ok((PropValue::Two(v), p)),
            Err(e) => Err(e),
        },
        PropKind::Four => match wire::u32_at(b, at) {
            Ok((v, p)) => Ok((PropValue::Four(v), p)),
            Err(e) => Err(e),
        },
        PropKind::Text => match wire::text_at(b, at) {
            Ok((v, p)) => Ok((PropValue::Text(v), p)),
            Err(e) => Err(e),
        },
        PropKind::Data => match wire::field_at(b, at) {
            Ok((v, p)) => Ok((PropValue::Data(v), p)),
            Err(e) => Err(e),
        },
    }
}

/// One property read at a position where a property starts, added to the block
/// so far.
pub open spec fn item_at(b: Seq<u8>, at: int, m: PropertiesModel) -> wire::Read<PropertiesModel> {
    let id = b[at];
    if id == SUBSCRIPTION_IDENTIFIER {
        match wire::vbi_at(b, at + 1, 4) {
            Err(e) => Err(e),
            Ok((n, p)) => if n == 0 {
                Err(MqttError::Protocol(Violation::MalformedProperty(id)))
            } else {
                Ok(
                    (
                        PropertiesModel {
                            subscription_identifiers: m.subscription_identifiers.push(n as u32),
                            ..m
                        },
                        p,
                    ),
                )
            },
        }
    } else if id == USER_PROPERTY {
        match wire::text_at(b, at + 1) {
            Err(e) => Err(e),
            Ok((k, p)) => match wire::text_at(b, p) {
                Err(e) => Err(e),
                Ok((v, q)) => Ok(
                    (PropertiesModel { user_properties: m.user_properties.push((k, v)), ..m }, q),
                ),
            },
        }
    } else if m.singles.contains_key(id) {
        Err(MqttError::Protocol(Violation::DuplicateProperty(id)))
    } else {
        match single_kind(id) {
            None => Err(MqttError::Protocol(Violation::UnknownProperty(id))),
            Some(kind) => match value_at(b, at + 1, kind) {
                Err(e) => Err(e),
                Ok((v, p)) => Ok((with_single(m, id, v), p)),
            },
        }
    }
}

/// Where the reading of a value stops, whether it is read or not.
pub open spec fn value_stop(b: Seq<u8>, at: int, kind: PropKind) -> int {
    match kind {
        PropKind::Byte => if at >= b.len() {
            at
        } else {
            at + 1
        },
        PropKind::Two => if at + 2 > b.len() {
            at
        } else {
            at + 2
        },
        PropKind::Four => if at + 4 > b.len() {
            at
        } else {
            at + 4
        },
        PropKind::Text => wire::field_stop(b, at, wire::text_at(b, at)),
        PropKind::Data => wire::field_stop(b, at, wire::field_at(b, at)),
    }
}

/// Where the reading of one property stops: a property that is not to be read stops
/// it behind its identifier.
pub open spec fn item_stop(b: Seq<u8>, at: int, m: PropertiesModel) -> int {
    let id = b[at];
    if id == SUBSCRIPTION_IDENTIFIER {
        wire::vbi_stop(b, at + 1, 4)
    } else if id == USER_PROPERTY {
        match wire::text_at(b, at + 1) {
            Err(_) => value_stop(b, at + 1, PropKind::Text),
            Ok((_, p)) => value_stop(b, p, PropKind::Text),
        }
    } else if m.singles.contains_key(id) {
        at + 1
    } else {
        match single_kind(id) {
            None => at + 1,
            Some(kind) => value_stop(b, at + 1, kind),
        }
    }
}

/// A value that is read lies behind the position where it was read.
pub proof fn lemma_vbi_progress(b: Seq<u8>, at: int, left: nat)
    ensures
        wire::vbi_at(b, at, left) matches Ok((n, p)) ==> p > at,
        wire::vbi_at(b, at, left) matches Ok((n, p)) ==> 0 <= at ==> p <= b.len(),
    decreases left,
{
    if at < b.len() && b[at] >= 128 && left > 1 {
        lemma_vbi_progress(b, at + 1, (left - 1) as nat);
    }
}

/// The reading of a number that is read stops behind it.
proof fn lemma_vbi_stop(b: Seq<u8>, at: int, left: nat)
    ensures
        wire::vbi_at(b, at, left) matches Ok((_, p)) ==> wire::vbi_stop(b, at, left) == p,
    decreases left,
{
    if at < b.len() && b[at] >= 128 && left > 1 {
        lemma_vbi_stop(b, at + 1, (left - 1) as nat);
    }
}

/// All properties from a position up to the end of the block, added to the block
/// so far.
pub open spec fn items_at(b: Seq<u8>, at: int, end: int, m: PropertiesModel) -> Result<
    PropertiesModel,
    MqttError,
>
    decreases
            if end > at {
                end - at
            } else {
                0
            },
{
    if at > end {
        Err(MqttError::Codec(CodecError::MalformedLength))
    } else if at == end {
        Ok(m)
    } else {
        match item_at(b, at, m) {
            Err(e) => Err(e),
            Ok((m2, p)) => if p <= at {
                Err(MqttError::Codec(CodecError::MalformedLength))
            } else {
                items_at(b, p, end, m2)
            },
        }
    }
}

/// The property block at a position.
pub open spec fn block_at(b: Seq<u8>, at: int) -> wire::Read<PropertiesModel> {
    match wire::vbi_at(b, at, 4) {
        Err(e) => Err(e),
        Ok((n, p)) => if p + n > usize::MAX {
            Err(MqttError::Codec(CodecError::MalformedLength))
        } else if p + n > b.len() {
            wire::eof()
        } else {
            match items_at(b, p, p + n, no_properties()) {
                Ok(m) => Ok((m, p + n)),
                Err(e) => Err(e),
            }
        },
    }
}

/// Where the reading of the properties of a block stops.
pub open spec fn items_stop(b: Seq<u8>, at: int, end: int, m: PropertiesModel) -> int
    decreases
            if end > at {
                end - at
            } else {
                0
            },
{
    if at >= end {
        at
    } else {
        match item_at(b, at, m) {
            Err(_) => item_stop(b, at, m),
            Ok((m2, p)) => if p <= at {
                at
            } else {
                items_stop(b, p, end, m2)
            },
        }
    }
}

/// Where the reading of a property block stops: behind it, or where it failed.
pub open spec fn block_stop(b: Seq<u8>, at: int) -> int {
    match wire::vbi_at(b, at, 4) {
        Err(_) => wire::vbi_stop(b, at, 4),
        Ok((n, p)) => if p + n > b.len() {
            p
        } else {
            items_stop(b, p, p + n, no_properties())
        },
    }
}

/// Where the reading of a text or of data stops that could not be read.
fn end_of_length(body: &[u8], at: usize) -> (r: usize)
    requires
        at <= body@.len(),
    ensures
        r == (if at + 2 > body@.len() {
            at as int
        } else {
            at + 2
        }),
{
    if body.len() - at < 2 {
        at
    } else {
        at + 2
    }
}

impl Properties {
    /// Reads one property at `cursor`, adds it and moves the cursor to where the
    /// reading stopped.
    fn parse_item(&mut self, body: &[u8], cursor: &mut usize) -> (r: Result<(), MqttError>)
        requires
            *old(cursor) < body@.len(),
        ensures
            match item_at(body@, *old(cursor) as int, old(self)@) {
                Ok((m, p)) => r is Ok && *final(cursor) == p && final(self)@ == m,
                Err(e) => r == Err::<(), MqttError>(e),
            },
            *final(cursor) == item_stop(body@, *old(cursor) as int, old(self)@),
            *old(cursor) < *final(cursor) <= body@.len(),
    {
        let pid: u8 = body[*cursor];
        let at: usize = *cursor + 1;
        *cursor = at;
        if pid == SUBSCRIPTION_IDENTIFIER {
            proof {
                lemma_vbi_stop(body@, at as int, 4);
            }
            *cursor = end_of_vbi(body, at, 4);
            return match read_vbi(body, at) {
                Err(e) => Err(e),
                Ok((v, _)) => {
                    if v == 0 {
                        return Err(MqttError::Protocol(Violation::MalformedProperty(pid)));
                    }
                    self.subscription_identifiers.push(v as u32);
                    proof {
                        assert forall|k: u8| single(*self, k) == single(*old(self), k) by {}
                        assert(self@.singles =~= old(self)@.singles);
                    }
                    Ok(())
                },
            };
        }
        if pid == USER_PROPERTY {
            return match read_arc_str(body, at) {
                Err(e) => {
                    *cursor = end_of_length(body, at);
                    Err(e)
                },
                Ok((k, p)) => match read_arc_str(body, p) {
                    Err(e) => {
                        *cursor = end_of_length(body, p);
                        Err(e)
                    },
                    Ok((v, q)) => {
                        *cursor = q;
                        self.user_properties.push((k, v));
                        proof {
                            assert forall|k: u8| single(*self, k) == single(*old(self), k) by {}
                            assert(self@.singles =~= old(self)@.singles);
                            assert(self@.user_properties =~= old(self)@.user_properties.push(
                                ((*k)@, (*v)@),
                            ));
                        }
                        Ok(())
                    },
                },
            };
        }
        if self.get(pid).is_some() {
            return Err(MqttError::Protocol(Violation::DuplicateProperty(pid)));
        }
        match kind_of(pid) {
            None => Err(MqttError::Protocol(Violation::UnknownProperty(pid))),
            Some(PropKind::Byte) => match read_u8(body, at) {
                Err(e) => Err(e),
                Ok((v, p)) => {
                    *cursor = p;
                    self.set_byte(pid, v);
                    Ok(())
                },
            },
            Some(PropKind::Two) => match read_u16(body, at) {
                Err(e) => Err(e),
                Ok((v, p)) => {
                    *cursor = p;
                    self.set_two(pid, v);
                    Ok(())
                },
            },
            Some(PropKind::Four) => match read_u32(body, at) {
                Err(e) => Err(e),
                Ok((v, p)) => {
                    *cursor = p;
                    self.set_four(pid, v);
                    Ok(())
                },
            },
            Some(PropKind::Text) => match read_arc_str(body, at) {
                Err(e) => {
                    *cursor = end_of_length(body, at);
                    Err(e)
                },
                Ok((v, p)) => {
                    *cursor = p;
                    self.set_text(pid, v);
                    Ok(())
                },
            },
            Some(PropKind::Data) => match read_bytes(body, at) {
                Err(e) => {
                    *cursor = end_of_length(body, at);
                    Err(e)
                },
                Ok((v, p)) => {
                    *cursor = p;
                    self.set_data(pid, v);
                    Ok(())
                },
            },
        }
    }

    /// Reads one property block at `cursor` and moves the cursor behind it, or to
    /// where the reading failed.
    pub fn parse(body: &[u8], cursor: &mut usize) -> (r: Result<Properties, MqttError>)
        ensures
            match block_at(body@, *old(cursor) as int) {
                Ok((m, p)) => r is Ok && r->Ok_0@ == m && *final(cursor) == p,
                Err(e) => r is Err && r->Err_0 == e,
            },
            *final(cursor) == block_stop(body@, *old(cursor) as int),
    {
        let start: usize = *cursor;
        if start >= body.len() {
            return Err(MqttError::Codec(CodecError::UnexpectedEof));
        }
        proof {
            lemma_vbi_stop(body@, start as int, 4);
        }
        *cursor = end_of_vbi(body, start, 4);
        match read_vbi(body, start) {
            Err(e) => Err(e),
            Ok((n, first)) => {
                if n > usize::MAX - first {
                    return Err(MqttError::Codec(CodecError::MalformedLength));
                }
                let end: usize = first + n;
                if end > body.len() {
                    return Err(MqttError::Codec(CodecError::UnexpectedEof));
                }
                let mut props = Properties::default();
                while *cursor < end
                    invariant
                        *cursor <= body@.len(),
                        end <= body@.len(),
                        items_at(body@, first as int, end as int, no_properties()) == items_at(
                            body@,
                            *cursor as int,
                            end as int,
                            props@,
                        ),
                        items_stop(body@, first as int, end as int, no_properties()) == items_stop(
                            body@,
                            *cursor as int,
                            end as int,
                            props@,
                        ),
                        block_at(body@, start as int) == (match items_at(
                            body@,
                            first as int,
                            end as int,
                            no_properties(),
                        ) {
                            Ok(m) => Ok((m, end as int)),
                            Err(e) => Err(e),
                        }),
                        block_stop(body@, start as int) == items_stop(
                            body@,
                            first as int,
                            end as int,
                            no_properties(),
                        ),
                        start == *old(cursor),
                    decreases body@.len() - *cursor,
                {
                    match props.parse_item(body, cursor) {
                        Err(e) => {
                            return Err(e);
                        },
                        Ok(()) => {},
                    }
                }
                if *cursor != end {
                    return Err(MqttError::Codec(CodecError::MalformedLength));
                }
                Ok(props)
            },
        }
    }
}

// ----------------------------------------------------------------------------
// Writing
// ----------------------------------------------------------------------------

/// The identifiers in the order in which they are written.
pub open spec fn written_order() -> Seq<u8> {
    seq![
        PAYLOAD_FORMAT_INDICATOR,
        MESSAGE_EXPIRY_INTERVAL,
        CONTENT_TYPE,
        RESPONSE_TOPIC,
        CORRELATION_DATA,
        SUBSCRIPTION_IDENTIFIER,
        SESSION_EXPIRY_INTERVAL,
        ASSIGNED_CLIENT_IDENTIFIER,
        SERVER_KEEP_ALIVE,
        AUTHENTICATION_METHOD,
        AUTHENTICATION_DATA,
        REQUEST_PROBLEM_INFORMATION,
        WILL_DELAY_INTERVAL,
        REQUEST_RESPONSE_INFORMATION,
        RESPONSE_INFORMATION,
        SERVER_REFERENCE,
        REASON_STRING,
        RECEIVE_MAXIMUM,
        TOPIC_ALIAS_MAXIMUM,
        TOPIC_ALIAS,
        MAXIMUM_QOS,
        RETAIN_AVAILABLE,
        USER_PROPERTY,
        MAXIMUM_PACKET_SIZE,
        WILDCARD_SUBSCRIPTION_AVAILABLE,
        SUBSCRIPTION_IDENTIFIER_AVAILABLE,
        SHARED_SUBSCRIPTION_AVAILABLE,
    ]
}

/// The name under which a property's text or data is reported when it is too
/// long.
pub open spec fn field_name(id: u8) -> &'static str {
    if id == CONTENT_TYPE {
        "prop.content_type"
    } else if id == RESPONSE_TOPIC {
        "prop.response_topic"
    } else if id == CORRELATION_DATA {
        "prop.correlation_data"
    } else if id == ASSIGNED_CLIENT_IDENTIFIER {
        "prop.assigned_client_identifier"
    } else if id == AUTHENTICATION_METHOD {
        "prop.authentication_method"
    } else if id == AUTHENTICATION_DATA {
        "prop.authentication_data"
    } else if id == RESPONSE_INFORMATION {
        "prop.response_information"
    } else if id == SERVER_REFERENCE {
        "prop.server_reference"
    } else {
        "prop.reason_string"
    }
}

fn name_of(id: u8) -> (r: &'static str)
    ensures
        r == field_name(id),
{
    match id {
        CONTENT_TYPE => "prop.content_type",
        RESPONSE_TOPIC => "prop.response_topic",
        CORRELATION_DATA => "prop.correlation_data",
        ASSIGNED_CLIENT_IDENTIFIER => "prop.assigned_client_identifier",
        AUTHENTICATION_METHOD => "prop.authentication_method",
        AUTHENTICATION_DATA => "prop.authentication_data",
        RESPONSE_INFORMATION => "prop.response_information",
        SERVER_REFERENCE => "prop.server_reference",
        _ => "prop.reason_string",
    }
}

/// The bytes of a value, or the error where it is too long.
pub open spec fn value_bytes(id: u8, v: PropValue) -> Result<Seq<u8>, MqttError> {
    match v {
        PropValue::Byte(x) => Ok(seq![x]),
        PropValue::Two(x) => Ok(wire::be16_bytes(x)),
        PropValue::Four(x) => Ok(wire::be32_bytes(x)),
        PropValue::Text(s) => if encode_utf8(s).len() <= 65535 {
            Ok(wire::text_field(s))
        } else {
            Err(wire::field_too_long(field_name(id), encode_utf8(s).len()))
        },
        PropValue::Data(d) => if d.len() <= 65535 {
            Ok(wire::field(d))
        } else {
            Err(wire::field_too_long(field_name(id), d.len()))
        },
    }
}

/// The subscription identifiers, each behind its property identifier.
pub open spec fn ids_bytes(ids: Seq<u32>) -> Seq<u8>
    decreases ids.len(),
{
    if ids.len() == 0 {
        seq![]
    } else {
        ids_bytes(ids.drop_last()) + seq![SUBSCRIPTION_IDENTIFIER] + wire::vbi(ids.last() as nat)
    }
}

/// One user property, or the error where its key or its value is too long.
pub open spec fn pair_bytes(pair: (Seq<char>, Seq<char>)) -> Result<Seq<u8>, MqttError> {
    let key = encode_utf8(pair.0);
    let value = encode_utf8(pair.1);
    if key.len() > 65535 {
        Err(wire::field_too_long("prop.user_property.key", key.len()))
    } else if value.len() > 65535 {
        Err(wire::field_too_long("prop.user_property.value", value.len()))
    } else {
        Ok(seq![USER_PROPERTY] + wire::text_field(pair.0) + wire::text_field(pair.1))
    }
}

/// The user properties one behind the other, or the first error.
pub open spec fn pairs_bytes(pairs: Seq<(Seq<char>, Seq<char>)>) -> Result<Seq<u8>, MqttError>
    decreases pairs.len(),
{
    if pairs.len() == 0 {
        Ok(seq![])
    } else {
        match pairs_bytes(pairs.drop_last()) {
            Err(e) => Err(e),
            Ok(before) => match pair_bytes(pairs.last()) {
                Err(e) => Err(e),
                Ok(b) => Ok(before + b),
            },
        }
    }
}

/// All that is written under one identifier.
pub open spec fn item_bytes(m: PropertiesModel, id: u8) -> Result<Seq<u8>, MqttError> {
    if id == SUBSCRIPTION_IDENTIFIER {
        Ok(ids_bytes(m.subscription_identifiers))
    } else if id == USER_PROPERTY {
        pairs_bytes(m.user_properties)
    } else if m.singles.contains_key(id) {
        match value_bytes(id, m.singles[id]) {
            Err(e) => Err(e),
            Ok(b) => Ok(seq![id] + b),
        }
    } else {
        Ok(seq![])
    }
}

/// All that is written under the first `n` identifiers, or the first error.
pub open spec fn items_bytes(m: PropertiesModel, n: int) -> Result<Seq<u8>, MqttError>
    decreases n,
{
    if n <= 0 {
        Ok(seq![])
    } else {
        match items_bytes(m, n - 1) {
            Err(e) => Err(e),
            Ok(before) => match item_bytes(m, written_order()[n - 1]) {
                Err(e) => Err(e),
                Ok(b) => Ok(before + b),
            },
        }
    }
}

/// A property block as it is written: its length and its properties.
pub open spec fn block_bytes(m: PropertiesModel) -> Result<Seq<u8>, MqttError> {
    match items_bytes(m, written_order().len() as int) {
        Err(e) => Err(e),
        Ok(b) => Ok(wire::vbi(b.len()) + b),
    }
}

/// An error under one of the first identifiers is the error of all.
proof fn lemma_items_error(m: PropertiesModel, n: int, total: int)
    requires
        0 <= n <= total,
        items_bytes(m, n) is Err,
    ensures
        items_bytes(m, total) == items_bytes(m, n),
    decreases total - n,
{
    if n < total {
        lemma_items_error(m, n, total - 1);
    }
}

proof fn lemma_pairs_error(pairs: Seq<(Seq<char>, Seq<char>)>, n: int)
    requires
        0 <= n <= pairs.len(),
        pairs_bytes(pairs.subrange(0, n)) is Err,
    ensures
        pairs_bytes(pairs) == pairs_bytes(pairs.subrange(0, n)),
    decreases pairs.len() - n,
{
    if n < pairs.len() {
        assert(pairs.subrange(0, n + 1).drop_last() =~= pairs.subrange(0, n));
        lemma_pairs_error(pairs, n + 1);
    } else {
        assert(pairs.subrange(0, n) =~= pairs);
    }
}

/// Appends a value.
fn put_value(out: &mut Vec<u8>, id: u8, v: PropRef) -> (r: Result<(), MqttError>)
    ensures
        match value_bytes(id, ref_value(v)) {
            Ok(b) => r is Ok && final(out)@ == old(out)@ + b,
            Err(e) => r is Err && r->Err_0 == e,
        },
{
    match v {
        PropRef::Byte(x) => {
            out.push(x);
            assert(out@ =~= old(out)@ + seq![x]);
            Ok(())
        },
        PropRef::Two(x) => {
            put_u16(out, x);
            Ok(())
        },
        PropRef::Four(x) => {
            put_u32(out, x);
            Ok(())
        },
        PropRef::Text(s) => write_str(out, s, name_of(id)),
        PropRef::Data(d) => write_bytes(out, bytes_slice(d), name_of(id)),
    }
}

/// Appends the subscription identifiers.
fn put_ids(out: &mut Vec<u8>, ids: &Vec<u32>)
    ensures
        final(out)@ == old(out)@ + ids_bytes(ids@),
{
    let mut i: usize = 0;
    proof {
        assert(ids@.subrange(0, 0) =~= Seq::<u32>::empty());
        assert(out@ =~= old(out)@ + ids_bytes(ids@.subrange(0, 0)));
    }
    while i < ids.len()
        invariant
            i <= ids@.len(),
            out@ == old(out)@ + ids_bytes(ids@.subrange(0, i as int)),
        decreases ids@.len() - i,
    {
        out.push(SUBSCRIPTION_IDENTIFIER);
        write_vbi(out, ids[i] as usize);
        proof {
            let s = ids@.subrange(0, i + 1);
            assert(s.drop_last() =~= ids@.subrange(0, i as int));
            assert(out@ =~= old(out)@ + ids_bytes(s));
        }
        i += 1;
    }
    assert(ids@.subrange(0, ids@.len() as int) =~= ids@);
}

/// Appends the user properties.
fn put_pairs(out: &mut Vec<u8>, pairs: &Vec<(Arc<str>, Arc<str>)>) -> (r: Result<(), MqttError>)
    ensures
        match pairs_bytes(pairs_of(pairs@)) {
            Ok(b) => r is Ok && final(out)@ == old(out)@ + b,
            Err(e) => r is Err && r->Err_0 == e,
        },
{
    let ghost all = pairs_of(pairs@);
    let mut i: usize = 0;
    proof {
        assert(all.subrange(0, 0) =~= Seq::<(Seq<char>, Seq<char>)>::empty());
        assert(out@ =~= old(out)@ + pairs_bytes(all.subrange(0, 0))->Ok_0);
    }
    while i < pairs.len()
        invariant
            i <= pairs@.len(),
            all == pairs_of(pairs@),
            pairs_bytes(all.subrange(0, i as int)) is Ok,
            out@ == old(out)@ + pairs_bytes(all.subrange(0, i as int))->Ok_0,
        decreases pairs@.len() - i,
    {
        let ghost before = out@;
        let ghost s = all.subrange(0, i + 1);
        let pair = &pairs[i];
        proof {
            assert(s.drop_last() =~= all.subrange(0, i as int));
            assert(s.last() == ((*pair.0)@, (*pair.1)@));
            if pairs_bytes(s) is Err {
                lemma_pairs_error(all, i + 1);
            }
        }
        out.push(USER_PROPERTY);
        match write_str(out, &pair.0, "prop.user_property.key") {
            Err(e) => {
                return Err(e);
            },
            Ok(_) => {},
        }
        match write_str(out, &pair.1, "prop.user_property.value") {
            Err(e) => {
                return Err(e);
            },
            Ok(_) => {},
        }
        proof {
            assert(out@ =~= before + pair_bytes(s.last())->Ok_0);
            assert(out@ =~= old(out)@ + pairs_bytes(s)->Ok_0);
        }
        i += 1;
    }
    assert(all.subrange(0, all.len() as int) =~= all);
    Ok(())
}

/// The identifiers in the order in which they are written.
fn order() -> (r: Vec<u8>)
    ensures
        r@ == written_order(),
{
    vec![
        PAYLOAD_FORMAT_INDICATOR,
        MESSAGE_EXPIRY_INTERVAL,
        CONTENT_TYPE,
        RESPONSE_TOPIC,
        CORRELATION_DATA,
        SUBSCRIPTION_IDENTIFIER,
        SESSION_EXPIRY_INTERVAL,
        ASSIGNED_CLIENT_IDENTIFIER,
        SERVER_KEEP_ALIVE,
        AUTHENTICATION_METHOD,
        AUTHENTICATION_DATA,
        REQUEST_PROBLEM_INFORMATION,
        WILL_DELAY_INTERVAL,
        REQUEST_RESPONSE_INFORMATION,
        RESPONSE_INFORMATION,
        SERVER_REFERENCE,
        REASON_STRING,
        RECEIVE_MAXIMUM,
        TOPIC_ALIAS_MAXIMUM,
        TOPIC_ALIAS,
        MAXIMUM_QOS,
        RETAIN_AVAILABLE,
        USER_PROPERTY,
        MAXIMUM_PACKET_SIZE,
        WILDCARD_SUBSCRIPTION_AVAILABLE,
        SUBSCRIPTION_IDENTIFIER_AVAILABLE,
        SHARED_SUBSCRIPTION_AVAILABLE,
    ]
}

impl Properties {
    /// Appends the block: its length and its properties. On an error the buffer
    /// stays as it was.
    pub fn encode(&self, out: &mut Vec<u8>) -> (r: Result<(), MqttError>)
        ensures
            match block_bytes(self@) {
                Ok(b) => r is Ok && final(out)@ == old(out)@ + b,
                Err(e) => r is Err && r->Err_0 == e && final(out)@ == old(out)@,
            },
    {
        let ids: Vec<u8> = order();
        let mut buf: Vec<u8> = Vec::new();
        let mut k: usize = 0;
        while k < ids.len()
            invariant
                k <= ids@.len(),
                ids@ == written_order(),
                items_bytes(self@, k as int) == Ok::<Seq<u8>, MqttError>(buf@),
                out@ == old(out)@,
            decreases ids@.len() - k,
        {
            let id: u8 = ids[k];
            let ghost before = buf@;
            proof {
                if items_bytes(self@, k + 1) is Err {
                    lemma_items_error(self@, k + 1, ids@.len() as int);
                }
            }
            if id == SUBSCRIPTION_IDENTIFIER {
                put_ids(&mut buf, &self.subscription_identifiers);
            } else if id == USER_PROPERTY {
                match put_pairs(&mut buf, &self.user_properties) {
                    Err(e) => {
                        return Err(e);
                    },
                    Ok(_) => {},
                }
            } else {
                match self.get(id) {
                    Some(v) => {
                        buf.push(id);
                        match put_value(&mut buf, id, v) {
                            Err(e) => {
                                return Err(e);
                            },
                            Ok(_) => {},
                        }
                    },
                    None => {},
                }
            }
            proof {
                let item = item_bytes(self@, id);
                assert(item is Ok);
                assert(buf@ =~= before + item->Ok_0);
            }
            k += 1;
        }
        write_vbi(out, buf.len());
        put_all(out, buf.as_slice());
        proof {
            assert(out@ =~= old(out)@ + (wire::vbi(buf@.len()) + buf@));
        }
        Ok(())
    }

    /// Whether the block has no property.
    pub fn is_empty(&self) -> (r: bool)
        ensures
            r == (self@ == no_properties()),
    {
        if self.subscription_identifiers.len() > 0 || self.user_properties.len() > 0 {
            proof {
                assert(self@.subscription_identifiers.len() > 0 || self@.user_properties.len() > 0);
                assert(no_properties().user_properties.len() == 0);
            }
            return false;
        }
        let mut id: u8 = 0;
        while id < 64
            invariant
                id <= 64,
                forall|k: u8| k < id ==> !self@.singles.contains_key(k),
            decreases 64 - id,
        {
            if self.get(id).is_some() {
                return false;
            }
            id += 1;
        }
        proof {
            assert forall|k: u8| !self@.singles.contains_key(k) by {
                if k >= 64 {
                    assert(single(*self, k) is None);
                }
            }
            assert(self@.singles =~= Map::<u8, PropValue>::empty());
            assert(self@ =~= no_properties());
        }
        true
    }
}

// ----------------------------------------------------------------------------
// What is written is what is read
// ----------------------------------------------------------------------------

/// Whether a value has the form of its property, and no text holds U+0000.
pub open spec fn value_fits(id: u8, v: PropValue) -> bool {
    match v {
        PropValue::Byte(_) => single_kind(id) == Some(PropKind::Byte),
        PropValue::Two(_) => single_kind(id) == Some(PropKind::Two),
        PropValue::Four(_) => single_kind(id) == Some(PropKind::Four),
        PropValue::Text(s) => single_kind(id) == Some(PropKind::Text) && !s.contains('\0'),
        PropValue::Data(_) => single_kind(id) == Some(PropKind::Data),
    }
}

/// Whether every property has a value that may be sent: the form of its
/// property, no U+0000 in a text, and subscription identifiers from 1 to
/// 268 435 455.
pub open spec fn sendable(m: PropertiesModel) -> bool {
    &&& forall|id: u8| #[trigger]
        m.singles.contains_key(id) ==> value_fits(id, m.singles[id])
    &&& forall|i: int|
        0 <= i < m.subscription_identifiers.len() ==> 1 <= #[trigger] m.subscription_identifiers[i]
            <= 268435455
    &&& forall|i: int|
        0 <= i < m.user_properties.len() ==> !(#[trigger] m.user_properties[i]).0.contains('\0')
            && !m.user_properties[i].1.contains('\0')
}

/// The properties under the first `n` identifiers.
spec fn first_items(m: PropertiesModel, n: int) -> PropertiesModel {
    PropertiesModel {
        singles: m.singles.restrict(Set::new(|id: u8| written_order().subrange(0, n).contains(id))),
        subscription_identifiers: if n > 5 {
            m.subscription_identifiers
        } else {
            Seq::empty()
        },
        user_properties: if n > 22 {
            m.user_properties
        } else {
            Seq::empty()
        },
    }
}

proof fn lemma_value_read(b: Seq<u8>, at: int, id: u8, v: PropValue)
    requires
        0 <= at,
        value_fits(id, v),
        value_bytes(id, v) is Ok,
        at + value_bytes(id, v)->Ok_0.len() <= b.len(),
        b.subrange(at, at + value_bytes(id, v)->Ok_0.len()) == value_bytes(id, v)->Ok_0,
    ensures
        value_at(b, at, single_kind(id)->0) == Ok::<(PropValue, int), MqttError>(
            (v, at + value_bytes(id, v)->Ok_0.len()),
        ),
{
    let w = value_bytes(id, v)->Ok_0;
    let r = b.subrange(at, at + w.len());
    match v {
        PropValue::Byte(x) => {
            assert(r[0] == b[at]);
        },
        PropValue::Two(x) => {
            wire::lemma_be16(x);
            assert(r[0] == b[at] && r[1] == b[at + 1]);
        },
        PropValue::Four(x) => {
            wire::lemma_be32(x);
            assert(r[0] == b[at] && r[1] == b[at + 1] && r[2] == b[at + 2] && r[3] == b[at + 3]);
        },
        PropValue::Text(s) => {
            wire::lemma_text_read(b, at, s);
        },
        PropValue::Data(d) => {
            wire::lemma_field_read(b, at, d);
        },
    }
}

proof fn lemma_items_prefix(m: PropertiesModel, n: int, total: int)
    requires
        0 <= n <= total,
        items_bytes(m, total) is Ok,
    ensures
        items_bytes(m, n) is Ok,
        items_bytes(m, n)->Ok_0.len() <= items_bytes(m, total)->Ok_0.len(),
        items_bytes(m, total)->Ok_0.subrange(0, items_bytes(m, n)->Ok_0.len() as int)
            == items_bytes(m, n)->Ok_0,
    decreases total - n,
{
    if n < total {
        lemma_items_prefix(m, n, total - 1);
        let a = items_bytes(m, total - 1)->Ok_0;
        let t = items_bytes(m, total)->Ok_0;
        let p = items_bytes(m, n)->Ok_0;
        assert(t.subrange(0, a.len() as int) =~= a);
        assert(t.subrange(0, p.len() as int) =~= a.subrange(0, p.len() as int));
    } else {
        let p = items_bytes(m, n)->Ok_0;
        assert(p.subrange(0, p.len() as int) =~= p);
    }
}

proof fn lemma_ids_prefix(ids: Seq<u32>, n: int)
    requires
        0 <= n <= ids.len(),
    ensures
        ids_bytes(ids.subrange(0, n)).len() <= ids_bytes(ids).len(),
        ids_bytes(ids).subrange(0, ids_bytes(ids.subrange(0, n)).len() as int) == ids_bytes(
            ids.subrange(0, n),
        ),
    decreases ids.len(),
{
    let p = ids_bytes(ids.subrange(0, n));
    if n == ids.len() {
        assert(ids.subrange(0, n) =~= ids);
        assert(p.subrange(0, p.len() as int) =~= p);
    } else {
        let front = ids.drop_last();
        assert(front.subrange(0, n) =~= ids.subrange(0, n));
        lemma_ids_prefix(front, n);
        assert(ids_bytes(ids).subrange(0, p.len() as int) =~= ids_bytes(front).subrange(
            0,
            p.len() as int,
        ));
    }
}

proof fn lemma_pairs_prefix(pairs: Seq<(Seq<char>, Seq<char>)>, n: int)
    requires
        0 <= n <= pairs.len(),
        pairs_bytes(pairs) is Ok,
    ensures
        pairs_bytes(pairs.subrange(0, n)) is Ok,
        pairs_bytes(pairs.subrange(0, n))->Ok_0.len() <= pairs_bytes(pairs)->Ok_0.len(),
        pairs_bytes(pairs)->Ok_0.subrange(0, pairs_bytes(pairs.subrange(0, n))->Ok_0.len() as int)
            == pairs_bytes(pairs.subrange(0, n))->Ok_0,
    decreases pairs.len(),
{
    if n == pairs.len() {
        assert(pairs.subrange(0, n) =~= pairs);
        let p = pairs_bytes(pairs)->Ok_0;
        assert(p.subrange(0, p.len() as int) =~= p);
    } else {
        let front = pairs.drop_last();
        assert(front.subrange(0, n) =~= pairs.subrange(0, n));
        lemma_pairs_prefix(front, n);
        let p = pairs_bytes(pairs.subrange(0, n))->Ok_0;
        assert(pairs_bytes(pairs)->Ok_0.subrange(0, p.len() as int) =~= pairs_bytes(
            front,
        )->Ok_0.subrange(0, p.len() as int));
    }
}

/// One property is read, and then the rest.
proof fn lemma_items_step(b: Seq<u8>, at: int, p: int, end: int, m: PropertiesModel, n: PropertiesModel)
    requires
        at < p <= end,
        item_at(b, at, m) == Ok::<(PropertiesModel, int), MqttError>((n, p)),
    ensures
        items_at(b, at, end, m) == items_at(b, p, end, n),
{
}

/// Reading one subscription identifier.
proof fn lemma_id_read(b: Seq<u8>, at: int, m: PropertiesModel, id: u32)
    requires
        0 <= at,
        1 <= id <= 268435455,
        at + 1 + wire::vbi(id as nat).len() <= b.len(),
        b.subrange(at, at + 1 + wire::vbi(id as nat).len()) == seq![SUBSCRIPTION_IDENTIFIER]
            + wire::vbi(id as nat),
    ensures
        item_at(b, at, m) == Ok::<(PropertiesModel, int), MqttError>(
            (
                PropertiesModel {
                    subscription_identifiers: m.subscription_identifiers.push(id),
                    ..m
                },
                at + 1 + wire::vbi(id as nat).len(),
            ),
        ),
{
    let v = wire::vbi(id as nat);
    let item = seq![SUBSCRIPTION_IDENTIFIER] + v;
    assert(b.subrange(at, at + item.len())[0] == b[at]);
    assert(item.subrange(1, 1 + v.len() as int) =~= v);
    wire::lemma_inner(b, at, item, 1, v);
    wire::lemma_vbi_bounds();
    wire::lemma_vbi_read(b, at + 1, id as nat, 4);
}

/// Reading one user property.
proof fn lemma_pair_read(b: Seq<u8>, at: int, m: PropertiesModel, k: Seq<char>, v: Seq<char>)
    requires
        0 <= at,
        pair_bytes((k, v)) is Ok,
        !k.contains('\0'),
        !v.contains('\0'),
        at + pair_bytes((k, v))->Ok_0.len() <= b.len(),
        b.subrange(at, at + pair_bytes((k, v))->Ok_0.len()) == pair_bytes((k, v))->Ok_0,
    ensures
        item_at(b, at, m) == Ok::<(PropertiesModel, int), MqttError>(
            (
                PropertiesModel { user_properties: m.user_properties.push((k, v)), ..m },
                at + pair_bytes((k, v))->Ok_0.len(),
            ),
        ),
{
    let kf = wire::text_field(k);
    let vf = wire::text_field(v);
    let item = pair_bytes((k, v))->Ok_0;
    assert(item =~= seq![USER_PROPERTY] + kf + vf);
    assert(b.subrange(at, at + item.len())[0] == b[at]);
    assert(item.subrange(1, 1 + kf.len() as int) =~= kf);
    wire::lemma_inner(b, at, item, 1, kf);
    wire::lemma_text_read(b, at + 1, k);
    let mid = 1 + kf.len() as int;
    assert(item.subrange(mid, mid + vf.len()) =~= vf);
    wire::lemma_inner(b, at, item, mid, vf);
    wire::lemma_text_read(b, at + mid, v);
}

/// Reading a run of subscription identifiers from the `j`-th on.
proof fn lemma_ids_read(b: Seq<u8>, at: int, end: int, m: PropertiesModel, ids: Seq<u32>, j: int)
    requires
        0 <= at,
        0 <= j <= ids.len(),
        at + ids_bytes(ids).len() <= end <= b.len(),
        b.subrange(at, at + ids_bytes(ids).len()) == ids_bytes(ids),
        forall|i: int| 0 <= i < ids.len() ==> 1 <= #[trigger] ids[i] <= 268435455,
    ensures
        items_at(
            b,
            at + ids_bytes(ids.subrange(0, j)).len(),
            end,
            (PropertiesModel { subscription_identifiers: ids.subrange(0, j), ..m }),
        ) == items_at(
            b,
            at + ids_bytes(ids).len(),
            end,
            (PropertiesModel { subscription_identifiers: ids, ..m }),
        ),
    decreases ids.len() - j,
{
    let all = ids_bytes(ids);
    if j == ids.len() {
        assert(ids.subrange(0, j) =~= ids);
    } else {
        lemma_ids_read(b, at, end, m, ids, j + 1);
        lemma_ids_prefix(ids, j);
        lemma_ids_prefix(ids, j + 1);
        let p = ids_bytes(ids.subrange(0, j));
        let q = ids_bytes(ids.subrange(0, j + 1));
        assert(ids.subrange(0, j + 1).drop_last() =~= ids.subrange(0, j));
        let item = seq![SUBSCRIPTION_IDENTIFIER] + wire::vbi(ids[j] as nat);
        assert(q =~= p + item);
        wire::lemma_inner(b, at, all, 0, q);
        assert(q.subrange(p.len() as int, p.len() as int + item.len()) =~= item);
        wire::lemma_inner(b, at, q, p.len() as int, item);
        let here = at + p.len();
        let m1 = PropertiesModel { subscription_identifiers: ids.subrange(0, j), ..m };
        lemma_id_read(b, here, m1, ids[j]);
        assert(ids.subrange(0, j + 1) =~= ids.subrange(0, j).push(ids[j]));
        let m2 = PropertiesModel { subscription_identifiers: ids.subrange(0, j + 1), ..m };
        lemma_items_step(b, here, at + q.len(), end, m1, m2);
    }
}

/// Reading a run of user properties from the `j`-th on.
proof fn lemma_pairs_read(
    b: Seq<u8>,
    at: int,
    end: int,
    m: PropertiesModel,
    pairs: Seq<(Seq<char>, Seq<char>)>,
    j: int,
)
    requires
        0 <= at,
        0 <= j <= pairs.len(),
        pairs_bytes(pairs) is Ok,
        at + pairs_bytes(pairs)->Ok_0.len() <= end <= b.len(),
        b.subrange(at, at + pairs_bytes(pairs)->Ok_0.len()) == pairs_bytes(pairs)->Ok_0,
        forall|i: int|
            0 <= i < pairs.len() ==> !(#[trigger] pairs[i]).0.contains('\0')
                && !pairs[i].1.contains('\0'),
    ensures
        items_at(
            b,
            at + pairs_bytes(pairs.subrange(0, j))->Ok_0.len(),
            end,
            (PropertiesModel { user_properties: pairs.subrange(0, j), ..m }),
        ) == items_at(
            b,
            at + pairs_bytes(pairs)->Ok_0.len(),
            end,
            (PropertiesModel { user_properties: pairs, ..m }),
        ),
    decreases pairs.len() - j,
{
    let all = pairs_bytes(pairs)->Ok_0;
    if j == pairs.len() {
        assert(pairs.subrange(0, j) =~= pairs);
    } else {
        lemma_pairs_read(b, at, end, m, pairs, j + 1);
        lemma_pairs_prefix(pairs, j);
        lemma_pairs_prefix(pairs, j + 1);
        assert(pairs.subrange(0, j + 1).drop_last() =~= pairs.subrange(0, j));
        let p = pairs_bytes(pairs.subrange(0, j))->Ok_0;
        let q = pairs_bytes(pairs.subrange(0, j + 1))->Ok_0;
        let item = pair_bytes(pairs[j])->Ok_0;
        assert(pairs.subrange(0, j + 1).last() == pairs[j]);
        assert(q =~= p + item);
        wire::lemma_inner(b, at, all, 0, q);
        assert(q.subrange(p.len() as int, p.len() as int + item.len()) =~= item);
        wire::lemma_inner(b, at, q, p.len() as int, item);
        let here = at + p.len();
        let m1 = PropertiesModel { user_properties: pairs.subrange(0, j), ..m };
        lemma_pair_read(b, here, m1, pairs[j].0, pairs[j].1);
        assert(pairs.subrange(0, j + 1) =~= pairs.subrange(0, j).push(pairs[j]));
        let m2 = PropertiesModel { user_properties: pairs.subrange(0, j + 1), ..m };
        lemma_items_step(b, here, at + q.len(), end, m1, m2);
    }
}

/// The identifiers are written in ascending order, and those below 64 are all.
proof fn lemma_order()
    ensures
        written_order().len() == 27,
        forall|i: int, j: int|
            0 <= i < j < 27 ==> #[trigger] written_order()[i] < #[trigger] written_order()[j],
        forall|i: int| 0 <= i < 27 ==> #[trigger] written_order()[i] < 64,
        forall|id: u8| single_kind(id) is Some ==> #[trigger] written_order().contains(id),
        written_order()[5] == SUBSCRIPTION_IDENTIFIER,
        written_order()[22] == USER_PROPERTY,
{
    assert forall|id: u8| single_kind(id) is Some implies #[trigger] written_order().contains(
        id,
    ) by {
        let o = written_order();
        assert(o[0] == PAYLOAD_FORMAT_INDICATOR);
        assert(o[1] == MESSAGE_EXPIRY_INTERVAL);
        assert(o[2] == CONTENT_TYPE);
        assert(o[3] == RESPONSE_TOPIC);
        assert(o[4] == CORRELATION_DATA);
        assert(o[5] == SUBSCRIPTION_IDENTIFIER);
        assert(o[6] == SESSION_EXPIRY_INTERVAL);
        assert(o[7] == ASSIGNED_CLIENT_IDENTIFIER);
        assert(o[8] == SERVER_KEEP_ALIVE);
        assert(o[9] == AUTHENTICATION_METHOD);
        assert(o[10] == AUTHENTICATION_DATA);
        assert(o[11] == REQUEST_PROBLEM_INFORMATION);
        assert(o[12] == WILL_DELAY_INTERVAL);
        assert(o[13] == REQUEST_RESPONSE_INFORMATION);
        assert(o[14] == RESPONSE_INFORMATION);
        assert(o[15] == SERVER_REFERENCE);
        assert(o[16] == REASON_STRING);
        assert(o[17] == RECEIVE_MAXIMUM);
        assert(o[18] == TOPIC_ALIAS_MAXIMUM);
        assert(o[19] == TOPIC_ALIAS);
        assert(o[20] == MAXIMUM_QOS);
        assert(o[21] == RETAIN_AVAILABLE);
        assert(o[22] == USER_PROPERTY);
        assert(o[23] == MAXIMUM_PACKET_SIZE);
        assert(o[24] == WILDCARD_SUBSCRIPTION_AVAILABLE);
        assert(o[25] == SUBSCRIPTION_IDENTIFIER_AVAILABLE);
        assert(o[26] == SHARED_SUBSCRIPTION_AVAILABLE);
    }
}

/// Reading one property that may occur once.
proof fn lemma_single_read(b: Seq<u8>, at: int, m: PropertiesModel, id: u8, v: PropValue)
    requires
        0 <= at,
        id < 64,
        id != SUBSCRIPTION_IDENTIFIER,
        id != USER_PROPERTY,
        !m.singles.contains_key(id),
        value_fits(id, v),
        value_bytes(id, v) is Ok,
        at + 1 + value_bytes(id, v)->Ok_0.len() <= b.len(),
        b.subrange(at, at + 1 + value_bytes(id, v)->Ok_0.len()) == seq![id] + value_bytes(
            id,
            v,
        )->Ok_0,
    ensures
        item_at(b, at, m) == Ok::<(PropertiesModel, int), MqttError>(
            (with_single(m, id, v), at + 1 + value_bytes(id, v)->Ok_0.len()),
        ),
{
    let vb = value_bytes(id, v)->Ok_0;
    let item = seq![id] + vb;
    assert(b.subrange(at, at + item.len())[0] == b[at]);
    assert(item.subrange(1, 1 + vb.len() as int) =~= vb);
    wire::lemma_inner(b, at, item, 1, vb);
    lemma_value_read(b, at + 1, id, v);
}

/// The identifiers before a position, and the one at it, are those before the next.
proof fn lemma_order_grows(n: int)
    requires
        0 <= n < written_order().len(),
    ensures
        forall|k: u8| #[trigger]
            written_order().subrange(0, n + 1).contains(k) <==> (written_order().subrange(
                0,
                n,
            ).contains(k) || k == written_order()[n]),
{
    let o = written_order();
    let t = o.subrange(0, n + 1);
    let u = o.subrange(0, n);
    assert(t =~= u.push(o[n]));
    assert forall|k: u8| #[trigger] t.contains(k) <==> (u.contains(k) || k == o[n]) by {
        if k == o[n] {
            assert(t[n] == k);
        }
        if u.contains(k) {
            let i = choose|i: int| 0 <= i < u.len() && u[i] == k;
            assert(t[i] == k);
        }
        if t.contains(k) {
            let i = choose|i: int| 0 <= i < t.len() && t[i] == k;
            if i < n {
                assert(u[i] == k);
            }
        }
    }
}

/// Reading the properties from the `n`-th identifier on.
proof fn lemma_items_read(b: Seq<u8>, start: int, m: PropertiesModel, n: int)
    requires
        0 <= start,
        0 <= n <= 27,
        sendable(m),
        items_bytes(m, 27) is Ok,
        start + items_bytes(m, 27)->Ok_0.len() <= b.len(),
        b.subrange(start, start + items_bytes(m, 27)->Ok_0.len()) == items_bytes(m, 27)->Ok_0,
    ensures
        items_at(
            b,
            start + items_bytes(m, n)->Ok_0.len(),
            start + items_bytes(m, 27)->Ok_0.len(),
            first_items(m, n),
        ) == Ok::<PropertiesModel, MqttError>(m),
    decreases 27 - n,
{
    lemma_order();
    let o = written_order();
    let all = items_bytes(m, 27)->Ok_0;
    let end = start + all.len();
    if n == 27 {
        assert(o.subrange(0, 27) =~= o);
        assert forall|id: u8| m.singles.contains_key(id) implies o.contains(id) by {
            assert(value_fits(id, m.singles[id]));
        }
        assert(first_items(m, 27).singles =~= m.singles);
        assert(first_items(m, 27) =~= m);
    } else {
        lemma_items_read(b, start, m, n + 1);
        lemma_items_prefix(m, n, 27);
        lemma_items_prefix(m, n + 1, 27);
        let id = o[n];
        let p = items_bytes(m, n)->Ok_0;
        let q = items_bytes(m, n + 1)->Ok_0;
        let item = item_bytes(m, id)->Ok_0;
        assert(q == p + item);
        wire::lemma_inner(b, start, all, 0, q);
        assert(q.subrange(p.len() as int, p.len() as int + item.len()) =~= item);
        wire::lemma_inner(b, start, q, p.len() as int, item);
        let here = start + p.len();
        let m1 = first_items(m, n);
        let m2 = first_items(m, n + 1);
        lemma_order_grows(n);
        if id == SUBSCRIPTION_IDENTIFIER {
            assert(n == 5);
            assert(!m.singles.contains_key(id)) by {
                if m.singles.contains_key(id) {
                    assert(value_fits(id, m.singles[id]));
                }
            }
            assert(m1.singles =~= m2.singles);
            let ids = m.subscription_identifiers;
            lemma_ids_read(b, here, end, m1, ids, 0);
            assert(ids.subrange(0, 0) =~= Seq::<u32>::empty());
            assert(m1 =~= PropertiesModel { subscription_identifiers: ids.subrange(0, 0), ..m1 });
            assert(m2 =~= PropertiesModel { subscription_identifiers: ids, ..m1 });
        } else if id == USER_PROPERTY {
            assert(n == 22);
            assert(!m.singles.contains_key(id)) by {
                if m.singles.contains_key(id) {
                    assert(value_fits(id, m.singles[id]));
                }
            }
            assert(m1.singles =~= m2.singles);
            let pairs = m.user_properties;
            lemma_pairs_read(b, here, end, m1, pairs, 0);
            assert(pairs.subrange(0, 0) =~= Seq::<(Seq<char>, Seq<char>)>::empty());
            assert(m1 =~= PropertiesModel { user_properties: pairs.subrange(0, 0), ..m1 });
            assert(m2 =~= PropertiesModel { user_properties: pairs, ..m1 });
        } else if m.singles.contains_key(id) {
            assert(n != 5 && n != 22);
            let v = m.singles[id];
            assert(value_fits(id, v));
            assert(!m1.singles.contains_key(id)) by {
                if o.subrange(0, n).contains(id) {
                    let i = choose|i: int| 0 <= i < n && o.subrange(0, n)[i] == id;
                    assert(o[i] < o[n]);
                }
            }
            lemma_single_read(b, here, m1, id, v);
            assert(m2.singles =~= m1.singles.insert(id, v));
            assert(m2 =~= with_single(m1, id, v));
            lemma_items_step(b, here, start + q.len(), end, m1, m2);
        } else {
            assert(n != 5 && n != 22);
            assert(m2.singles =~= m1.singles);
            assert(m2 =~= m1);
        }
    }
}

/// A property block is read back as it was written, wherever it stands, and the
/// reader stops right behind it.
pub proof fn law_properties_round_trip(b: Seq<u8>, at: int, m: PropertiesModel)
    requires
        0 <= at,
        b.len() <= usize::MAX,
        sendable(m),
        items_bytes(m, written_order().len() as int) matches Ok(items) && items.len() <= 268435455,
        at + block_bytes(m)->Ok_0.len() <= b.len(),
        b.subrange(at, at + block_bytes(m)->Ok_0.len()) == block_bytes(m)->Ok_0,
    ensures
        block_at(b, at) == Ok::<(PropertiesModel, int), MqttError>(
            (m, at + block_bytes(m)->Ok_0.len()),
        ),
{
    lemma_order();
    let items = items_bytes(m, 27)->Ok_0;
    let head = wire::vbi(items.len());
    let block = head + items;
    assert(block_bytes(m)->Ok_0 == block);
    wire::lemma_vbi_bounds();
    assert(block.subrange(0, head.len() as int) =~= head);
    wire::lemma_inner(b, at, block, 0, head);
    wire::lemma_vbi_read(b, at, items.len(), 4);
    assert(block.subrange(head.len() as int, head.len() as int + items.len()) =~= items);
    wire::lemma_inner(b, at, block, head.len() as int, items);
    lemma_items_read(b, at + head.len(), m, 0);
    assert(first_items(m, 0).singles =~= Map::<u8, PropValue>::empty()) by {
        assert(written_order().subrange(0, 0) =~= Seq::<u8>::empty());
    }
    assert(first_items(m, 0) =~= no_properties());
}

/// The empty block is written as the single byte 0.
pub proof fn law_empty_block()
    ensures
        block_bytes(no_properties()) == Ok::<Seq<u8>, MqttError>(seq![0u8]),
{
    lemma_order();
    lemma_no_items(27);
    assert(wire::vbi(0) =~= seq![0u8]);
    assert(wire::vbi(0) + Seq::<u8>::empty() =~= seq![0u8]);
}

proof fn lemma_no_items(n: int)
    ensures
        items_bytes(no_properties(), n) == Ok::<Seq<u8>, MqttError>(Seq::empty()),
    decreases n,
{
    if n > 0 {
        lemma_no_items(n - 1);
        assert(ids_bytes(Seq::empty()) =~= Seq::<u8>::empty());
        assert(Seq::<u8>::empty() + Seq::<u8>::empty() =~= Seq::<u8>::empty());
    }
}

} // verus!
