//! The client's side of a connection, step by step.
//!
//! Whoever drives a connection reads packets, waits for acknowledgements and
//! writes; the functions here say what each packet and each request does.
use crate::buffer;
use crate::buffer::{bytes_slice, SecretBytes};
use crate::channel;
use crate::channel::{ack_inbound_publish_pre_chain, MqttChannel, ProtocolRole};
use crate::client::MqttClientConfig;
use crate::context::MqttContext;
use crate::error::{MqttError, TimeoutKind, Violation};
use crate::packet;
use crate::packet::{
    incoming_from_packet, ConnackReturnCode, ConnectPacket, Packet, ProtocolVersion, PublishPacket,
    SubscribePacket, TopicSubscription, UnsubscribePacket, WillPacket,
};
use crate::properties;
use crate::properties::Properties;
use crate::request;
use crate::request::{
    IncomingPublish, MqttRequest, MqttResponse, PacketId, PublishAck, PublishRequest, QoS,
    SubackCode, TopicFilter,
};
use crate::session;
use crate::session::{AckSlot, BindInfo, Waiter};
use crate::text;
use crate::topic;
use crate::topic::{split_mqtt_topic, tokenize_mqtt_filter, PatternError, RawToken};
use std::sync::Arc;
use vstd::prelude::*;
use vstd::string::*;

verus! {

/// Handles inbound messages that no endpoint matches.
pub trait DefaultInboundHandler {
    fn handle(&self, incoming: IncomingPublish);
}

// ----------------------------------------------------------------------------
// The protocol objects
// ----------------------------------------------------------------------------

/// Whether bytes can begin an MQTT connection: the first packet is a CONNECT.
pub fn begins_with_connect(initial_bytes: &[u8]) -> (r: bool)
    ensures
        r == (initial_bytes@.len() > 0 && initial_bytes@[0] / 16 == 1),
{
    if initial_bytes.len() == 0 {
        return false;
    }
    let b: u8 = initial_bytes[0];
    assert((b >> 4 == 1) == (b / 16 == 1)) by (bit_vector);
    b >> 4 == 1
}

/// The client's side of the protocol. All its operations share the connection that
/// was opened first.
pub struct MqttClientProtocol {
    pub session_channel: Option<u64>,
}

impl Default for MqttClientProtocol {
    fn default() -> (r: MqttClientProtocol)
        ensures
            r.session_channel is None,
    {
        MqttClientProtocol::new()
    }
}

impl MqttClientProtocol {
    pub fn new() -> (r: MqttClientProtocol)
        ensures
            r.session_channel is None,
    {
        MqttClientProtocol { session_channel: None }
    }

    pub fn name(&self) -> (r: &'static str)
        ensures
            r@ == "mqtt"@,
    {
        "mqtt"
    }

    pub fn role(&self) -> (r: ProtocolRole)
        ensures
            r == ProtocolRole::Client,
    {
        ProtocolRole::Client
    }

    /// Whether bytes can begin an MQTT connection.
    pub fn detect(initial_bytes: &[u8]) -> (r: bool)
        ensures
            r == (initial_bytes@.len() > 0 && initial_bytes@[0] / 16 == 1),
    {
        begins_with_connect(initial_bytes)
    }

    /// A topic filter as the tokens of a path.
    pub fn tokenize_url(input: &str) -> (r: Result<Vec<RawToken>, PatternError>)
        ensures
            match topic::tokenize_filter(input@) {
                Ok(t) => r is Ok && topic::tokens_of(r->Ok_0@) == t,
                Err(e) => r is Err && r->Err_0@ == e,
            },
    {
        tokenize_mqtt_filter(input)
    }

    /// The levels of a topic.
    pub fn lit_parser<'a>(input: &'a str) -> (r: Vec<&'a str>)
        ensures
            input@.len() == 0 ==> r@.len() == 0,
            input@.len() > 0 ==> text::all_chars(r@) == text::levels(input@),
    {
        split_mqtt_topic(input)
    }

    /// Notes a connection. The first one is the one that is shared.
    pub fn open_channel(&mut self, connection: u64)
        ensures
            final(self).session_channel == (match old(self).session_channel {
                Some(c) => Some(c),
                None => Some(connection),
            }),
    {
        if self.session_channel.is_none() {
            self.session_channel = Some(connection);
        }
    }

    /// The shared connection.
    pub fn acquire_channel(&self) -> (r: Result<u64, MqttError>)
        ensures
            self.session_channel matches Some(c) ==> r == Ok::<u64, MqttError>(c),
            self.session_channel is None ==> (r matches Err(MqttError::NotConnected(m)) && m@
                == "call client.run_wire(wire) to establish session first"@),
    {
        match self.session_channel {
            Some(c) => Ok(c),
            None => Err(
                MqttError::NotConnected(
                    "call client.run_wire(wire) to establish session first".to_owned(),
                ),
            ),
        }
    }
}

// ----------------------------------------------------------------------------
// Connecting
// ----------------------------------------------------------------------------

/// The CONNECT of a configuration.
pub open spec fn connect_of(c: MqttClientConfig) -> packet::ConnectModel {
    packet::ConnectModel {
        version: ProtocolVersion::V311,
        properties: properties::no_properties(),
        client_id: (*c.client_id)@,
        clean_session: c.clean_session,
        keep_alive: c.keep_alive_secs,
        username: match c.credentials {
            Some(x) => Some((*x.username)@),
            None => None,
        },
        password: match c.credentials {
            Some(x) => Some(buffer::bytes_of(x.password)),
            None => None,
        },
        will: match c.will {
            Some(w) => Some(
                packet::WillModel {
                    topic: (*w.topic)@,
                    payload: buffer::bytes_of(w.payload),
                    qos: w.qos,
                    retain: w.retain,
                    properties: properties::no_properties(),
                },
            ),
            None => None,
        },
    }
}

/// The CONNECT of a configuration.
pub fn build_connect(config: &MqttClientConfig) -> (r: ConnectPacket)
    ensures
        r@ == connect_of(*config),
{
    let username: Option<Arc<str>> = match &config.credentials {
        Some(c) => Some(c.username.clone()),
        None => None,
    };
    let password: Option<SecretBytes> = match &config.credentials {
        Some(c) => {
            let mut body: Vec<u8> = Vec::new();
            crate::wire::put_all(&mut body, bytes_slice(&c.password));
            assert(body@ =~= buffer::bytes_of(c.password));
            Some(SecretBytes::new(body))
        },
        None => None,
    };
    let will: Option<WillPacket> = match &config.will {
        Some(w) => Some(
            WillPacket {
                topic: w.topic.clone(),
                payload: w.payload.clone(),
                qos: w.qos,
                retain: w.retain,
                properties: Properties::default(),
            },
        ),
        None => None,
    };
    let r = ConnectPacket {
        version: ProtocolVersion::V311,
        properties: Properties::default(),
        client_id: config.client_id.clone(),
        clean_session: config.clean_session,
        keep_alive: config.keep_alive_secs,
        username,
        password,
        will,
    };
    assert(r@ =~= connect_of(*config));
    r
}

pub open spec fn limit_of(c: MqttClientConfig) -> usize {
    let n = match c.safety@.max_inflight_messages {
        Some(n) => n,
        None => crate::safety::DEFAULT_MAX_INFLIGHT_MESSAGES,
    };
    if n == 0 {
        1
    } else {
        n
    }
}

pub open spec fn limited(c: channel::ChannelModel, limit: usize) -> channel::ChannelModel {
    channel::ChannelModel {
        session: session::SessionModel { max_inflight: limit, ..c.session },
        ..c
    }
}

/// Begins a session: the limit of the configuration holds from here on, and the
/// CONNECT goes out.
pub fn begin_session(channel: &mut MqttChannel, config: &MqttClientConfig) -> (r: Result<
    (),
    MqttError,
>)
    ensures
        r == channel::send_result(old(channel)@),
        final(channel)@ == channel::after_send(
            limited(old(channel)@, limit_of(*config)),
            channel::CmdModel::Packet(packet::PacketModel::Connect(connect_of(*config))),
        ),
{
    channel.session.set_max_inflight(config.safety.max_inflight_messages());
    assert(channel@ =~= limited(old(channel)@, limit_of(*config)));
    channel.send_packet(Packet::Connect(build_connect(config)))
}

/// Looks at the answer to the CONNECT. One that accepts binds the session.
pub fn accept_connack(
    channel: &mut MqttChannel,
    config: &MqttClientConfig,
    packet: &Packet,
) -> (r: Result<(), MqttError>)
    ensures
        match packet@ {
            packet::PacketModel::Connack(a) => if a.return_code == ConnackReturnCode::Accepted {
                &&& r is Ok
                &&& final(channel)@ == (channel::ChannelModel {
                    session: crate::broker::server::bound(
                        old(channel)@.session,
                        (*config.client_id)@,
                        config.keep_alive_secs,
                    ),
                    ..old(channel)@
                })
            } else {
                &&& r == Err::<(), MqttError>(
                    MqttError::Protocol(Violation::ConnectionRefused(a.return_code)),
                )
                &&& final(channel)@ == old(channel)@
            },
            _ => {
                &&& r == Err::<(), MqttError>(MqttError::Protocol(Violation::ExpectedConnack))
                &&& final(channel)@ == old(channel)@
            },
        },
{
    match packet {
        Packet::Connack(ack) => {
            if ack.return_code != ConnackReturnCode::Accepted {
                return Err(MqttError::Protocol(Violation::ConnectionRefused(ack.return_code)));
            }
            channel.session.bind_once(
                BindInfo {
                    client_id: config.client_id.clone(),
                    keep_alive: config.keep_alive_secs,
                },
            );
            Ok(())
        },
        _ => Err(MqttError::Protocol(Violation::ExpectedConnack)),
    }
}

/// Whether a client gives signs of life, and after how many seconds.
pub fn ping_interval_secs(keep_alive_secs: u16) -> (r: Option<u64>)
    ensures
        r == (if keep_alive_secs == 0 {
            None::<u64>
        } else {
            Some(keep_alive_secs as u64)
        }),
{
    if keep_alive_secs == 0 {
        None
    } else {
        Some(keep_alive_secs as u64)
    }
}

// ----------------------------------------------------------------------------
// Requests
// ----------------------------------------------------------------------------

/// The connection after an operation took a packet identifier for itself, and what
/// came of it. An operation that is one too many gets none.
pub open spec fn reserved(c: channel::ChannelModel) -> (channel::ChannelModel, Result<u16, MqttError>) {
    let s = c.session;
    let full = MqttError::TooManyInflight { limit: s.max_inflight };
    if s.pending_acks.len() >= s.max_inflight {
        (c, Err(full))
    } else {
        (
            channel::ChannelModel { session: session::after_allocation(s), ..c },
            match session::allocation(s).0 {
                Some(id) => Ok(id),
                None => Err(full),
            },
        )
    }
}

pub open spec fn with_slot(c: channel::ChannelModel, id: u16, slot: AckSlot) -> channel::ChannelModel {
    channel::ChannelModel {
        session: session::SessionModel {
            pending_acks: c.session.pending_acks.insert(id, slot),
            ..c.session
        },
        ..c
    }
}

pub open spec fn without_slot(c: channel::ChannelModel, id: u16) -> channel::ChannelModel {
    channel::ChannelModel { session: session::drop_slot(c.session, id), ..c }
}

/// The connection after an operation was sent under an identifier of its own, with
/// a waiter for its acknowledgement, and what came of it.
pub open spec fn requested(
    c: channel::ChannelModel,
    slot: AckSlot,
    cmd: spec_fn(u16) -> channel::CmdModel,
) -> (channel::ChannelModel, Result<u16, MqttError>) {
    let (d, got) = reserved(c);
    match got {
        Err(e) => (d, Err(e)),
        Ok(id) => {
            let waiting = with_slot(d, id, slot);
            (
                channel::after_send(waiting, cmd(id)),
                match channel::send_result(c) {
                    Ok(_) => Ok(id),
                    Err(e) => Err(e),
                },
            )
        },
    }
}

fn reserve(channel: &mut MqttChannel) -> (r: Result<PacketId, MqttError>)
    ensures
        (final(channel)@, r) == reserved(old(channel)@),
{
    let r = channel.session.allocate_client_packet_id();
    assert(channel@ =~= reserved(old(channel)@).0);
    r
}

fn wait_for(channel: &mut MqttChannel, id: PacketId, slot: AckSlot)
    ensures
        final(channel)@ == with_slot(old(channel)@, id, slot),
{
    let _old = channel.session.install_ack_slot(id, slot);
}

fn stop_waiting(channel: &mut MqttChannel, id: PacketId)
    ensures
        final(channel)@ == without_slot(old(channel)@, id),
{
    let _slot = channel.session.take_ack_slot(id);
}

/// The message of a request.
pub open spec fn message_of(req: PublishRequest, id: Option<u16>) -> packet::PublishModel {
    packet::PublishModel {
        topic: (*req.topic)@,
        payload: buffer::bytes_of(req.payload),
        dup: false,
        qos: req.qos,
        retain: req.retain,
        packet_id: id,
        properties: properties::no_properties(),
    }
}

/// How a publish goes on once it was sent.
#[derive(Debug, Clone, Copy, PartialEq, Eq, Structural)]
pub enum PublishStart {
    /// QoS 0: it is done.
    Sent,
    /// QoS 1: PUBACK is awaited.
    AwaitPuback(PacketId),
    /// QoS 2: PUBREC is awaited.
    AwaitPubrec(PacketId),
}

/// The connection after a publish was begun, and how it goes on.
pub open spec fn publish_begun(c: channel::ChannelModel, req: PublishRequest, waiter: Waiter) -> (
    channel::ChannelModel,
    Result<PublishStart, MqttError>,
) {
    let cmd = |id: u16| channel::CmdModel::Publish(message_of(req, Some(id)));
    match req.qos {
        QoS::AtMostOnce => (
            channel::after_send(c, channel::CmdModel::Publish(message_of(req, None))),
            match channel::send_result(c) {
                Ok(_) => Ok(PublishStart::Sent),
                Err(e) => Err(e),
            },
        ),
        QoS::AtLeastOnce => {
            let (d, r) = requested(c, AckSlot::Puback(waiter), cmd);
            (
                d,
                match r {
                    Ok(id) => Ok(PublishStart::AwaitPuback(id)),
                    Err(e) => Err(e),
                },
            )
        },
        QoS::ExactlyOnce => {
            let (d, r) = requested(c, AckSlot::Pubrec(waiter), cmd);
            (
                d,
                match r {
                    Ok(id) => Ok(PublishStart::AwaitPubrec(id)),
                    Err(e) => Err(e),
                },
            )
        },
    }
}

fn publish_packet(req: PublishRequest, id: Option<PacketId>) -> (r: PublishPacket)
    ensures
        r@ == message_of(req, id),
{
    let r = PublishPacket {
        topic: req.topic,
        payload: req.payload,
        dup: false,
        qos: req.qos,
        retain: req.retain,
        packet_id: id,
        properties: Properties::default(),
    };
    assert(r@ =~= message_of(req, id));
    r
}

/// Begins a publish: the message goes out, above QoS 0 under an identifier of its
/// own and with `waiter` for its first acknowledgement.
pub fn begin_publish(channel: &mut MqttChannel, req: PublishRequest, waiter: Waiter) -> (r: Result<
    PublishStart,
    MqttError,
>)
    ensures
        (final(channel)@, r) == publish_begun(old(channel)@, req, waiter),
{
    match req.qos {
        QoS::AtMostOnce => match channel.send_publish(publish_packet(req, None)) {
            Ok(()) => Ok(PublishStart::Sent),
            Err(e) => Err(e),
        },
        QoS::AtLeastOnce => match reserve(channel) {
            Err(e) => Err(e),
            Ok(id) => {
                wait_for(channel, id, AckSlot::Puback(waiter));
                match channel.send_publish(publish_packet(req, Some(id))) {
                    Ok(()) => Ok(PublishStart::AwaitPuback(id)),
                    Err(e) => Err(e),
                }
            },
        },
        QoS::ExactlyOnce => match reserve(channel) {
            Err(e) => Err(e),
            Ok(id) => {
                wait_for(channel, id, AckSlot::Pubrec(waiter));
                match channel.send_publish(publish_packet(req, Some(id))) {
                    Ok(()) => Ok(PublishStart::AwaitPubrec(id)),
                    Err(e) => Err(e),
                }
            },
        },
    }
}

/// How waiting for an acknowledgement ended.
#[derive(Debug, Clone, Copy, PartialEq, Eq, Structural)]
pub enum Waited {
    /// It came.
    Acked,
    /// It did not come in time.
    TimedOut,
    /// The waiter was dropped.
    Dropped,
}

/// The connection after waiting under an identifier ended, and whether the
/// acknowledgement came. Only one that is late takes its waiter away.
pub open spec fn waited(c: channel::ChannelModel, id: u16, w: Waited) -> (
    channel::ChannelModel,
    Result<(), MqttError>,
) {
    match w {
        Waited::Acked => (c, Ok(())),
        Waited::TimedOut => (
            without_slot(c, id),
            Err(MqttError::Timeout(TimeoutKind::Ack)),
        ),
        Waited::Dropped => (c, Err(MqttError::ChannelClosed)),
    }
}

fn after_wait(channel: &mut MqttChannel, id: PacketId, w: Waited) -> (r: Result<(), MqttError>)
    ensures
        (final(channel)@, r) == waited(old(channel)@, id, w),
{
    match w {
        Waited::Acked => Ok(()),
        Waited::TimedOut => {
            stop_waiting(channel, id);
            Err(MqttError::Timeout(TimeoutKind::Ack))
        },
        Waited::Dropped => Err(MqttError::ChannelClosed),
    }
}

/// Ends a publish at QoS 1.
pub fn finish_puback(channel: &mut MqttChannel, id: PacketId, w: Waited) -> (r: Result<
    MqttResponse,
    MqttError,
>)
    ensures
        final(channel)@ == waited(old(channel)@, id, w).0,
        match waited(old(channel)@, id, w).1 {
            Ok(_) => r == Ok::<MqttResponse, MqttError>(
                MqttResponse::Published(PublishAck::Acknowledged(id)),
            ),
            Err(e) => r == Err::<MqttResponse, MqttError>(e),
        },
{
    match after_wait(channel, id, w) {
        Ok(()) => Ok(MqttResponse::Published(PublishAck::Acknowledged(id))),
        Err(e) => Err(e),
    }
}

/// Goes on with a publish at QoS 2 after its first acknowledgement was awaited:
/// `waiter` waits for the second one under the same identifier.
pub fn await_pubcomp(channel: &mut MqttChannel, id: PacketId, w: Waited, waiter: Waiter) -> (r:
    Result<(), MqttError>)
    ensures
        r == waited(old(channel)@, id, w).1,
        final(channel)@ == (if r is Ok {
            with_slot(old(channel)@, id, AckSlot::Pubcomp(waiter))
        } else {
            waited(old(channel)@, id, w).0
        }),
{
    match after_wait(channel, id, w) {
        Ok(()) => {
            wait_for(channel, id, AckSlot::Pubcomp(waiter));
            Ok(())
        },
        Err(e) => Err(e),
    }
}

/// Ends a publish at QoS 2.
pub fn finish_pubcomp(channel: &mut MqttChannel, id: PacketId, w: Waited) -> (r: Result<
    MqttResponse,
    MqttError,
>)
    ensures
        final(channel)@ == waited(old(channel)@, id, w).0,
        match waited(old(channel)@, id, w).1 {
            Ok(_) => r == Ok::<MqttResponse, MqttError>(
                MqttResponse::Published(PublishAck::Completed(id)),
            ),
            Err(e) => r == Err::<MqttResponse, MqttError>(e),
        },
{
    match after_wait(channel, id, w) {
        Ok(()) => Ok(MqttResponse::Published(PublishAck::Completed(id))),
        Err(e) => Err(e),
    }
}

fn subscriptions_from(filters: &[TopicFilter]) -> (r: Vec<TopicSubscription>)
    ensures
        packet::subscriptions_of(r@) == request::filters_of(filters@),
{
    let ghost all = request::filters_of(filters@);
    let mut out: Vec<TopicSubscription> = Vec::new();
    let mut i: usize = 0;
    while i < filters.len()
        invariant
            i <= filters@.len(),
            all == request::filters_of(filters@),
            packet::subscriptions_of(out@) =~= all.take(i as int),
        decreases filters@.len() - i,
    {
        let ghost before = out@;
        out.push(TopicSubscription { topic: filters[i].filter.clone(), qos: filters[i].qos });
        assert(packet::subscriptions_of(out@) =~= packet::subscriptions_of(before).push(
            all[i as int],
        ));
        i += 1;
    }
    assert(all.take(i as int) =~= all);
    out
}

/// Begins a SUBSCRIBE to these filters, with `waiter` for its answer.
pub fn begin_subscribe(channel: &mut MqttChannel, filters: &[TopicFilter], waiter: Waiter) -> (r:
    Result<PacketId, MqttError>)
    ensures
        (final(channel)@, r) == requested(
            old(channel)@,
            AckSlot::Suback(waiter),
            |id: u16|
                channel::CmdModel::Packet(
                    packet::PacketModel::Subscribe {
                        packet_id: id,
                        subscriptions: request::filters_of(filters@),
                    },
                ),
        ),
{
    match reserve(channel) {
        Err(e) => Err(e),
        Ok(id) => {
            wait_for(channel, id, AckSlot::Suback(waiter));
            match channel.send_packet(
                Packet::Subscribe(
                    SubscribePacket { packet_id: id, subscriptions: subscriptions_from(filters) },
                ),
            ) {
                Ok(()) => Ok(id),
                Err(e) => Err(e),
            }
        },
    }
}

/// Begins the SUBSCRIBE to the filters of a configuration, if there are any.
pub fn begin_initial_subscribe(
    channel: &mut MqttChannel,
    config: &MqttClientConfig,
    waiter: Waiter,
) -> (r: Result<Option<PacketId>, MqttError>)
    ensures
        config.initial_subscriptions@.len() == 0 ==> r == Ok::<Option<PacketId>, MqttError>(None)
            && final(channel)@ == old(channel)@,
        config.initial_subscriptions@.len() > 0 ==> {
            let (c, got) = requested(
                old(channel)@,
                AckSlot::Suback(waiter),
                |id: u16|
                    channel::CmdModel::Packet(
                        packet::PacketModel::Subscribe {
                            packet_id: id,
                            subscriptions: request::filters_of(config.initial_subscriptions@),
                        },
                    ),
            );
            &&& final(channel)@ == c
            &&& r == (match got {
                Ok(id) => Ok::<Option<PacketId>, MqttError>(Some(id)),
                Err(e) => Err(e),
            })
        },
{
    if config.initial_subscriptions.len() == 0 {
        return Ok(None);
    }
    match begin_subscribe(channel, config.initial_subscriptions.as_slice(), waiter) {
        Ok(id) => Ok(Some(id)),
        Err(e) => Err(e),
    }
}

/// Ends a SUBSCRIBE with the answer to it.
pub fn finish_subscribe(
    channel: &mut MqttChannel,
    id: PacketId,
    w: Waited,
    codes: Vec<SubackCode>,
) -> (r: Result<MqttResponse, MqttError>)
    ensures
        final(channel)@ == waited(old(channel)@, id, w).0,
        match waited(old(channel)@, id, w).1 {
            Ok(_) => r == Ok::<MqttResponse, MqttError>(MqttResponse::Subscribed(codes)),
            Err(e) => r == Err::<MqttResponse, MqttError>(e),
        },
{
    match after_wait(channel, id, w) {
        Ok(()) => Ok(MqttResponse::Subscribed(codes)),
        Err(e) => Err(e),
    }
}

/// Begins an UNSUBSCRIBE from these filters, with `waiter` for its answer.
pub fn begin_unsubscribe(channel: &mut MqttChannel, topics: Vec<Arc<str>>, waiter: Waiter) -> (r:
    Result<PacketId, MqttError>)
    ensures
        (final(channel)@, r) == requested(
            old(channel)@,
            AckSlot::Unsuback(waiter),
            |id: u16|
                channel::CmdModel::Packet(
                    packet::PacketModel::Unsubscribe {
                        packet_id: id,
                        topics: packet::names_of(topics@),
                    },
                ),
        ),
{
    match reserve(channel) {
        Err(e) => Err(e),
        Ok(id) => {
            wait_for(channel, id, AckSlot::Unsuback(waiter));
            match channel.send_packet(
                Packet::Unsubscribe(UnsubscribePacket { packet_id: id, topics }),
            ) {
                Ok(()) => Ok(id),
                Err(e) => Err(e),
            }
        },
    }
}

/// Ends an UNSUBSCRIBE.
pub fn finish_unsubscribe(channel: &mut MqttChannel, id: PacketId, w: Waited) -> (r: Result<
    MqttResponse,
    MqttError,
>)
    ensures
        final(channel)@ == waited(old(channel)@, id, w).0,
        match waited(old(channel)@, id, w).1 {
            Ok(_) => r == Ok::<MqttResponse, MqttError>(MqttResponse::Unsubscribed),
            Err(e) => r == Err::<MqttResponse, MqttError>(e),
        },
{
    match after_wait(channel, id, w) {
        Ok(()) => Ok(MqttResponse::Unsubscribed),
        Err(e) => Err(e),
    }
}

// ----------------------------------------------------------------------------
// Requests
// ----------------------------------------------------------------------------

/// How a request goes on once it was sent.
#[derive(Debug, Clone, Copy, PartialEq, Eq, Structural)]
pub enum RequestStart {
    Publish(PublishStart),
    /// SUBACK is awaited.
    AwaitSuback(PacketId),
    /// UNSUBACK is awaited.
    AwaitUnsuback(PacketId),
}

/// The connection after a request was begun, and how it goes on.
pub open spec fn request_begun(c: channel::ChannelModel, req: MqttRequest, waiter: Waiter) -> (
    channel::ChannelModel,
    Result<RequestStart, MqttError>,
) {
    match req {
        MqttRequest::Publish(p) => {
            let (d, r) = publish_begun(c, p, waiter);
            (
                d,
                match r {
                    Ok(s) => Ok(RequestStart::Publish(s)),
                    Err(e) => Err(e),
                },
            )
        },
        MqttRequest::Subscribe(filters) => {
            let (d, r) = requested(
                c,
                AckSlot::Suback(waiter),
                |id: u16|
                    channel::CmdModel::Packet(
                        packet::PacketModel::Subscribe {
                            packet_id: id,
                            subscriptions: request::filters_of(filters@),
                        },
                    ),
            );
            (
                d,
                match r {
                    Ok(id) => Ok(RequestStart::AwaitSuback(id)),
                    Err(e) => Err(e),
                },
            )
        },
        MqttRequest::Unsubscribe(topics) => {
            let (d, r) = requested(
                c,
                AckSlot::Unsuback(waiter),
                |id: u16|
                    channel::CmdModel::Packet(
                        packet::PacketModel::Unsubscribe {
                            packet_id: id,
                            topics: packet::names_of(topics@),
                        },
                    ),
            );
            (
                d,
                match r {
                    Ok(id) => Ok(RequestStart::AwaitUnsuback(id)),
                    Err(e) => Err(e),
                },
            )
        },
    }
}

/// Begins the request of a context, with `waiter` for its acknowledgement.
/// `channel` is the connection that the context was given. The context keeps an
/// empty request in its place.
pub fn begin_request(ctx: &mut MqttContext, channel: &mut MqttChannel, waiter: Waiter) -> (r:
    Result<RequestStart, MqttError>)
    ensures
        old(ctx).channel is None ==> {
            &&& r matches Err(MqttError::NotConnected(m)) && m@ == "no channel installed in ctx"@
            &&& *final(ctx) == *old(ctx)
            &&& final(channel)@ == old(channel)@
        },
        old(ctx).channel is Some ==> {
            &&& (final(channel)@, r) == request_begun(old(channel)@, old(ctx).request, waiter)
            &&& *final(ctx) == (MqttContext { request: final(ctx).request, ..*old(ctx) })
            &&& final(ctx).request matches MqttRequest::Publish(p) && (*p.topic)@.len() == 0
                && buffer::bytes_of(p.payload).len() == 0 && p.qos == QoS::AtMostOnce && !p.retain
        },
{
    if ctx.channel.is_none() {
        return Err(MqttError::NotConnected("no channel installed in ctx".to_owned()));
    }
    let mut request = MqttRequest::Publish(PublishRequest::default());
    core::mem::swap(&mut request, &mut ctx.request);
    match request {
        MqttRequest::Publish(p) => match begin_publish(channel, p, waiter) {
            Ok(s) => Ok(RequestStart::Publish(s)),
            Err(e) => Err(e),
        },
        MqttRequest::Subscribe(filters) => match begin_subscribe(
            channel,
            filters.as_slice(),
            waiter,
        ) {
            Ok(id) => Ok(RequestStart::AwaitSuback(id)),
            Err(e) => Err(e),
        },
        MqttRequest::Unsubscribe(topics) => match begin_unsubscribe(channel, topics, waiter) {
            Ok(id) => Ok(RequestStart::AwaitUnsuback(id)),
            Err(e) => Err(e),
        },
    }
}

/// Ends the request of a context: its answer stands in the context, unless it
/// failed.
pub fn finish_request(ctx: &mut MqttContext, answer: Result<MqttResponse, MqttError>) -> (r: Result<
    (),
    MqttError,
>)
    ensures
        match answer {
            Ok(response) => r == Ok::<(), MqttError>(()) && *final(ctx) == (MqttContext {
                response,
                ..*old(ctx)
            }),
            Err(e) => r == Err::<(), MqttError>(e) && *final(ctx) == *old(ctx),
        },
{
    match answer {
        Ok(response) => {
            ctx.response = response;
            Ok(())
        },
        Err(e) => Err(e),
    }
}

// ----------------------------------------------------------------------------
// Inbound packets
// ----------------------------------------------------------------------------

/// Whom an acknowledgement wakes, and with what.
pub enum Wake {
    Acked(Waiter, PacketId),
    Subacked(Waiter, Vec<SubackCode>),
    Unsubacked(Waiter),
}

/// What an inbound packet calls for.
pub struct ClientStep {
    /// The message that goes to the endpoints.
    pub deliver: Option<IncomingPublish>,
    /// Whom to wake.
    pub wake: Option<Wake>,
    /// Whether the session ends.
    pub stop: bool,
}

#[verifier::ext_equal]
pub enum WakeModel {
    Acked(Waiter, PacketId),
    Subacked(Waiter, Seq<SubackCode>),
    Unsubacked(Waiter),
}

#[verifier::ext_equal]
pub struct StepModel {
    pub deliver: Option<packet::PublishModel>,
    pub wake: Option<WakeModel>,
    pub stop: bool,
}

impl View for Wake {
    type V = WakeModel;

    open spec fn view(&self) -> WakeModel {
        match *self {
            Wake::Acked(w, id) => WakeModel::Acked(w, id),
            Wake::Subacked(w, codes) => WakeModel::Subacked(w, codes@),
            Wake::Unsubacked(w) => WakeModel::Unsubacked(w),
        }
    }
}

impl View for ClientStep {
    type V = StepModel;

    open spec fn view(&self) -> StepModel {
        StepModel {
            deliver: match self.deliver {
                Some(p) => Some(p@),
                None => None,
            },
            wake: match self.wake {
                Some(w) => Some(w@),
                None => None,
            },
            stop: self.stop,
        }
    }
}

pub open spec fn nothing() -> StepModel {
    StepModel { deliver: None, wake: None, stop: false }
}

pub open spec fn slot_at(c: channel::ChannelModel, id: u16) -> Option<AckSlot> {
    if c.session.pending_acks.contains_key(id) {
        Some(c.session.pending_acks[id])
    } else {
        None
    }
}

pub open spec fn forgotten(c: channel::ChannelModel, id: u16) -> channel::ChannelModel {
    channel::ChannelModel { session: session::forget_outbound(c.session, id), ..c }
}

/// The connection after an inbound packet, what the packet calls for, and whether
/// its answer could be queued.
///
/// A message is acknowledged first; one at QoS 2 is delivered when it is released,
/// any other at once. An acknowledgement takes the waiter under its identifier away
/// and wakes it, if it is the one that was awaited.
pub open spec fn inbound(c: channel::ChannelModel, p: packet::PacketModel, receive_max: usize) -> (
    channel::ChannelModel,
    StepModel,
    Result<(), MqttError>,
) {
    match p {
        packet::PacketModel::Publish(p) => {
            let (d, r) = channel::acked_inbound(c, p, receive_max);
            (
                d,
                if r is Err || p.qos == QoS::ExactlyOnce {
                    nothing()
                } else {
                    StepModel { deliver: Some(p), ..nothing() }
                },
                r,
            )
        },
        packet::PacketModel::Puback(id) => (
            forgotten(without_slot(c, id), id),
            StepModel {
                wake: match slot_at(c, id) {
                    Some(AckSlot::Puback(w)) => Some(WakeModel::Acked(w, id)),
                    _ => None,
                },
                ..nothing()
            },
            Ok(()),
        ),
        packet::PacketModel::Pubrec(id) => (
            channel::after_send(
                without_slot(c, id),
                channel::CmdModel::Packet(packet::PacketModel::Pubrel(id)),
            ),
            StepModel {
                wake: match slot_at(c, id) {
                    Some(AckSlot::Pubrec(w)) => Some(WakeModel::Acked(w, id)),
                    _ => None,
                },
                ..nothing()
            },
            channel::send_result(c),
        ),
        packet::PacketModel::Pubcomp(id) => (
            forgotten(without_slot(c, id), id),
            StepModel {
                wake: match slot_at(c, id) {
                    Some(AckSlot::Pubcomp(w)) => Some(WakeModel::Acked(w, id)),
                    _ => None,
                },
                ..nothing()
            },
            Ok(()),
        ),
        packet::PacketModel::Pubrel(id) => {
            let taken = channel::ChannelModel {
                session: session::SessionModel {
                    qos2_recv: c.session.qos2_recv.remove(id),
                    ..c.session
                },
                ..c
            };
            (
                channel::after_send(
                    taken,
                    channel::CmdModel::Packet(packet::PacketModel::Pubcomp(id)),
                ),
                StepModel {
                    deliver: if c.session.qos2_recv.contains_key(id) {
                        Some(c.session.qos2_recv[id])
                    } else {
                        None
                    },
                    ..nothing()
                },
                channel::send_result(c),
            )
        },
        packet::PacketModel::Suback { packet_id, return_codes } => (
            without_slot(c, packet_id),
            StepModel {
                wake: match slot_at(c, packet_id) {
                    Some(AckSlot::Suback(w)) => Some(WakeModel::Subacked(w, return_codes)),
                    _ => None,
                },
                ..nothing()
            },
            Ok(()),
        ),
        packet::PacketModel::Unsuback { packet_id, .. } => (
            without_slot(c, packet_id),
            StepModel {
                wake: match slot_at(c, packet_id) {
                    Some(AckSlot::Unsuback(w)) => Some(WakeModel::Unsubacked(w)),
                    _ => None,
                },
                ..nothing()
            },
            Ok(()),
        ),
        packet::PacketModel::Disconnect => (c, StepModel { stop: true, ..nothing() }, Ok(())),
        _ => (c, nothing(), Ok(())),
    }
}

fn plain(deliver: Option<IncomingPublish>, wake: Option<Wake>) -> (r: ClientStep)
    ensures
        r.deliver == deliver,
        r.wake == wake,
        !r.stop,
{
    ClientStep { deliver, wake, stop: false }
}

/// Does what an inbound packet asks for. What it calls for is due even where its
/// answer could not be queued.
pub fn dispatch_client_inbound(channel: &mut MqttChannel, packet: Packet, receive_max: usize) -> (r: (
    ClientStep,
    Result<(), MqttError>,
))
    ensures
        (final(channel)@, r.0@, r.1) == inbound(old(channel)@, packet@, receive_max),
{
    match packet {
        Packet::Publish(publish) => {
            match ack_inbound_publish_pre_chain(channel, &publish, receive_max) {
                Err(e) => (plain(None, None), Err(e)),
                Ok(()) => {
                    if publish.qos == QoS::ExactlyOnce {
                        (plain(None, None), Ok(()))
                    } else {
                        (plain(Some(incoming_from_packet(&publish)), None), Ok(()))
                    }
                },
            }
        },
        Packet::Puback(id) => {
            let wake: Option<Wake> = match channel.session.take_ack_slot(id) {
                Some(AckSlot::Puback(w)) => Some(Wake::Acked(w, id)),
                _ => None,
            };
            channel.session.forget_outbound_inflight(id);
            (plain(None, wake), Ok(()))
        },
        Packet::Pubrec(id) => {
            let wake: Option<Wake> = match channel.session.take_ack_slot(id) {
                Some(AckSlot::Pubrec(w)) => Some(Wake::Acked(w, id)),
                _ => None,
            };
            let r = channel.send_packet(Packet::Pubrel(id));
            (plain(None, wake), r)
        },
        Packet::Pubcomp(id) => {
            let wake: Option<Wake> = match channel.session.take_ack_slot(id) {
                Some(AckSlot::Pubcomp(w)) => Some(Wake::Acked(w, id)),
                _ => None,
            };
            channel.session.forget_outbound_inflight(id);
            (plain(None, wake), Ok(()))
        },
        Packet::Pubrel(id) => {
            let stored: Option<IncomingPublish> = channel.session.take_qos2_inbound(id);
            let r = channel.send_packet(Packet::Pubcomp(id));
            (plain(stored, None), r)
        },
        Packet::Suback(s) => {
            let wake: Option<Wake> = match channel.session.take_ack_slot(s.packet_id) {
                Some(AckSlot::Suback(w)) => Some(Wake::Subacked(w, s.return_codes)),
                _ => None,
            };
            (plain(None, wake), Ok(()))
        },
        Packet::Unsuback(u) => {
            let wake: Option<Wake> = match channel.session.take_ack_slot(u.packet_id) {
                Some(AckSlot::Unsuback(w)) => Some(Wake::Unsubacked(w)),
                _ => None,
            };
            (plain(None, wake), Ok(()))
        },
        Packet::Disconnect => (ClientStep { deliver: None, wake: None, stop: true }, Ok(())),
        _ => (plain(None, None), Ok(())),
    }
}

// ----------------------------------------------------------------------------
// The loop of a session
// ----------------------------------------------------------------------------

/// What happens to a session.
pub enum ClientEvent {
    /// A packet came.
    Packet(Packet),
    /// Reading failed.
    Failed(MqttError),
    /// A sign of life is due.
    PingDue,
    /// The connection was closed from this side.
    Closed,
}

/// What becomes of a session.
pub enum ClientTurn {
    Continue,
    /// It ends in good order.
    Stop,
    /// It ends with an error.
    Fail(MqttError),
}

/// The connection after an event, what the event calls for, and what becomes of the
/// session. One that is not open ends whatever the event; one that cannot give a
/// sign of life ends; a transport that failed ends it in good order.
pub open spec fn turned(c: channel::ChannelModel, e: ClientEvent, receive_max: usize) -> (
    channel::ChannelModel,
    StepModel,
    ClientTurn,
) {
    if !c.open {
        (c, nothing(), ClientTurn::Stop)
    } else {
        match e {
            ClientEvent::Closed => (c, nothing(), ClientTurn::Stop),
            ClientEvent::Failed(MqttError::Io(_)) => (c, nothing(), ClientTurn::Stop),
            ClientEvent::Failed(e) => (c, nothing(), ClientTurn::Fail(e)),
            ClientEvent::PingDue => (
                channel::after_send(
                    c,
                    channel::CmdModel::Packet(packet::PacketModel::Pingreq),
                ),
                nothing(),
                if channel::send_result(c) is Ok {
                    ClientTurn::Continue
                } else {
                    ClientTurn::Stop
                },
            ),
            ClientEvent::Packet(p) => {
                let (d, s, r) = inbound(c, p@, receive_max);
                (
                    d,
                    s,
                    match r {
                        Ok(_) => if s.stop {
                            ClientTurn::Stop
                        } else {
                            ClientTurn::Continue
                        },
                        Err(e) => ClientTurn::Fail(e),
                    },
                )
            },
        }
    }
}

/// One turn of the loop of a session.
pub fn client_turn(channel: &mut MqttChannel, event: ClientEvent, receive_max: usize) -> (r: (
    ClientStep,
    ClientTurn,
))
    ensures
        (final(channel)@, r.0@, r.1) == turned(old(channel)@, event, receive_max),
{
    if !channel.is_open() {
        return (plain(None, None), ClientTurn::Stop);
    }
    match event {
        ClientEvent::Closed => (plain(None, None), ClientTurn::Stop),
        ClientEvent::Failed(e) => match e {
            MqttError::Io(_) => (plain(None, None), ClientTurn::Stop),
            e => (plain(None, None), ClientTurn::Fail(e)),
        },
        ClientEvent::PingDue => match channel.send_packet(Packet::Pingreq) {
            Ok(()) => (plain(None, None), ClientTurn::Continue),
            Err(_) => (plain(None, None), ClientTurn::Stop),
        },
        ClientEvent::Packet(packet) => {
            let (step, r) = dispatch_client_inbound(channel, packet, receive_max);
            let turn = match r {
                Ok(()) => if step.stop {
                    ClientTurn::Stop
                } else {
                    ClientTurn::Continue
                },
                Err(e) => ClientTurn::Fail(e),
            };
            (step, turn)
        },
    }
}

/// Says goodbye, if the queue takes it.
pub fn say_goodbye(channel: &mut MqttChannel)
    ensures
        final(channel)@ == channel::after_send(
            old(channel)@,
            channel::CmdModel::Packet(packet::PacketModel::Disconnect),
        ),
{
    let _r = channel.send_packet(Packet::Disconnect);
}

// ----------------------------------------------------------------------------
// Laws
// ----------------------------------------------------------------------------

/// No more operations await an acknowledgement than may, however many are begun.
pub proof fn law_client_inflight_bounded(
    c: channel::ChannelModel,
    slot: AckSlot,
    cmd: spec_fn(u16) -> channel::CmdModel,
)
    requires
        c.session.pending_acks.dom().finite(),
        c.session.pending_acks.len() <= c.session.max_inflight,
    ensures
        requested(c, slot, cmd).0.session.pending_acks.len() <= c.session.max_inflight,
{
}

/// An operation never takes the identifier of one that still awaits its
/// acknowledgement, so the waiter of that one is not lost.
pub proof fn law_no_waiter_lost(
    c: channel::ChannelModel,
    slot: AckSlot,
    cmd: spec_fn(u16) -> channel::CmdModel,
    id: u16,
)
    requires
        c.session.pending_acks.contains_key(id),
    ensures
        requested(c, slot, cmd).0.session.pending_acks.contains_key(id),
        requested(c, slot, cmd).0.session.pending_acks[id] == c.session.pending_acks[id],
{
    session::law_allocation(c.session);
}

/// A message at QoS 2 is delivered once, when it is released: the message itself
/// delivers nothing, however often it is sent; its release delivers what is kept
/// under its identifier and keeps it no longer, so that another release delivers
/// nothing; and no other packet touches what is kept.
pub proof fn law_delivered_once(
    c: channel::ChannelModel,
    p: packet::PublishModel,
    id: u16,
    other: packet::PacketModel,
    receive_max: usize,
)
    requires
        p.qos == QoS::ExactlyOnce,
        p.packet_id == Some(id),
        other matches packet::PacketModel::Publish(q) ==> q.qos != QoS::ExactlyOnce || q.packet_id
            != Some(id),
        other != packet::PacketModel::Pubrel(id),
    ensures
        ({
            let (d, step, r) = inbound(c, packet::PacketModel::Publish(p), receive_max);
            &&& step.deliver is None
            &&& r is Ok ==> d.session.qos2_recv.contains_key(id) && d.session.qos2_recv[id] == p
        }),
        ({
            let (d, step, r) = inbound(c, packet::PacketModel::Pubrel(id), receive_max);
            &&& step.deliver == (if c.session.qos2_recv.contains_key(id) {
                Some(c.session.qos2_recv[id])
            } else {
                None
            })
            &&& !d.session.qos2_recv.contains_key(id)
        }),
        ({
            let d = inbound(c, other, receive_max).0;
            &&& d.session.qos2_recv.contains_key(id) <==> c.session.qos2_recv.contains_key(id)
            &&& c.session.qos2_recv.contains_key(id) ==> d.session.qos2_recv[id]
                == c.session.qos2_recv[id]
        }),
{
}

/// The acknowledgement that is awaited under an identifier, and whom it wakes.
pub open spec fn awaited(slot: AckSlot, id: u16, p: packet::PacketModel) -> Option<WakeModel> {
    match (slot, p) {
        (AckSlot::Puback(w), packet::PacketModel::Puback(i)) => if i == id {
            Some(WakeModel::Acked(w, id))
        } else {
            None
        },
        (AckSlot::Pubrec(w), packet::PacketModel::Pubrec(i)) => if i == id {
            Some(WakeModel::Acked(w, id))
        } else {
            None
        },
        (AckSlot::Pubcomp(w), packet::PacketModel::Pubcomp(i)) => if i == id {
            Some(WakeModel::Acked(w, id))
        } else {
            None
        },
        (
            AckSlot::Suback(w),
            packet::PacketModel::Suback { packet_id, return_codes },
        ) => if packet_id == id {
            Some(WakeModel::Subacked(w, return_codes))
        } else {
            None
        },
        (AckSlot::Unsuback(w), packet::PacketModel::Unsuback { packet_id, .. }) => if packet_id
            == id {
            Some(WakeModel::Unsubacked(w))
        } else {
            None
        },
        _ => None,
    }
}

/// An acknowledgement wakes whoever waits for it, once, and nobody else: whoever
/// wakes was waiting for just this packet, and waits no more.
pub proof fn law_ack_wakes_its_waiter(
    c: channel::ChannelModel,
    id: u16,
    p: packet::PacketModel,
    receive_max: usize,
)
    ensures
        c.session.pending_acks.contains_key(id) && awaited(c.session.pending_acks[id], id, p) is Some
            ==> inbound(c, p, receive_max).1.wake == awaited(c.session.pending_acks[id], id, p)
            && !inbound(c, p, receive_max).0.session.pending_acks.contains_key(id),
        inbound(c, p, receive_max).1.wake is Some ==> exists|i: u16| #[trigger]
            c.session.pending_acks.contains_key(i) && inbound(c, p, receive_max).1.wake == awaited(
                c.session.pending_acks[i],
                i,
                p,
            ),
{
    match p {
        packet::PacketModel::Puback(i) => {
            assert(slot_at(c, i) is Some <==> c.session.pending_acks.contains_key(i));
        },
        packet::PacketModel::Pubrec(i) => {
            assert(slot_at(c, i) is Some <==> c.session.pending_acks.contains_key(i));
        },
        packet::PacketModel::Pubcomp(i) => {
            assert(slot_at(c, i) is Some <==> c.session.pending_acks.contains_key(i));
        },
        packet::PacketModel::Suback { packet_id, .. } => {
            assert(slot_at(c, packet_id) is Some <==> c.session.pending_acks.contains_key(packet_id));
        },
        packet::PacketModel::Unsuback { packet_id, .. } => {
            assert(slot_at(c, packet_id) is Some <==> c.session.pending_acks.contains_key(packet_id));
        },
        _ => {},
    }
}

} // verus!
