//! The server's side of one connection, step by step.
//!
//! Whoever drives a connection reads packets, waits and writes; the functions here
//! say what each packet does to the broker and to the connection.
use crate::broker::broker;
use crate::broker::broker::Broker;
use crate::broker::delivery;
use crate::broker::requests;
use crate::broker::requests::retransmit_inflight;
use crate::broker::safety;
use crate::broker::traits::{
    AclChecker, AclDecision, AuthResult, Authenticator, RetainedStore, SessionStore, TenantId,
    TenantResolver,
};
use crate::broker::tree;
use crate::channel;
use crate::channel::{MqttChannel, ProtocolRole, SocketAddress};
use crate::error::{MqttError, Violation};
use crate::keyed;
use crate::packet;
use crate::packet::{
    ConnackPacket, ConnackReturnCode, ConnectPacket, Packet, PublishPacket, WillPacket,
};
use crate::properties;
use crate::properties::Properties;
use crate::protocol::begins_with_connect;
use crate::request;
use crate::request::WillMessage;
use crate::session;
use crate::session::BindInfo;
use crate::text;
use crate::text::{clone_opt, decimal_text, opt_as_ref, shared};
use crate::topic;
use crate::topic::{split_mqtt_topic, tokenize_mqtt_filter, PatternError, RawToken};
use std::sync::Arc;
use vstd::prelude::*;
use vstd::string::*;

verus! {

/// The seconds that a server waits for the first packet of a connection.
pub const CONNECT_RECEIVE_TIMEOUT_SECS: u64 = 10;

/// The capacity of the queue of outgoing commands of a new connection.
pub const INITIAL_CMD_BUFFER_SIZE: usize = 1000;

/// The seconds of silence that end a connection without a keep-alive: thirty days.
pub const KEEP_ALIVE_DISABLED_READ_TIMEOUT_SECS: u64 = 2_592_000;

/// The server's side of the protocol. It answers connections and makes none.
pub struct MqttServerProtocol;

impl Default for MqttServerProtocol {
    fn default() -> (r: MqttServerProtocol)
        ensures
            r == MqttServerProtocol,
    {
        MqttServerProtocol::new()
    }
}

impl MqttServerProtocol {
    pub fn new() -> (r: MqttServerProtocol)
        ensures
            r == MqttServerProtocol,
    {
        MqttServerProtocol
    }

    pub fn name(&self) -> (r: &'static str)
        ensures
            r@ == "mqtt-server"@,
    {
        "mqtt-server"
    }

    pub fn role(&self) -> (r: ProtocolRole)
        ensures
            r == ProtocolRole::Server,
    {
        ProtocolRole::Server
    }

    /// Whether bytes can begin an MQTT connection.
    pub fn detect(initial_bytes: &[u8]) -> (r: bool)
        ensures
            r == (initial_bytes@.len() > 0 && initial_bytes@[0] / 16 == 1),
    {
        begins_with_connect(initial_bytes)
    }

    /// A topic filter as the tokens of a path.
    pub fn tokenize_url(input: &str) -> (r: Result<Vec<RawToken>, PatternError>)
        ensures
            match topic::tokenize_filter(input@) {
                Ok(t) => r is Ok && topic::tokens_of(r->Ok_0@) == t,
                Err(e) => r is Err && r->Err_0@ == e,
            },
    {
        tokenize_mqtt_filter(input)
    }

    /// The levels of a topic.
    pub fn lit_parser<'a>(input: &'a str) -> (r: Vec<&'a str>)
        ensures
            input@.len() == 0 ==> r@.len() == 0,
            input@.len() > 0 ==> text::all_chars(r@) == text::levels(input@),
    {
        split_mqtt_topic(input)
    }

    /// A new connection.
    pub fn open_channel(self, connection_id: u64) -> (r: MqttChannel)
        ensures
            r@ == channel::opened(connection_id, ProtocolRole::Server, INITIAL_CMD_BUFFER_SIZE),
    {
        MqttChannel::new(connection_id, ProtocolRole::Server, INITIAL_CMD_BUFFER_SIZE)
    }

    /// A server makes no connection.
    pub fn acquire_channel(&self) -> (r: Result<u64, MqttError>)
        ensures
            r matches Err(MqttError::Configuration(m)) && m@
                == "acquire_channel called on MqttServerProtocol"@,
    {
        Err(MqttError::Configuration("acquire_channel called on MqttServerProtocol".to_owned()))
    }

    /// A server sends no request.
    pub fn send(&self) -> (r: Result<(), MqttError>)
        ensures
            r matches Err(MqttError::Configuration(m)) && m@
                == "MqttServerProtocol does not implement send (outpoint)"@,
    {
        Err(
            MqttError::Configuration(
                "MqttServerProtocol does not implement send (outpoint)".to_owned(),
            ),
        )
    }
}

/// One accepted connection.
pub struct ServerConnection {
    pub tenant: Option<TenantId>,
    pub client_id: Arc<str>,
    /// The connection in the broker's table.
    pub channel: u64,
    /// The generation of the registration.
    pub connection_id: u64,
    pub keep_alive: u16,
    /// The client's messages that wait for their fan-out, the oldest first.
    pub fanout: Vec<PublishPacket>,
    pub capacity: usize,
}

#[verifier::ext_equal]
pub struct ServerModel {
    pub key: keyed::KeyModel,
    pub channel: u64,
    pub connection_id: u64,
    pub keep_alive: u16,
    pub fanout: Seq<packet::PublishModel>,
    pub capacity: usize,
}

impl View for ServerConnection {
    type V = ServerModel;

    open spec fn view(&self) -> ServerModel {
        ServerModel {
            key: (text::opt_chars(self.tenant), (*self.client_id)@),
            channel: self.channel,
            connection_id: self.connection_id,
            keep_alive: self.keep_alive,
            fanout: requests::messages_of(self.fanout@),
            capacity: self.capacity,
        }
    }
}

// ----------------------------------------------------------------------------
// Connecting
// ----------------------------------------------------------------------------

/// The seconds of silence that end a connection: one and a half times the
/// keep-alive, or thirty days where there is none.
pub fn read_timeout_secs(keep_alive: u16) -> (r: u64)
    ensures
        r == (if keep_alive == 0 {
            2_592_000
        } else {
            keep_alive * 3 / 2
        }),
{
    if keep_alive == 0 {
        KEEP_ALIVE_DISABLED_READ_TIMEOUT_SECS
    } else {
        keep_alive as u64 * 3 / 2
    }
}

pub open spec fn connack(session_present: bool, code: ConnackReturnCode) -> channel::CmdModel {
    channel::CmdModel::Packet(
        packet::PacketModel::Connack(
            packet::ConnackModel {
                session_present,
                return_code: code,
                properties: properties::no_properties(),
            },
        ),
    )
}

/// The state after a command was offered to a connection.
pub open spec fn answered(m: broker::BrokerModel, id: u64, cmd: channel::CmdModel) -> broker::BrokerModel {
    broker::BrokerModel {
        channels: m.channels.insert(id, channel::after_send(m.channels[id], cmd)),
        ..m
    }
}

pub open spec fn refused<V>(code: ConnackReturnCode) -> Result<V, MqttError> {
    Err(MqttError::Protocol(Violation::ConnectionRefused(code)))
}

/// The state after the first packet of a connection was looked at, and whether the
/// connection goes on. Anything but a CONNECT ends it. The version of the CONNECT
/// is that of the connection from here on. A client without an identifier must ask
/// for a clean session. The connection counts from here on, if there is room.
pub open spec fn begun(m: broker::BrokerModel, id: u64, p: packet::PacketModel) -> (
    broker::BrokerModel,
    Result<(), MqttError>,
) {
    match p {
        packet::PacketModel::Connect(c) => {
            let v = broker::BrokerModel {
                channels: m.channels.insert(
                    id,
                    channel::ChannelModel { version: c.version, ..m.channels[id] },
                ),
                ..m
            };
            if c.client_id.len() == 0 && !c.clean_session {
                (
                    answered(v, id, connack(false, ConnackReturnCode::IdentifierRejected)),
                    refused(ConnackReturnCode::IdentifierRejected),
                )
            } else if m.active_connections >= broker::connection_cap(m) {
                (
                    answered(v, id, connack(false, ConnackReturnCode::ServerUnavailable)),
                    refused(ConnackReturnCode::ServerUnavailable),
                )
            } else {
                (
                    broker::BrokerModel {
                        active_connections: (m.active_connections + 1) as usize,
                        ..v
                    },
                    Ok(()),
                )
            }
        },
        _ => (m, Err(MqttError::Protocol(Violation::ExpectedConnect))),
    }
}

/// The identifier of a client: its own, or one that the server makes up from the
/// identifier of the connection.
pub open spec fn client_name(c: packet::ConnectModel, connection_id: u64) -> Seq<char> {
    if c.client_id.len() == 0 {
        "hotaru-auto-"@ + text::decimal(connection_id as nat)
    } else {
        c.client_id
    }
}

pub open spec fn will_of(c: packet::ConnectModel) -> Option<request::WillMessageModel> {
    match c.will {
        Some(w) => Some(
            request::WillMessageModel {
                topic: w.topic,
                payload: w.payload,
                qos: w.qos,
                retain: w.retain,
            },
        ),
        None => None,
    }
}

pub open spec fn released(m: broker::BrokerModel) -> broker::BrokerModel {
    broker::BrokerModel { active_connections: (m.active_connections - 1) as usize, ..m }
}

/// The session bound to a client, unless it is bound already.
pub open spec fn bound(s: session::SessionModel, client: Seq<char>, keep_alive: u16) -> session::SessionModel {
    if s.bind is Some {
        s
    } else {
        session::SessionModel { bind: Some((client, keep_alive)), ..s }
    }
}

/// What the outcome of an authentication, and the access rules, say to a CONNECT.
pub struct Verdict {
    pub tenant: Option<Seq<char>>,
    pub auth: AuthResult,
    /// For the will of whoever is registered under the same name.
    pub earlier_will: AclDecision,
    /// For the will of the client itself.
    pub own_will: AclDecision,
}

/// The state right after the registration of a client, and what the stores report
/// before it, and then.
pub struct Reports {
    pub counted: usize,
    pub reported: usize,
    pub registered: broker::BrokerModel,
    pub own_counted: usize,
    pub own_reported: usize,
}

/// The connection that comes out of a CONNECT.
pub open spec fn connection_of(
    m: broker::BrokerModel,
    id: u64,
    c: packet::ConnectModel,
    tenant: Option<Seq<char>>,
    generation: u64,
) -> ServerModel {
    ServerModel {
        key: (tenant, client_name(c, m.channels[id].connection_id)),
        channel: id,
        connection_id: generation,
        keep_alive: c.keep_alive,
        fanout: Seq::empty(),
        capacity: at_least_one(
            broker::or_else(
                m.safety.max_queued_messages,
                crate::safety::DEFAULT_MAX_QUEUED_MESSAGES,
            ),
        ),
    }
}

pub open spec fn at_least_one(n: usize) -> usize {
    if n == 0 {
        1
    } else {
        n
    }
}

/// Whether one state follows from another, with this result, by the end of a
/// CONNECT. A client that is not accepted is told so and no longer counts. One that
/// is accepted is registered and told so, and the messages of a session that goes
/// on are sent again. If it cannot be told, its registration ends at once, and the
/// connection no longer counts.
pub open spec fn finishes(
    m: broker::BrokerModel,
    n: broker::BrokerModel,
    r: Result<ServerModel, MqttError>,
    id: u64,
    c: packet::ConnectModel,
    v: Verdict,
    w: Reports,
) -> bool {
    if !v.auth.accepted {
        &&& n == released(answered(m, id, connack(false, v.auth.return_code)))
        &&& r == refused::<ServerModel>(v.auth.return_code)
    } else {
        let key = (v.tenant, client_name(c, m.channels[id].connection_id));
        exists|present: bool, generation: u64|
            {
                &&& #[trigger] broker::registers(
                    m,
                    w.registered,
                    (present, generation),
                    key,
                    c.username,
                    id,
                    will_of(c),
                    c.clean_session,
                    v.earlier_will,
                    w.counted,
                    w.reported,
                )
                &&& tells(
                    w.registered,
                    n,
                    r,
                    id,
                    present,
                    connection_of(m, id, c, v.tenant, generation),
                    v.own_will,
                    w.own_counted,
                    w.own_reported,
                )
            }
    }
}

/// The state after the session of a new connection was bound to its client.
pub open spec fn made_ready(m: broker::BrokerModel, id: u64, conn: ServerModel) -> broker::BrokerModel {
    broker::BrokerModel {
        channels: m.channels.insert(
            id,
            channel::ChannelModel {
                session: bound(m.channels[id].session, conn.key.1, conn.keep_alive),
                ..m.channels[id]
            },
        ),
        ..m
    }
}

/// The last part of a CONNECT: see above.
pub open spec fn tells(
    mid: broker::BrokerModel,
    n: broker::BrokerModel,
    r: Result<ServerModel, MqttError>,
    id: u64,
    present: bool,
    conn: ServerModel,
    own_will: AclDecision,
    own_counted: usize,
    own_reported: usize,
) -> bool {
    let ready = made_ready(mid, id, conn);
    let told = answered(ready, id, connack(present, ConnackReturnCode::Accepted));
    match channel::send_result(ready.channels[id]) {
        Err(e) => {
            &&& r == Err::<ServerModel, MqttError>(e)
            &&& exists|gone: broker::BrokerModel| #[trigger]
                broker::unregisters(
                    ready,
                    gone,
                    conn.key,
                    conn.connection_id,
                    false,
                    own_will,
                    own_counted,
                    own_reported,
                ) && n == released(gone)
        },
        Ok(_) => {
            &&& r == Ok::<ServerModel, MqttError>(conn)
            &&& if present {
                exists|messages: Seq<packet::PublishModel>, ids: Seq<u16>| #[trigger]
                    requests::lists_again(messages, ids, told.channels[id].session) && n == (
                    broker::BrokerModel {
                        channels: told.channels.insert(
                            id,
                            requests::sent_all(told.channels[id], messages),
                        ),
                        ..told
                    })
            } else {
                n == told
            }
        },
    }
}

pub open spec fn result_of(r: Result<ServerConnection, MqttError>) -> Result<ServerModel, MqttError> {
    match r {
        Ok(c) => Ok(c@),
        Err(e) => Err(e),
    }
}

/// The identifier of a client that has none of its own.
fn auto_client_id(connection_id: u64) -> (r: Arc<str>)
    ensures
        (*r)@ == "hotaru-auto-"@ + text::decimal(connection_id as nat),
{
    let mut name: String = "hotaru-auto-".to_owned();
    let number: String = decimal_text(connection_id);
    name.append(number.as_str());
    shared(name.as_str())
}

fn refusal(code: ConnackReturnCode) -> (r: Packet)
    ensures
        channel::CmdModel::Packet(r@) == connack(false, code),
{
    Packet::Connack(
        ConnackPacket {
            session_present: false,
            return_code: code,
            properties: Properties::default(),
        },
    )
}

fn will_message(w: &Option<WillPacket>) -> (r: Option<WillMessage>)
    ensures
        broker::will_model(r) == (match *w {
            Some(x) => Some(
                request::WillMessageModel {
                    topic: x@.topic,
                    payload: x@.payload,
                    qos: x@.qos,
                    retain: x@.retain,
                },
            ),
            None => None,
        }),
{
    match w {
        Some(x) => Some(
            WillMessage {
                topic: x.topic.clone(),
                payload: x.payload.clone(),
                qos: x.qos,
                retain: x.retain,
            },
        ),
        None => None,
    }
}

impl<
    A: Authenticator,
    C: AclChecker,
    T: TenantResolver,
    R: RetainedStore,
    S: SessionStore,
> Broker<A, C, T, R, S> {
    /// Offers a packet to a connection of the table.
    pub(crate) fn answer(&mut self, id: u64, packet: Packet) -> (r: Result<(), MqttError>)
        requires
            old(self)@.channels.contains_key(id),
        ensures
            final(self).hooks() == old(self).hooks(),
            final(self)@ == answered(old(self)@, id, channel::CmdModel::Packet(packet@)),
            r == channel::send_result(old(self)@.channels[id]),
            final(self).retained_store == old(self).retained_store,
            final(self).session_store == old(self).session_store,
    {
        match self.channels.remove(id) {
            Some(channel) => {
                let mut channel = channel;
                let r = channel.send_packet(packet);
                self.channels.insert(id, channel);
                assert(self@ =~= answered(old(self)@, id, channel::CmdModel::Packet(packet@)));
                r
            },
            None => Ok(()),
        }
    }

    /// Looks at the first packet of a connection of the table.
    pub fn begin_connect(&mut self, id: u64, packet: &Packet) -> (r: Result<(), MqttError>)
        requires
            old(self)@.channels.contains_key(id),
        ensures
            final(self).hooks() == old(self).hooks(),
            (final(self)@, r) == begun(old(self)@, id, packet@),
    {
        match packet {
            Packet::Connect(connect) => {
                let ghost m = self@;
                match self.channels.remove(id) {
                    Some(channel) => {
                        let mut channel = channel;
                        channel.set_protocol_version(connect.version);
                        self.channels.insert(id, channel);
                        assert(self@ =~= (broker::BrokerModel {
                            channels: m.channels.insert(
                                id,
                                channel::ChannelModel {
                                    version: connect@.version,
                                    ..m.channels[id]
                                },
                            ),
                            ..m
                        }));
                    },
                    None => {},
                }
                let nameless: bool = connect.client_id.is_empty();
                if nameless && !connect.clean_session {
                    let _r = self.answer(id, refusal(ConnackReturnCode::IdentifierRejected));
                    return Err(
                        MqttError::Protocol(
                            Violation::ConnectionRefused(ConnackReturnCode::IdentifierRejected),
                        ),
                    );
                }
                if !self.try_admit_connection() {
                    let _r = self.answer(id, refusal(ConnackReturnCode::ServerUnavailable));
                    return Err(
                        MqttError::Protocol(
                            Violation::ConnectionRefused(ConnackReturnCode::ServerUnavailable),
                        ),
                    );
                }
                Ok(())
            },
            _ => Err(MqttError::Protocol(Violation::ExpectedConnect)),
        }
    }

    /// Registers the client of a CONNECT. Where nothing is said about the will of
    /// whoever is registered under the same name, the access rules decide on it.
    /// Returns what was decided, too.
    fn enroll(
        &mut self,
        id: u64,
        connect: &ConnectPacket,
        tenant: Option<TenantId>,
        earlier_will: Option<AclDecision>,
    ) -> (r: (bool, ServerConnection, AclDecision))
        requires
            old(self)@.channels.contains_key(id),
        ensures
            final(self).hooks() == old(self).hooks(),
            ({
                let m = old(self)@;
                let key = (
                    text::opt_chars(tenant),
                    client_name(connect@, m.channels[id].connection_id),
                );
                &&& broker::registers(
                    m,
                    final(self)@,
                    (r.0, r.1@.connection_id),
                    key,
                    connect@.username,
                    id,
                    will_of(connect@),
                    connect@.clean_session,
                    r.2,
                    old(self).session_store.counted(m.sessions[key].tenant),
                    old(self).retained_store.reported(m.sessions[key].tenant),
                )
                &&& match earlier_will {
                    Some(d) => r.2 == d,
                    None => broker::will_asked(old(self).acl_checker, m, key, r.2),
                }
                &&& r.1@ == connection_of(
                    m,
                    id,
                    connect@,
                    text::opt_chars(tenant),
                    r.1@.connection_id,
                )
            }),
    {
        let ghost m = self@;
        let ghost c = connect@;
        let ghost k = (text::opt_chars(tenant), client_name(c, m.channels[id].connection_id));
        let client_id: Arc<str> = if connect.client_id.is_empty() {
            let wire: u64 = match self.channels.get(id) {
                Some(ch) => ch.connection_id,
                None => 0,
            };
            auto_client_id(wire)
        } else {
            connect.client_id.clone()
        };
        assert((*client_id)@ == k.1);
        let capacity: usize = {
            let n: usize = self.safety.max_queued_messages();
            if n == 0 {
                1
            } else {
                n
            }
        };
        let will = will_message(&connect.will);
        assert(broker::will_model(will) =~= will_of(c));
        let scope: Option<TenantId> = clone_opt(&tenant);
        let username: Option<Arc<str>> = clone_opt(&connect.username);
        let ((session_present, connection_id), decision) = match earlier_will {
            Some(d) => (
                self.register_session_decided(
                    scope,
                    client_id.clone(),
                    username,
                    id,
                    will,
                    connect.clean_session,
                    d,
                ),
                d,
            ),
            None => self.register_session_asking(
                scope,
                client_id.clone(),
                username,
                id,
                will,
                connect.clean_session,
            ),
        };
        let conn = ServerConnection {
            tenant,
            client_id,
            channel: id,
            connection_id,
            keep_alive: connect.keep_alive,
            fanout: Vec::new(),
            capacity,
        };
        assert(conn@ =~= connection_of(m, id, c, k.0, connection_id));
        (session_present, conn, decision)
    }

    /// Refuses a client that is not accepted, and lets its connection go.
    fn turn_away(&mut self, id: u64, code: ConnackReturnCode)
        requires
            old(self)@.channels.contains_key(id),
            old(self)@.active_connections > 0,
        ensures
            final(self).hooks() == old(self).hooks(),
            final(self)@ == released(answered(old(self)@, id, connack(false, code))),
    {
        let _r = self.answer(id, refusal(code));
        self.release_connection();
    }

    /// Finishes a CONNECT of a connection of the table that counts already, with
    /// what the hooks decided.
    pub fn finish_connect_decided(
        &mut self,
        id: u64,
        connect: &ConnectPacket,
        tenant: Option<TenantId>,
        auth: AuthResult,
        earlier_will: AclDecision,
        own_will: AclDecision,
    ) -> (r: Result<ServerConnection, MqttError>)
        requires
            old(self)@.channels.contains_key(id),
            old(self)@.active_connections > 0,
        ensures
            final(self).hooks() == old(self).hooks(),
            exists|w: Reports| #[trigger]
                finishes(
                    old(self)@,
                    final(self)@,
                    result_of(r),
                    id,
                    connect@,
                    (Verdict { tenant: text::opt_chars(tenant), auth, earlier_will, own_will }),
                    w,
                ) && reports_fit(
                    old(self).session_store,
                    old(self).retained_store,
                    old(self)@,
                    (
                        text::opt_chars(tenant),
                        client_name(connect@, old(self)@.channels[id].connection_id),
                    ),
                    auth.accepted,
                    w,
                ),
    {
        let ghost m = self@;
        let ghost c = connect@;
        let ghost v = Verdict { tenant: text::opt_chars(tenant), auth, earlier_will, own_will };
        let ghost k = (v.tenant, client_name(c, m.channels[id].connection_id));
        let ghost counted = self.session_store.counted(m.sessions[k].tenant);
        let ghost reported = self.retained_store.reported(m.sessions[k].tenant);
        if !auth.accepted {
            self.turn_away(id, auth.return_code);
            let r: Result<ServerConnection, MqttError> = Err(
                MqttError::Protocol(Violation::ConnectionRefused(auth.return_code)),
            );
            proof {
                let w = Reports {
                    counted,
                    reported,
                    registered: m,
                    own_counted: 0,
                    own_reported: 0,
                };
                assert(finishes(m, self@, result_of(r), id, c, v, w));
            }
            return r;
        }
        let (session_present, conn, _earlier) = self.enroll(
            id,
            connect,
            tenant,
            Some(earlier_will),
        );
        let ghost mid = self@;
        proof {
            lemma_register_keeps(
                m,
                mid,
                (session_present, conn@.connection_id),
                k,
                c.username,
                id,
                will_of(c),
                c.clean_session,
                earlier_will,
                counted,
                reported,
            );
        }
        let ghost generation = conn@.connection_id;
        let ghost made = connection_of(m, id, c, k.0, generation);
        let announced: Result<(), MqttError> = self.announce(id, &conn, session_present);
        let ghost w = Reports {
            counted,
            reported,
            registered: mid,
            own_counted: self.session_store.counted(k.0),
            own_reported: self.retained_store.reported(k.0),
        };
        assert(reports_of(
            self.session_store,
            self.retained_store,
            w.registered,
            k.0,
            w.own_counted,
            w.own_reported,
        ));
        let r: Result<ServerConnection, MqttError> = match announced {
            Err(e) => {
                self.end_connection_decided(&conn, false, own_will);
                Err(e)
            },
            Ok(()) => Ok(conn),
        };
        proof {
            assert(tells(
                mid,
                self@,
                result_of(r),
                id,
                session_present,
                made,
                own_will,
                w.own_counted,
                w.own_reported,
            ));
            assert(broker::registers(
                m,
                mid,
                (session_present, generation),
                k,
                c.username,
                id,
                will_of(c),
                c.clean_session,
                v.earlier_will,
                w.counted,
                w.reported,
            ));
            assert(finishes(m, self@, result_of(r), id, c, v, w));
        }
        r
    }

    /// Finishes a CONNECT of a connection of the table that counts already, of a client
    /// whose tenant is known and on whom the authenticator has decided; the access
    /// rules decide on wills. They are asked about the client's own will only where the
    /// client cannot be told that it is registered.
    pub fn finish_connect_authenticated(
        &mut self,
        id: u64,
        connect: &ConnectPacket,
        tenant: Option<TenantId>,
        auth: AuthResult,
    ) -> (r: Result<ServerConnection, MqttError>)
        requires
            old(self)@.channels.contains_key(id),
            old(self)@.active_connections > 0,
        ensures
            final(self).hooks() == old(self).hooks(),
            exists|v: Verdict, w: Reports|
                {
                    let key = (
                        text::opt_chars(tenant),
                        client_name(connect@, old(self)@.channels[id].connection_id),
                    );
                    &&& v.auth == auth
                    &&& v.tenant == text::opt_chars(tenant)
                    &&& v.auth.accepted ==> broker::will_asked(
                        old(self).acl_checker,
                        old(self)@,
                        key,
                        v.earlier_will,
                    )
                    &&& v.auth.accepted && r is Err ==> own_will_asked(
                        old(self).acl_checker,
                        old(self)@,
                        key.0,
                        connect@,
                        v.own_will,
                    )
                    &&& #[trigger] finishes(
                        old(self)@,
                        final(self)@,
                        result_of(r),
                        id,
                        connect@,
                        v,
                        w,
                    )
                    &&& #[trigger] reports_fit(
                        old(self).session_store,
                        old(self).retained_store,
                        old(self)@,
                        (
                            text::opt_chars(tenant),
                            client_name(connect@, old(self)@.channels[id].connection_id),
                        ),
                        v.auth.accepted,
                        w,
                    )
                },
    {
        let ghost m = self@;
        let ghost c = connect@;
        if !auth.accepted {
            return self.finish_connect_decided(
                id,
                connect,
                tenant,
                auth,
                AclDecision::Deny,
                AclDecision::Deny,
            );
        }
        let ghost k = (text::opt_chars(tenant), client_name(c, m.channels[id].connection_id));
        let ghost counted = self.session_store.counted(m.sessions[k].tenant);
        let ghost reported = self.retained_store.reported(m.sessions[k].tenant);
        let ghost scope = tenant;
        let (session_present, conn, earlier_will) = self.enroll(id, connect, tenant, None);
        let ghost mid = self@;
        proof {
            lemma_register_keeps(
                m,
                mid,
                (session_present, conn@.connection_id),
                k,
                c.username,
                id,
                will_of(c),
                c.clean_session,
                earlier_will,
                counted,
                reported,
            );
            lemma_name_not_empty(c, m.channels[id].connection_id);
        }
        let ghost generation = conn@.connection_id;
        let ghost made = connection_of(m, id, c, k.0, generation);
        let announced: Result<(), MqttError> = self.announce(id, &conn, session_present);
        let ghost w = Reports {
            counted,
            reported,
            registered: mid,
            own_counted: self.session_store.counted(k.0),
            own_reported: self.retained_store.reported(k.0),
        };
        assert(reports_of(
            self.session_store,
            self.retained_store,
            w.registered,
            k.0,
            w.own_counted,
            w.own_reported,
        ));
        let mut own_will: AclDecision = AclDecision::Deny;
        let r: Result<ServerConnection, MqttError> = match announced {
            Err(e) => {
                own_will = self.end_connection_asking(&conn, false);
                Err(e)
            },
            Ok(()) => Ok(conn),
        };
        proof {
            let v = Verdict { tenant: k.0, auth, earlier_will, own_will };
            assert(tells(
                mid,
                self@,
                result_of(r),
                id,
                session_present,
                made,
                own_will,
                w.own_counted,
                w.own_reported,
            ));
            assert(broker::registers(
                m,
                mid,
                (session_present, generation),
                k,
                c.username,
                id,
                will_of(c),
                c.clean_session,
                v.earlier_will,
                w.counted,
                w.reported,
            ));
            assert(finishes(m, self@, result_of(r), id, c, v, w));
            assert(v.auth.accepted && r is Err ==> own_will_asked(
                old(self).acl_checker,
                m,
                k.0,
                c,
                v.own_will,
            ));
            assert(broker::will_asked(old(self).acl_checker, m, k, v.earlier_will));
            assert(reports_fit(
                old(self).session_store,
                old(self).retained_store,
                old(self)@,
                (
                    text::opt_chars(scope),
                    client_name(connect@, old(self)@.channels[id].connection_id),
                ),
                v.auth.accepted,
                w,
            ));
        }
        r
    }

    /// Finishes a CONNECT of a connection of the table that counts already, as the
    /// hooks decide. They are told where the client connects from.
    pub fn finish_connect(&mut self, id: u64, connect: &ConnectPacket) -> (r: Result<
        ServerConnection,
        MqttError,
    >)
        requires
            old(self)@.channels.contains_key(id),
            old(self)@.active_connections > 0,
        ensures
            final(self).hooks() == old(self).hooks(),
            exists|tenant: Option<TenantId>, v: Verdict, w: Reports|
                {
                    let key = (
                        text::opt_chars(tenant),
                        client_name(connect@, old(self)@.channels[id].connection_id),
                    );
                    &&& call_ensures(
                        T::resolve,
                        (&old(self).tenant_resolver, connect, old(self)@.channels[id].remote_addr),
                        tenant,
                    )
                    &&& exists|t: Option<&TenantId>|
                        text::opt_ref_chars(t) == text::opt_chars(tenant) && #[trigger] call_ensures(
                            A::authenticate,
                            (
                                &old(self).authenticator,
                                t,
                                connect,
                                old(self)@.channels[id].remote_addr,
                            ),
                            v.auth,
                        )
                    &&& v.tenant == text::opt_chars(tenant)
                    &&& v.auth.accepted ==> broker::will_asked(
                        old(self).acl_checker,
                        old(self)@,
                        key,
                        v.earlier_will,
                    )
                    &&& v.auth.accepted && r is Err ==> own_will_asked(
                        old(self).acl_checker,
                        old(self)@,
                        key.0,
                        connect@,
                        v.own_will,
                    )
                    &&& #[trigger] finishes(
                        old(self)@,
                        final(self)@,
                        result_of(r),
                        id,
                        connect@,
                        v,
                        w,
                    )
                    &&& #[trigger] reports_fit(
                        old(self).session_store,
                        old(self).retained_store,
                        old(self)@,
                        (
                            text::opt_chars(tenant),
                            client_name(connect@, old(self)@.channels[id].connection_id),
                        ),
                        v.auth.accepted,
                        w,
                    )
                },
    {
        let remote_addr: Option<SocketAddress> = match self.channels.get(id) {
            Some(ch) => ch.remote_addr(),
            None => None,
        };
        let tenant: Option<TenantId> = self.resolve_tenant(connect, remote_addr);
        let t: Option<&TenantId> = opt_as_ref(&tenant);
        let ghost asked_in = t;
        let auth: AuthResult = self.authenticate(t, connect, remote_addr);
        assert(call_ensures(
            A::authenticate,
            (&old(self).authenticator, asked_in, connect, old(self)@.channels[id].remote_addr),
            auth,
        ));
        self.finish_connect_authenticated(id, connect, tenant, auth)
    }

    /// Tells a client that it is registered, and sends the messages of a session that
    /// goes on again.
    fn announce(&mut self, id: u64, conn: &ServerConnection, session_present: bool) -> (r: Result<
        (),
        MqttError,
    >)
        requires
            old(self)@.channels.contains_key(id),
        ensures
            final(self).hooks() == old(self).hooks(),
            final(self).session_store == old(self).session_store,
            final(self).retained_store == old(self).retained_store,
            ({
                let ready = made_ready(old(self)@, id, conn@);
                let told = answered(
                    ready,
                    id,
                    connack(session_present, ConnackReturnCode::Accepted),
                );
                &&& r == channel::send_result(ready.channels[id])
                &&& r is Err ==> final(self)@ == ready
                &&& r is Ok && !session_present ==> final(self)@ == told
                &&& r is Ok && session_present ==> exists|
                    messages: Seq<packet::PublishModel>,
                    ids: Seq<u16>,
                | #[trigger]
                    requests::lists_again(messages, ids, told.channels[id].session)
                        && final(self)@ == (broker::BrokerModel {
                        channels: told.channels.insert(
                            id,
                            requests::sent_all(told.channels[id], messages),
                        ),
                        ..told
                    })
            }),
    {
        let ghost mid = self@;
        match self.channels.remove(id) {
            Some(channel) => {
                let mut channel = channel;
                channel.session.bind_once(
                    BindInfo { client_id: conn.client_id.clone(), keep_alive: conn.keep_alive },
                );
                self.channels.insert(id, channel);
            },
            None => {},
        }
        let ghost ready = made_ready(mid, id, conn@);
        assert(self@ =~= ready);
        let connack_packet = Packet::Connack(
            ConnackPacket {
                session_present,
                return_code: ConnackReturnCode::Accepted,
                properties: Properties::default(),
            },
        );
        assert(channel::CmdModel::Packet(connack_packet@) =~= connack(
            session_present,
            ConnackReturnCode::Accepted,
        ));
        match self.answer(id, connack_packet) {
            Err(e) => {
                assert(self@ =~= ready);
                Err(e)
            },
            Ok(()) => {
                let ghost told = self@;
                if session_present {
                    match self.channels.remove(id) {
                        Some(channel) => {
                            let mut channel = channel;
                            retransmit_inflight(&mut channel);
                            self.channels.insert(id, channel);
                            proof {
                                let (messages, ids) = choose|
                                    messages: Seq<packet::PublishModel>,
                                    ids: Seq<u16>,
                                | #[trigger]
                                    requests::lists_again(
                                        messages,
                                        ids,
                                        told.channels[id].session,
                                    ) && channel@ == requests::sent_all(told.channels[id], messages);
                                assert(self@ =~= (broker::BrokerModel {
                                    channels: told.channels.insert(
                                        id,
                                        requests::sent_all(told.channels[id], messages),
                                    ),
                                    ..told
                                }));
                                assert(requests::lists_again(
                                    messages,
                                    ids,
                                    told.channels[id].session,
                                ));
                            }
                        },
                        None => {},
                    }
                }
                Ok(())
            },
        }
    }
}

/// Whether this is what the access rules were asked about the will of a new client,
/// and answered.
pub open spec fn own_will_asked<C: AclChecker>(
    acl: C,
    m: broker::BrokerModel,
    tenant: Option<Seq<char>>,
    c: packet::ConnectModel,
    d: AclDecision,
) -> bool {
    match c.will {
        Some(w) => broker::publish_asked(
            acl,
            m,
            tenant,
            Seq::empty(),
            c.username,
            w.topic,
            d,
        ),
        None => d == AclDecision::Deny,
    }
}

proof fn lemma_name_not_empty(c: packet::ConnectModel, connection_id: u64)
    ensures
        client_name(c, connection_id).len() > 0,
{
    reveal_strlit("hotaru-auto-");
}

/// Whether these are reports of stores that hold what those of a state hold.
pub open spec fn reports_of<S: SessionStore, R: RetainedStore>(
    sessions_store: S,
    retained_store: R,
    m: broker::BrokerModel,
    tenant: Option<Seq<char>>,
    counted: usize,
    reported: usize,
) -> bool {
    &&& sessions_store.saved() == m.saved
    &&& retained_store.kept() == m.retained
    &&& counted == sessions_store.counted(tenant)
    &&& reported == retained_store.reported(tenant)
}

/// Whether these are the reports of the stores while a CONNECT is finished: first on
/// the tenant of whoever is registered under the client's name and, if the client is
/// accepted, then on its own, from stores that hold what they hold right after the
/// registration.
pub open spec fn reports_fit<S: SessionStore, R: RetainedStore>(
    sessions_store: S,
    retained_store: R,
    m: broker::BrokerModel,
    key: keyed::KeyModel,
    accepted: bool,
    w: Reports,
) -> bool {
    &&& reports_of(
        sessions_store,
        retained_store,
        m,
        m.sessions[key].tenant,
        w.counted,
        w.reported,
    )
    &&& accepted ==> exists|s: S, q: R| #[trigger]
        reports_of(s, q, w.registered, key.0, w.own_counted, w.own_reported)
}

/// A registration takes no connection away and counts none.
pub proof fn lemma_register_keeps(
    m: broker::BrokerModel,
    n: broker::BrokerModel,
    r: (bool, u64),
    key: keyed::KeyModel,
    username: Option<Seq<char>>,
    connection: u64,
    will: Option<request::WillMessageModel>,
    clean_session: bool,
    decision: AclDecision,
    counted: usize,
    reported: usize,
)
    requires
        broker::registers(
            m,
            n,
            r,
            key,
            username,
            connection,
            will,
            clean_session,
            decision,
            counted,
            reported,
        ),
    ensures
        n.active_connections == m.active_connections,
        n.safety == m.safety,
        forall|id: u64| #[trigger] m.channels.contains_key(id) ==> n.channels.contains_key(id),
        n.sessions == m.sessions.insert(
            key,
            (broker::EntryModel {
                channel: connection,
                filters: tree::client_filters(n.subscriptions, key),
                will,
                clean_session,
                tenant: key.0,
                username,
                connection_id: r.1,
            }),
        ),
{
    let mid = choose|mid: broker::BrokerModel| #[trigger]
        broker::takes_over(m, mid, key, decision, counted, reported) && (n, r)
            == broker::installed(mid, key, username, connection, will, clean_session);
    if m.sessions.contains_key(key) {
        let e = m.sessions[key];
        lemma_cleanup_channels(
            broker::BrokerModel {
                sessions: m.sessions.remove(key),
                channels: delivery::with_channel(
                    m.channels,
                    e.channel,
                    channel::closed(m.channels[e.channel]),
                ),
                ..m
            },
            mid,
            e,
            key.1,
            false,
            decision,
            counted,
            reported,
        );
        assert forall|id: u64| #[trigger] m.channels.contains_key(id) implies n.channels.contains_key(
            id,
        ) by {
            assert(delivery::with_channel(
                m.channels,
                e.channel,
                channel::closed(m.channels[e.channel]),
            ).contains_key(id));
        }
    }
}

/// The end of a registration takes no connection away and counts none.
pub proof fn lemma_unregister_keeps(
    m: broker::BrokerModel,
    n: broker::BrokerModel,
    key: keyed::KeyModel,
    connection_id: u64,
    graceful: bool,
    decision: AclDecision,
    counted: usize,
    reported: usize,
)
    requires
        broker::unregisters(m, n, key, connection_id, graceful, decision, counted, reported),
    ensures
        n.active_connections == m.active_connections,
        forall|id: u64| #[trigger] m.channels.contains_key(id) ==> n.channels.contains_key(id),
{
    if m.sessions.contains_key(key) && m.sessions[key].connection_id == connection_id {
        lemma_cleanup_channels(
            broker::BrokerModel { sessions: m.sessions.remove(key), ..m },
            n,
            m.sessions[key],
            key.1,
            graceful,
            decision,
            counted,
            reported,
        );
    }
}

proof fn lemma_cleanup_channels(
    m: broker::BrokerModel,
    n: broker::BrokerModel,
    e: broker::EntryModel,
    client: Seq<char>,
    graceful: bool,
    decision: AclDecision,
    counted: usize,
    reported: usize,
)
    requires
        broker::cleans_up(m, n, e, client, graceful, decision, counted, reported),
    ensures
        n.active_connections == m.active_connections,
        n.safety == m.safety,
        n.sessions == m.sessions,
        forall|id: u64| #[trigger] m.channels.contains_key(id) ==> n.channels.contains_key(id),
{
    let rest = broker::put_away(m, e, client, counted);
    if let Some(w) = e.will {
        if !graceful {
            let p = broker::will_publish(w);
            assert forall|id: u64| #[trigger] m.channels.contains_key(id) implies n.channels.contains_key(
                id,
            ) by {
                crate::broker::laws::lemma_publish_keeps_channels(
                    rest,
                    n,
                    e.tenant,
                    Seq::empty(),
                    p,
                    decision,
                    reported,
                    id,
                );
            }
        }
    }
}

// ----------------------------------------------------------------------------
// Laws
// ----------------------------------------------------------------------------

/// No more connections count than may be.
pub proof fn law_connections_bounded(m: broker::BrokerModel, id: u64, p: packet::PacketModel)
    requires
        m.active_connections <= broker::connection_cap(m),
    ensures
        begun(m, id, p).0.active_connections <= broker::connection_cap(m),
        begun(m, id, p).1 is Ok <==> begun(m, id, p).0.active_connections == m.active_connections
            + 1,
{
}

/// A client that names itself is turned away from a broker that is full before any
/// hook is asked: it is told that the server is unavailable, and nothing more, and the
/// number of connections stays.
pub proof fn law_full_broker_turns_away(m: broker::BrokerModel, id: u64, c: packet::ConnectModel)
    requires
        m.channels.contains_key(id),
        m.active_connections >= broker::connection_cap(m),
        c.client_id.len() > 0,
    ensures
        ({
            let (n, r) = begun(m, id, packet::PacketModel::Connect(c));
            &&& r == refused::<()>(ConnackReturnCode::ServerUnavailable)
            &&& n.active_connections == m.active_connections
            &&& n.sessions == m.sessions
            &&& channel::send_result(m.channels[id]) is Ok ==> n.channels[id].queue
                == m.channels[id].queue.push(connack(false, ConnackReturnCode::ServerUnavailable))
        }),
{
}

/// A CONNECT that is refused, for whatever reason, is answered with its reason and
/// leaves nothing else behind: who is registered, subscribed, retained or saved, the
/// other connections and their number are as they were.
pub proof fn law_refused_connect_leaves_nothing(
    m: broker::BrokerModel,
    n: broker::BrokerModel,
    r: Result<ServerModel, MqttError>,
    id: u64,
    c: packet::ConnectModel,
    v: Verdict,
    w: Reports,
    other: u64,
)
    requires
        m.channels.contains_key(id),
        ({
            let (b, admitted) = begun(m, id, packet::PacketModel::Connect(c));
            if admitted is Ok {
                !v.auth.accepted && finishes(b, n, r, id, c, v, w)
            } else {
                n == b && r == Err::<ServerModel, MqttError>(admitted->Err_0)
            }
        }),
    ensures
        n.sessions == m.sessions,
        n.subscriptions == m.subscriptions,
        n.retained == m.retained,
        n.saved == m.saved,
        n.active_connections == m.active_connections,
        other != id && m.channels.contains_key(other) ==> n.channels.contains_key(other)
            && n.channels[other] == m.channels[other],
        r matches Err(MqttError::Protocol(Violation::ConnectionRefused(code))) && (
        channel::send_result(m.channels[id]) is Ok ==> n.channels[id].queue
            == m.channels[id].queue.push(connack(false, code))),
{
}

/// A client that was registered and cannot be told so is put away like one that is
/// lost: it is no longer registered, and its session is saved if it is to outlive its
/// connection and the tenant has room for it, and only then.
pub proof fn law_untold_client_is_put_away(
    m: broker::BrokerModel,
    n: broker::BrokerModel,
    r: Result<ServerModel, MqttError>,
    id: u64,
    c: packet::ConnectModel,
    v: Verdict,
    w: Reports,
)
    requires
        v.auth.accepted,
        r is Err,
        finishes(m, n, r, id, c, v, w),
    ensures
        ({
            let key = (v.tenant, client_name(c, m.channels[id].connection_id));
            &&& !n.sessions.contains_key(key)
            &&& n.saved.contains_key(key) <==> !c.clean_session && w.own_counted
                < broker::saved_cap(w.registered)
        }),
{
    let key = (v.tenant, client_name(c, m.channels[id].connection_id));
    let (present, generation) = choose|present: bool, generation: u64|
        {
            &&& #[trigger] broker::registers(
                m,
                w.registered,
                (present, generation),
                key,
                c.username,
                id,
                will_of(c),
                c.clean_session,
                v.earlier_will,
                w.counted,
                w.reported,
            )
            &&& tells(
                w.registered,
                n,
                r,
                id,
                present,
                connection_of(m, id, c, v.tenant, generation),
                v.own_will,
                w.own_counted,
                w.own_reported,
            )
        };
    let mid = choose|mid: broker::BrokerModel| #[trigger]
        broker::takes_over(m, mid, key, v.earlier_will, w.counted, w.reported) && (
            w.registered,
            (present, generation),
        ) == broker::installed(mid, key, c.username, id, will_of(c), c.clean_session);
    assert(w.registered.sessions.contains_key(key));
    assert(!w.registered.saved.contains_key(key));
}

/// Every connection that counts stops counting once, at the latest when it ends: a
/// CONNECT that is finished with an error counts no more, and one that is finished
/// without goes on counting.
pub proof fn law_connection_counts_until_it_ends(
    m: broker::BrokerModel,
    n: broker::BrokerModel,
    r: Result<ServerModel, MqttError>,
    id: u64,
    c: packet::ConnectModel,
    v: Verdict,
    w: Reports,
)
    requires
        m.channels.contains_key(id),
        m.active_connections > 0,
        finishes(m, n, r, id, c, v, w),
    ensures
        r is Ok ==> n.active_connections == m.active_connections,
        r is Err ==> n.active_connections == m.active_connections - 1,
{
    if v.auth.accepted {
        let key = (v.tenant, client_name(c, m.channels[id].connection_id));
        let mid = w.registered;
        let (present, generation) = choose|present: bool, generation: u64|
            {
                &&& #[trigger] broker::registers(
                    m,
                    mid,
                    (present, generation),
                    key,
                    c.username,
                    id,
                    will_of(c),
                    c.clean_session,
                    v.earlier_will,
                    w.counted,
                    w.reported,
                )
                &&& tells(
                    mid,
                    n,
                    r,
                    id,
                    present,
                    connection_of(m, id, c, v.tenant, generation),
                    v.own_will,
                    w.own_counted,
                    w.own_reported,
                )
            };
        lemma_register_keeps(
            m,
            mid,
            (present, generation),
            key,
            c.username,
            id,
            will_of(c),
            c.clean_session,
            v.earlier_will,
            w.counted,
            w.reported,
        );
        let conn = connection_of(m, id, c, v.tenant, generation);
        let ready = made_ready(mid, id, conn);
        if channel::send_result(ready.channels[id]) is Err {
            let gone = choose|gone: broker::BrokerModel| #[trigger]
                broker::unregisters(
                    ready,
                    gone,
                    conn.key,
                    conn.connection_id,
                    false,
                    v.own_will,
                    w.own_counted,
                    w.own_reported,
                ) && n == released(gone);
            lemma_unregister_keeps(
                ready,
                gone,
                conn.key,
                conn.connection_id,
                false,
                v.own_will,
                w.own_counted,
                w.own_reported,
            );
        }
    }
}

} // verus!
