//! What the packets of an accepted connection do.
use crate::broker::broker;
use crate::broker::broker::Broker;
use crate::broker::delivery;
use crate::broker::requests;
use crate::broker::safety;
use crate::broker::server;
use crate::broker::server::ServerConnection;
use crate::broker::traits::{
    AclChecker, AclDecision, Authenticator, RetainedStore, SessionStore, TenantResolver,
};
use crate::broker::tree;
use crate::channel;
use crate::channel::ack_inbound_publish_pre_chain;
use crate::error::{MqttError, Violation};
use crate::keyed;
use crate::packet;
use crate::packet::{Packet, PublishPacket, SubackPacket, SubscribePacket, UnsubackPacket};
use crate::request;
use crate::request::{IncomingPublish, QoS, SubackCode, TopicFilter};
use crate::session;
use std::sync::Arc;
use vstd::prelude::*;

verus! {

pub open spec fn receive_cap(m: broker::BrokerModel) -> usize {
    broker::or_else(
        m.safety.receive_maximum_inbound,
        crate::safety::DEFAULT_RECEIVE_MAXIMUM_INBOUND,
    )
}

pub open spec fn filter_cap(m: broker::BrokerModel) -> usize {
    broker::or_else(
        m.safety.max_filters_per_subscribe,
        crate::safety::DEFAULT_MAX_FILTERS_PER_SUBSCRIBE,
    )
}

pub open spec fn with_own(
    m: broker::BrokerModel,
    id: u64,
    c: channel::ChannelModel,
) -> broker::BrokerModel {
    broker::BrokerModel { channels: m.channels.insert(id, c), ..m }
}

/// The state and the connection after a message was put in line for its fan-out. A
/// line that is full closes the connection where the policy says so; otherwise the
/// message is dropped.
pub open spec fn lined_up(
    m: broker::BrokerModel,
    c: server::ServerModel,
    p: packet::PublishModel,
) -> (broker::BrokerModel, server::ServerModel) {
    if c.fanout.len() < c.capacity {
        (m, server::ServerModel { fanout: c.fanout.push(p), ..c })
    } else if safety::closes(broker::policy_of(m), p.qos) {
        (with_own(m, c.channel, channel::closed(m.channels[c.channel])), c)
    } else {
        (m, c)
    }
}

/// A message that was kept until its release, as it goes on from there.
pub open spec fn released_message(p: packet::PublishModel, id: u16) -> packet::PublishModel {
    packet::PublishModel { dup: false, packet_id: Some(id), ..p }
}

/// The filters that were granted, with their levels.
pub open spec fn granted(filters: Seq<(Seq<char>, QoS)>, codes: Seq<SubackCode>) -> Seq<(Seq<char>, QoS)>
    decreases filters.len(),
{
    if filters.len() == 0 || codes.len() == 0 {
        Seq::empty()
    } else {
        let front = granted(filters.drop_last(), codes.drop_last());
        match codes.last() {
            SubackCode::Granted(q) => front.push((filters.last().0, q)),
            SubackCode::Failure => front,
        }
    }
}

/// One answer to every filter of an UNSUBSCRIBE: it is gone.
pub open spec fn unsuback_codes(n: nat) -> Seq<u8> {
    Seq::new(n, |i: int| 0u8)
}

/// Whether these are the answers of the access rules that a packet needs. They are
/// asked for each filter of a SUBSCRIBE that has no more than it may have.
pub open spec fn decided<C: AclChecker>(
    acl: C,
    m: broker::BrokerModel,
    c: server::ServerModel,
    p: packet::PacketModel,
    decisions: Seq<AclDecision>,
) -> bool {
    match p {
        packet::PacketModel::Subscribe { subscriptions, .. } => if subscriptions.len()
            > filter_cap(m) {
            decisions == Seq::new(subscriptions.len(), |i: int| AclDecision::Deny)
        } else {
            requests::all_asked(acl, m, c.key, subscriptions, decisions)
        },
        _ => decisions.len() == 0,
    }
}

/// Whether this state, connection and result follow from a packet. `decisions`
/// says for each filter of a SUBSCRIBE whether the client may.
///
/// A message is acknowledged first; above that, one at QoS 2 waits for its release,
/// and any other is put in line. A SUBSCRIBE or UNSUBSCRIBE with more filters than
/// may be fails; the answer to a SUBSCRIBE goes out before the retained messages.
pub open spec fn dispatches(
    m: broker::BrokerModel,
    c: server::ServerModel,
    p: packet::PacketModel,
    decisions: Seq<AclDecision>,
    n: broker::BrokerModel,
    d: server::ServerModel,
    r: Result<(), MqttError>,
) -> bool {
    let id = c.channel;
    match p {
        packet::PacketModel::Publish(p) => {
            let (own, acked) = channel::acked_inbound(m.channels[id], p, receive_cap(m));
            let mid = with_own(m, id, own);
            &&& r == acked
            &&& (n, d) == (if acked is Err || p.qos == QoS::ExactlyOnce {
                (mid, c)
            } else {
                lined_up(mid, c, p)
            })
        },
        packet::PacketModel::Subscribe { packet_id, subscriptions } => {
            &&& d == c
            &&& if subscriptions.len() > filter_cap(m) {
                n == m && r == too_many(subscriptions.len(), filter_cap(m))
            } else {
                let (mid, codes) = requests::subscribed(m, c.key, subscriptions, decisions);
                let told = server::answered(
                    mid,
                    id,
                    channel::CmdModel::Packet(
                        packet::PacketModel::Suback { packet_id, return_codes: codes },
                    ),
                );
                &&& r == channel::send_result(m.channels[id])
                &&& if r is Ok {
                    requests::replays(told, n, c.key, granted(subscriptions, codes))
                } else {
                    n == mid
                }
            }
        },
        packet::PacketModel::Unsubscribe { packet_id, topics } => {
            &&& d == c
            &&& if topics.len() > filter_cap(m) {
                n == m && r == too_many(topics.len(), filter_cap(m))
            } else {
                &&& r == channel::send_result(m.channels[id])
                &&& n == server::answered(
                    requests::unsubscribed(m, c.key, topics),
                    id,
                    channel::CmdModel::Packet(
                        packet::PacketModel::Unsuback {
                            packet_id,
                            reason_codes: unsuback_codes(topics.len()),
                        },
                    ),
                )
            }
        },
        packet::PacketModel::Pingreq => {
            &&& d == c
            &&& r == channel::send_result(m.channels[id])
            &&& n == server::answered(
                m,
                id,
                channel::CmdModel::Packet(packet::PacketModel::Pingresp),
            )
        },
        packet::PacketModel::Puback(k) => {
            d == c && r is Ok && n == requests::acknowledged(m, c.key, k)
        },
        packet::PacketModel::Pubcomp(k) => {
            d == c && r is Ok && n == requests::acknowledged(m, c.key, k)
        },
        packet::PacketModel::Pubrec(k) => {
            &&& d == c
            &&& r == channel::send_result(m.channels[id])
            &&& n == server::answered(
                m,
                id,
                channel::CmdModel::Packet(packet::PacketModel::Pubrel(k)),
            )
        },
        packet::PacketModel::Pubrel(k) => {
            let own = m.channels[id];
            let taken = with_own(
                m,
                id,
                channel::ChannelModel {
                    session: session::SessionModel {
                        qos2_recv: own.session.qos2_recv.remove(k),
                        ..own.session
                    },
                    ..own
                },
            );
            let (mid, e) = if own.session.qos2_recv.contains_key(k) {
                lined_up(taken, c, released_message(own.session.qos2_recv[k], k))
            } else {
                (taken, c)
            };
            &&& d == e
            &&& r == channel::send_result(own)
            &&& n == server::answered(
                mid,
                id,
                channel::CmdModel::Packet(packet::PacketModel::Pubcomp(k)),
            )
        },
        packet::PacketModel::Connect(_) => {
            &&& n == m
            &&& d == c
            &&& r == Err::<(), MqttError>(MqttError::Protocol(Violation::SessionAlreadyBound))
        },
        _ => n == m && d == c && r is Ok,
    }
}

pub open spec fn too_many(count: nat, max: usize) -> Result<(), MqttError> {
    Err(MqttError::Protocol(Violation::TooManyFilters { count: count as usize, max }))
}

fn granted_filters(filters: &Vec<TopicFilter>, codes: &Vec<SubackCode>) -> (r: Vec<
    (Arc<str>, QoS),
>)
    requires
        filters@.len() == codes@.len(),
    ensures
        tree::targets(r@) == granted(request::filters_of(filters@), codes@),
{
    let ghost all = request::filters_of(filters@);
    let mut out: Vec<(Arc<str>, QoS)> = Vec::new();
    let mut i: usize = 0;
    assert(tree::targets(out@) =~= Seq::<(Seq<char>, QoS)>::empty());
    while i < filters.len()
        invariant
            i <= filters@.len(),
            filters@.len() == codes@.len(),
            all == request::filters_of(filters@),
            tree::targets(out@) == granted(all.take(i as int), codes@.take(i as int)),
        decreases filters@.len() - i,
    {
        proof {
            assert(all.take(i + 1).drop_last() =~= all.take(i as int));
            assert(codes@.take(i + 1).drop_last() =~= codes@.take(i as int));
            assert(all.take(i + 1).last() == all[i as int]);
        }
        match codes[i] {
            SubackCode::Granted(q) => {
                let ghost before = out@;
                out.push((filters[i].filter.clone(), q));
                assert(tree::targets(out@) =~= tree::targets(before).push((all[i as int].0, q)));
            },
            SubackCode::Failure => {},
        }
        i += 1;
    }
    proof {
        assert(all.take(i as int) =~= all);
        assert(codes@.take(i as int) =~= codes@);
    }
    out
}

fn filters_from(s: &SubscribePacket) -> (r: Vec<TopicFilter>)
    ensures
        request::filters_of(r@) == packet::subscriptions_of(s.subscriptions@),
{
    let ghost all = packet::subscriptions_of(s.subscriptions@);
    let mut out: Vec<TopicFilter> = Vec::new();
    let mut i: usize = 0;
    while i < s.subscriptions.len()
        invariant
            i <= s.subscriptions@.len(),
            all == packet::subscriptions_of(s.subscriptions@),
            request::filters_of(out@) =~= all.take(i as int),
        decreases s.subscriptions@.len() - i,
    {
        let ts = &s.subscriptions[i];
        let ghost before = out@;
        out.push(TopicFilter { filter: ts.topic.clone(), qos: ts.qos });
        assert(request::filters_of(out@) =~= request::filters_of(before).push(all[i as int]));
        i += 1;
    }
    assert(all.take(i as int) =~= all);
    out
}

fn zeros(n: usize) -> (r: Vec<u8>)
    ensures
        r@ == unsuback_codes(n as nat),
{
    let mut out: Vec<u8> = Vec::new();
    let mut i: usize = 0;
    while i < n
        invariant
            i <= n,
            out@ =~= unsuback_codes(i as nat),
        decreases n - i,
    {
        out.push(0);
        i += 1;
    }
    out
}

proof fn lemma_subscribe_keeps(
    m: broker::BrokerModel,
    key: keyed::KeyModel,
    filters: Seq<(Seq<char>, QoS)>,
    decisions: Seq<AclDecision>,
    n: nat,
)
    requires
        n <= filters.len(),
    ensures
        requests::subscribe_steps(m, key, filters, decisions, n).0.channels == m.channels,
        requests::subscribe_steps(m, key, filters, decisions, n).1.len() == n,
    decreases n,
{
    if n > 0 {
        lemma_subscribe_keeps(m, key, filters, decisions, (n - 1) as nat);
    }
}

proof fn lemma_unsubscribe_keeps(
    m: broker::BrokerModel,
    key: keyed::KeyModel,
    topics: Seq<Seq<char>>,
    n: nat,
)
    requires
        n <= topics.len(),
    ensures
        requests::unsubscribe_steps(m, key, topics, n).channels == m.channels,
    decreases n,
{
    if n > 0 {
        lemma_unsubscribe_keeps(m, key, topics, (n - 1) as nat);
    }
}

impl ServerConnection {
    /// Takes the oldest message out of the line.
    pub fn next_fanout(&mut self) -> (r: Option<PublishPacket>)
        ensures
            old(self)@.fanout.len() == 0 ==> r is None && final(self)@ == old(self)@,
            old(self)@.fanout.len() > 0 ==> {
                &&& r is Some
                &&& r->0@ == old(self)@.fanout[0]
                &&& final(self)@ == (server::ServerModel {
                    fanout: old(self)@.fanout.drop_first(),
                    ..old(self)@
                })
            },
    {
        if self.fanout.len() == 0 {
            return None;
        }
        let p = self.fanout.remove(0);
        assert(requests::messages_of(self.fanout@) =~= requests::messages_of(
            old(self).fanout@,
        ).drop_first());
        Some(p)
    }
}

impl<
    A: Authenticator,
    C: AclChecker,
    T: TenantResolver,
    R: RetainedStore,
    S: SessionStore,
> Broker<A, C, T, R, S> {
    /// Puts a message in line for its fan-out.
    fn line_up(&mut self, conn: &mut ServerConnection, packet: PublishPacket)
        requires
            old(self)@.channels.contains_key(old(conn)@.channel),
        ensures
            final(self).hooks() == old(self).hooks(),
            (final(self)@, final(conn)@) == lined_up(old(self)@, old(conn)@, packet@),
    {
        if conn.fanout.len() < conn.capacity {
            conn.fanout.push(packet);
            assert(requests::messages_of(conn.fanout@) =~= requests::messages_of(
                old(conn).fanout@,
            ).push(packet@));
        } else if self.broker_safety.slow_consumer_policy().should_close_on_overflow(packet.qos) {
            match self.channels.remove(conn.channel) {
                Some(channel) => {
                    let mut channel = channel;
                    let _waiters = channel.close();
                    self.channels.insert(conn.channel, channel);
                    assert(self@ =~= with_own(old(self)@, conn@.channel, channel@));
                },
                None => {},
            }
        }
    }

    /// Does what a packet of an accepted connection asks for. `decisions` says for
    /// each filter of a SUBSCRIBE whether the client may.
    pub fn dispatch_server_inbound_decided(
        &mut self,
        conn: &mut ServerConnection,
        packet: Packet,
        decisions: &[AclDecision],
    ) -> (r: Result<(), MqttError>)
        requires
            old(self)@.channels.contains_key(old(conn)@.channel),
            packet matches Packet::Subscribe(s) ==> s.subscriptions@.len() == decisions@.len(),
        ensures
            final(self).hooks() == old(self).hooks(),
            dispatches(
                old(self)@,
                old(conn)@,
                packet@,
                decisions@,
                final(self)@,
                final(conn)@,
                r,
            ),
    {
        let id: u64 = conn.channel;
        let ghost m = self@;
        let ghost c = conn@;
        match packet {
            Packet::Publish(publish) => {
                let receive_max: usize = self.safety.receive_maximum_inbound();
                let r: Result<(), MqttError> = match self.channels.remove(id) {
                    Some(channel) => {
                        let mut channel = channel;
                        let r = ack_inbound_publish_pre_chain(&mut channel, &publish, receive_max);
                        self.channels.insert(id, channel);
                        assert(self@ =~= with_own(m, id, channel@));
                        r
                    },
                    None => Ok(()),
                };
                match r {
                    Err(e) => Err(e),
                    Ok(()) => {
                        if publish.qos != QoS::ExactlyOnce {
                            self.line_up(conn, publish);
                        }
                        Ok(())
                    },
                }
            },
            Packet::Subscribe(s) => {
                let max_filters: usize = self.safety.max_filters_per_subscribe();
                if s.subscriptions.len() > max_filters {
                    return Err(
                        MqttError::Protocol(
                            Violation::TooManyFilters {
                                count: s.subscriptions.len(),
                                max: max_filters,
                            },
                        ),
                    );
                }
                let filters: Vec<TopicFilter> = filters_from(&s);
                let ghost all = packet::subscriptions_of(s.subscriptions@);
                proof {
                    assert(request::filters_of(filters@).len() == all.len());
                    lemma_subscribe_keeps(m, c.key, all, decisions@, all.len());
                }
                let codes: Vec<SubackCode> = self.subscribe_decided(
                    &conn.tenant,
                    &conn.client_id,
                    filters.as_slice(),
                    decisions,
                );
                let given: Vec<(Arc<str>, QoS)> = granted_filters(&filters, &codes);
                let suback = Packet::Suback(
                    SubackPacket { packet_id: s.packet_id, return_codes: codes },
                );
                match self.answer(id, suback) {
                    Err(e) => {
                        assert(self@ =~= requests::subscribed(m, c.key, all, decisions@).0);
                        Err(e)
                    },
                    Ok(()) => {
                        self.replay_retained_for_subscribe(
                            &conn.tenant,
                            &conn.client_id,
                            given.as_slice(),
                        );
                        Ok(())
                    },
                }
            },
            Packet::Unsubscribe(u) => {
                let max_filters: usize = self.safety.max_filters_per_subscribe();
                if u.topics.len() > max_filters {
                    return Err(
                        MqttError::Protocol(
                            Violation::TooManyFilters { count: u.topics.len(), max: max_filters },
                        ),
                    );
                }
                let ghost all = packet::names_of(u.topics@);
                proof {
                    lemma_unsubscribe_keeps(m, c.key, all, all.len());
                }
                self.unsubscribe(&conn.tenant, &conn.client_id, u.topics.as_slice());
                let count: usize = u.topics.len();
                self.answer(
                    id,
                    Packet::Unsuback(
                        UnsubackPacket { packet_id: u.packet_id, reason_codes: zeros(count) },
                    ),
                )
            },
            Packet::Pingreq => self.answer(id, Packet::Pingresp),
            Packet::Puback(k) => {
                self.ack_outbound(&conn.tenant, &conn.client_id, k);
                Ok(())
            },
            Packet::Pubrec(k) => self.answer(id, Packet::Pubrel(k)),
            Packet::Pubcomp(k) => {
                self.ack_outbound(&conn.tenant, &conn.client_id, k);
                Ok(())
            },
            Packet::Pubrel(k) => {
                let stored: Option<IncomingPublish> = match self.channels.remove(id) {
                    Some(channel) => {
                        let mut channel = channel;
                        let stored = channel.session.take_qos2_inbound(k);
                        self.channels.insert(id, channel);
                        assert(self@ =~= with_own(m, id, channel@));
                        stored
                    },
                    None => None,
                };
                match stored {
                    Some(p) => {
                        let ghost q = p@;
                        let publish = PublishPacket {
                            topic: p.topic,
                            payload: p.payload,
                            dup: false,
                            qos: p.qos,
                            retain: p.retain,
                            packet_id: Some(k),
                            properties: p.properties,
                        };
                        assert(publish@ =~= released_message(q, k));
                        self.line_up(conn, publish);
                    },
                    None => {},
                }
                self.answer(id, Packet::Pubcomp(k))
            },
            Packet::Connect(_) => Err(MqttError::Protocol(Violation::SessionAlreadyBound)),
            _ => Ok(()),
        }
    }

    /// What the access rules say to a packet.
    fn decisions_for(&self, conn: &ServerConnection, packet: &Packet) -> (r: Vec<AclDecision>)
        ensures
            decided(self.acl_checker, self@, conn@, packet@, r@),
            packet matches Packet::Subscribe(s) ==> s.subscriptions@.len() == r@.len(),
    {
        match packet {
            Packet::Subscribe(s) => {
                let ghost all = packet::subscriptions_of(s.subscriptions@);
                if s.subscriptions.len() > self.safety.max_filters_per_subscribe() {
                    let mut refused: Vec<AclDecision> = Vec::new();
                    while refused.len() < s.subscriptions.len()
                        invariant
                            refused@.len() <= s.subscriptions@.len(),
                            refused@ == Seq::new(refused@.len(), |i: int| AclDecision::Deny),
                        decreases s.subscriptions@.len() - refused@.len(),
                    {
                        refused.push(AclDecision::Deny);
                        assert(refused@ =~= Seq::new(refused@.len(), |i: int| AclDecision::Deny));
                    }
                    refused
                } else {
                    let filters: Vec<TopicFilter> = filters_from(s);
                    proof {
                        assert(request::filters_of(filters@) == all);
                    }
                    self.subscribe_allowed(&conn.tenant, &conn.client_id, filters.as_slice())
                }
            },
            _ => Vec::new(),
        }
    }

    /// Does what a packet of an accepted connection asks for, as far as the access
    /// rules let the client.
    pub fn dispatch_server_inbound(&mut self, conn: &mut ServerConnection, packet: Packet) -> (r:
        Result<(), MqttError>)
        requires
            old(self)@.channels.contains_key(old(conn)@.channel),
        ensures
            final(self).hooks() == old(self).hooks(),
            exists|decisions: Seq<AclDecision>|
                decided(
                    old(self).acl_checker,
                    old(self)@,
                    old(conn)@,
                    packet@,
                    decisions,
                ) && #[trigger] dispatches(
                    old(self)@,
                    old(conn)@,
                    packet@,
                    decisions,
                    final(self)@,
                    final(conn)@,
                    r,
                ),
    {
        let decisions: Vec<AclDecision> = self.decisions_for(conn, &packet);
        self.dispatch_server_inbound_decided(conn, packet, decisions.as_slice())
    }
}

// ----------------------------------------------------------------------------
// The loop of a connection
// ----------------------------------------------------------------------------

/// What happens to a connection.
pub enum ServerEvent {
    /// A packet came.
    Packet(Packet),
    /// Reading failed.
    Failed(MqttError),
    /// Nothing came for too long.
    TimedOut,
    /// The connection was closed from this side.
    Closed,
}

/// What becomes of a connection.
pub enum ServerStep {
    Continue,
    /// It ends: in good order where the client said so, and with this error.
    Stop { graceful: bool, error: Option<MqttError> },
}

/// What becomes of a connection for an event other than a packet that is to be
/// dispatched. A transport that failed ends it without an error.
pub open spec fn stop_of(e: ServerEvent) -> Option<ServerStep> {
    match e {
        ServerEvent::TimedOut => Some(ServerStep::Stop { graceful: false, error: None }),
        ServerEvent::Closed => Some(ServerStep::Stop { graceful: false, error: None }),
        ServerEvent::Failed(MqttError::Io(_)) => Some(
            ServerStep::Stop { graceful: false, error: None },
        ),
        ServerEvent::Failed(e) => Some(ServerStep::Stop { graceful: false, error: Some(e) }),
        ServerEvent::Packet(Packet::Disconnect) => Some(
            ServerStep::Stop { graceful: true, error: None },
        ),
        ServerEvent::Packet(_) => None,
    }
}

/// What becomes of a connection after a packet was dispatched with this result.
pub open spec fn step_after(r: Result<(), MqttError>) -> ServerStep {
    match r {
        Ok(_) => ServerStep::Continue,
        Err(e) => ServerStep::Stop { graceful: false, error: Some(e) },
    }
}

/// Whether this state, connection and step follow from an event. A connection that
/// is not open ends whatever the event.
pub open spec fn steps(
    m: broker::BrokerModel,
    c: server::ServerModel,
    e: ServerEvent,
    decisions: Seq<AclDecision>,
    n: broker::BrokerModel,
    d: server::ServerModel,
    r: ServerStep,
) -> bool {
    if !m.channels[c.channel].open {
        &&& n == m
        &&& d == c
        &&& r == (ServerStep::Stop { graceful: false, error: None })
    } else {
        match stop_of(e) {
            Some(s) => n == m && d == c && r == s,
            None => exists|result: Result<(), MqttError>| #[trigger]
                dispatches(m, c, e->Packet_0@, decisions, n, d, result) && r == step_after(result),
        }
    }
}

impl<
    A: Authenticator,
    C: AclChecker,
    T: TenantResolver,
    R: RetainedStore,
    S: SessionStore,
> Broker<A, C, T, R, S> {
    /// One turn of the loop of a connection.
    pub fn server_step_decided(
        &mut self,
        conn: &mut ServerConnection,
        event: ServerEvent,
        decisions: &[AclDecision],
    ) -> (r: ServerStep)
        requires
            old(self)@.channels.contains_key(old(conn)@.channel),
            event matches ServerEvent::Packet(Packet::Subscribe(s)) ==> s.subscriptions@.len()
                == decisions@.len(),
        ensures
            final(self).hooks() == old(self).hooks(),
            steps(old(self)@, old(conn)@, event, decisions@, final(self)@, final(conn)@, r),
    {
        let open: bool = match self.channels.get(conn.channel) {
            Some(channel) => channel.is_open(),
            None => false,
        };
        if !open {
            return ServerStep::Stop { graceful: false, error: None };
        }
        match event {
            ServerEvent::TimedOut => ServerStep::Stop { graceful: false, error: None },
            ServerEvent::Closed => ServerStep::Stop { graceful: false, error: None },
            ServerEvent::Failed(e) => match e {
                MqttError::Io(_) => ServerStep::Stop { graceful: false, error: None },
                e => ServerStep::Stop { graceful: false, error: Some(e) },
            },
            ServerEvent::Packet(packet) => match packet {
                Packet::Disconnect => ServerStep::Stop { graceful: true, error: None },
                packet => match self.dispatch_server_inbound_decided(conn, packet, decisions) {
                    Ok(()) => ServerStep::Continue,
                    Err(e) => ServerStep::Stop { graceful: false, error: Some(e) },
                },
            },
        }
    }

    /// One turn of the loop of a connection, as far as the access rules let the
    /// client.
    pub fn server_step(&mut self, conn: &mut ServerConnection, event: ServerEvent) -> (r: ServerStep)
        requires
            old(self)@.channels.contains_key(old(conn)@.channel),
        ensures
            final(self).hooks() == old(self).hooks(),
            exists|decisions: Seq<AclDecision>|
                {
                    &&& old(self)@.channels[old(conn)@.channel].open ==> (
                    event matches ServerEvent::Packet(p) ==> decided(
                        old(self).acl_checker,
                        old(self)@,
                        old(conn)@,
                        p@,
                        decisions,
                    ))
                    &&& #[trigger] steps(
                        old(self)@,
                        old(conn)@,
                        event,
                        decisions,
                        final(self)@,
                        final(conn)@,
                        r,
                    )
                },
    {
        let open: bool = match self.channels.get(conn.channel) {
            Some(channel) => channel.is_open(),
            None => false,
        };
        if !open {
            let r = ServerStep::Stop { graceful: false, error: None };
            assert(steps(self@, conn@, event, Seq::empty(), self@, conn@, r));
            return r;
        }
        let decisions: Vec<AclDecision> = match &event {
            ServerEvent::Packet(packet) => self.decisions_for(conn, packet),
            _ => Vec::new(),
        };
        self.server_step_decided(conn, event, decisions.as_slice())
    }

    /// Ends a connection: its registration ends, if it is still the client's, and
    /// it no longer counts. `will_decision` says whether the will may be published.
    pub fn end_connection_decided(
        &mut self,
        conn: &ServerConnection,
        graceful: bool,
        will_decision: AclDecision,
    )
        requires
            old(self)@.active_connections > 0,
        ensures
            final(self).hooks() == old(self).hooks(),
            exists|gone: broker::BrokerModel| #[trigger]
                broker::unregisters(
                    old(self)@,
                    gone,
                    conn@.key,
                    conn@.connection_id,
                    graceful,
                    will_decision,
                    old(self).session_store.counted(old(self)@.sessions[conn@.key].tenant),
                    old(self).retained_store.reported(old(self)@.sessions[conn@.key].tenant),
                ) && final(self)@ == server::released(gone),
    {
        self.unregister_session_decided(
            &conn.tenant,
            &conn.client_id,
            conn.connection_id,
            graceful,
            will_decision,
        );
        let ghost gone = self@;
        proof {
            server::lemma_unregister_keeps(
                old(self)@,
                gone,
                conn@.key,
                conn@.connection_id,
                graceful,
                will_decision,
                old(self).session_store.counted(old(self)@.sessions[conn@.key].tenant),
                old(self).retained_store.reported(old(self)@.sessions[conn@.key].tenant),
            );
        }
        self.release_connection();
        assert(self@ =~= server::released(gone));
    }

    /// Ends a connection, as above; the access rules decide on the will, where one is
    /// due. Returns what they said.
    pub(crate) fn end_connection_asking(&mut self, conn: &ServerConnection, graceful: bool) -> (r:
        AclDecision)
        requires
            old(self)@.active_connections > 0,
        ensures
            final(self).hooks() == old(self).hooks(),
            exists|gone: broker::BrokerModel| #[trigger]
                broker::unregisters(
                    old(self)@,
                    gone,
                    conn@.key,
                    conn@.connection_id,
                    graceful,
                    r,
                    old(self).session_store.counted(old(self)@.sessions[conn@.key].tenant),
                    old(self).retained_store.reported(old(self)@.sessions[conn@.key].tenant),
                ) && final(self)@ == server::released(gone),
            broker::end_asked(
                old(self).acl_checker,
                old(self)@,
                conn@.key,
                conn@.connection_id,
                graceful,
                r,
            ),
    {
        let r: AclDecision = self.unregister_session_asking(
            &conn.tenant,
            &conn.client_id,
            conn.connection_id,
            graceful,
        );
        let ghost gone = self@;
        proof {
            server::lemma_unregister_keeps(
                old(self)@,
                gone,
                conn@.key,
                conn@.connection_id,
                graceful,
                r,
                old(self).session_store.counted(old(self)@.sessions[conn@.key].tenant),
                old(self).retained_store.reported(old(self)@.sessions[conn@.key].tenant),
            );
        }
        self.release_connection();
        assert(self@ =~= server::released(gone));
        r
    }

    /// Ends a connection, as above.
    pub fn end_connection(&mut self, conn: &ServerConnection, graceful: bool)
        requires
            old(self)@.active_connections > 0,
        ensures
            final(self).hooks() == old(self).hooks(),
            exists|gone: broker::BrokerModel, decision: AclDecision| #[trigger]
                broker::unregisters(
                    old(self)@,
                    gone,
                    conn@.key,
                    conn@.connection_id,
                    graceful,
                    decision,
                    old(self).session_store.counted(old(self)@.sessions[conn@.key].tenant),
                    old(self).retained_store.reported(old(self)@.sessions[conn@.key].tenant),
                ) && final(self)@ == server::released(gone) && broker::end_asked(
                    old(self).acl_checker,
                    old(self)@,
                    conn@.key,
                    conn@.connection_id,
                    graceful,
                    decision,
                ),
    {
        let _decision: AclDecision = self.end_connection_asking(conn, graceful);
    }
}

// ----------------------------------------------------------------------------
// Handlers before the fan-out
// ----------------------------------------------------------------------------

/// What a handler made of a message.
pub enum ChainOutcome {
    /// It failed.
    Failed,
    /// It ran: whether the message goes on, and what it left of it.
    Ran { propagate: bool, incoming: Option<IncomingPublish> },
}

/// A message and whether it goes on to the subscribers.
pub struct Pending {
    pub packet: PublishPacket,
    pub fanout: bool,
}

/// The message after a handler changed it.
pub open spec fn rewritten(p: packet::PublishModel, i: packet::PublishModel) -> packet::PublishModel {
    packet::PublishModel {
        topic: i.topic,
        payload: i.payload,
        qos: i.qos,
        retain: i.retain,
        ..p
    }
}

/// Whether a handler with this outcome lets a message go on.
pub open spec fn lets_on(outcome: ChainOutcome) -> bool {
    outcome matches ChainOutcome::Ran { propagate, .. } && propagate
}

/// A message after a handler with this outcome.
pub open spec fn left_by(p: packet::PublishModel, outcome: ChainOutcome) -> packet::PublishModel {
    match outcome {
        ChainOutcome::Ran { incoming: Some(i), .. } => rewritten(p, i@),
        _ => p,
    }
}

impl Pending {
    pub fn new(packet: PublishPacket) -> (r: Pending)
        ensures
            r.packet@ == packet@,
            r.fanout,
    {
        Pending { packet, fanout: true }
    }

    /// Takes the outcome of one handler in. A handler that failed, and one that
    /// does not let the message go on, keeps it from the subscribers for good.
    pub fn after(self, outcome: ChainOutcome) -> (r: Pending)
        ensures
            r.fanout == (self.fanout && lets_on(outcome)),
            r.packet@ == left_by(self.packet@, outcome),
    {
        match outcome {
            ChainOutcome::Failed => Pending { packet: self.packet, fanout: false },
            ChainOutcome::Ran { propagate, incoming } => {
                let packet = match incoming {
                    Some(i) => PublishPacket {
                        topic: i.topic,
                        payload: i.payload,
                        qos: i.qos,
                        retain: i.retain,
                        dup: self.packet.dup,
                        packet_id: self.packet.packet_id,
                        properties: self.packet.properties,
                    },
                    None => self.packet,
                };
                Pending { packet, fanout: self.fanout && propagate }
            },
        }
    }

    /// The message, if it goes on.
    pub fn decide(self) -> (r: Option<PublishPacket>)
        ensures
            r is Some <==> self.fanout,
            r matches Some(p) ==> p@ == self.packet@,
    {
        if self.fanout {
            Some(self.packet)
        } else {
            None
        }
    }
}

// ----------------------------------------------------------------------------
// Laws
// ----------------------------------------------------------------------------

proof fn lemma_offer_keeps_order(
    c: channel::ChannelModel,
    messages: Seq<packet::PublishModel>,
    max_inflight: usize,
    policy: safety::SlowConsumerPolicy,
)
    ensures
        c.queue.is_prefix_of(
            requests::offered_all(c, messages, max_inflight, policy).queue,
        ),
    decreases messages.len(),
{
    if messages.len() > 0 {
        let next = delivery::offered(c, messages[0], max_inflight, policy);
        assert(c.queue.is_prefix_of(next.queue));
        if !delivery::overflows(c, messages[0], max_inflight, policy) {
            lemma_offer_keeps_order(next, messages.drop_first(), max_inflight, policy);
        }
    }
}

/// The answer to a SUBSCRIBE goes out before any retained message for it, and
/// behind all that was queued before.
pub proof fn law_suback_before_retained(
    m: broker::BrokerModel,
    c: server::ServerModel,
    packet_id: u16,
    subscriptions: Seq<(Seq<char>, QoS)>,
    decisions: Seq<AclDecision>,
    n: broker::BrokerModel,
    d: server::ServerModel,
)
    requires
        dispatches(
            m,
            c,
            packet::PacketModel::Subscribe { packet_id, subscriptions },
            decisions,
            n,
            d,
            Ok(()),
        ),
        m.channels.contains_key(c.channel),
    ensures
        m.channels[c.channel].queue.push(
            channel::CmdModel::Packet(
                packet::PacketModel::Suback {
                    packet_id,
                    return_codes: requests::subscribed(m, c.key, subscriptions, decisions).1,
                },
            ),
        ).is_prefix_of(n.channels[c.channel].queue),
{
    let (mid, codes) = requests::subscribed(m, c.key, subscriptions, decisions);
    lemma_subscribe_keeps(m, c.key, subscriptions, decisions, subscriptions.len());
    let told = server::answered(
        mid,
        c.channel,
        channel::CmdModel::Packet(packet::PacketModel::Suback { packet_id, return_codes: codes }),
    );
    let given = granted(subscriptions, codes);
    if told.sessions.contains_key(c.key) && told.channels.contains_key(
        told.sessions[c.key].channel,
    ) {
        let id = told.sessions[c.key].channel;
        let lists = choose|lists: Seq<Seq<(Seq<char>, crate::broker::traits::Kept)>>| #[trigger]
            requests::lists_all_retained(lists, told.retained, c.key.0, given) && n == (
            broker::BrokerModel {
                channels: told.channels.insert(
                    id,
                    requests::offered_all(
                        told.channels[id],
                        requests::replay_messages(lists, given, given.len()),
                        broker::inflight_cap(told),
                        broker::policy_of(told),
                    ),
                ),
                ..told
            });
        lemma_offer_keeps_order(
            told.channels[id],
            requests::replay_messages(lists, given, given.len()),
            broker::inflight_cap(told),
            broker::policy_of(told),
        );
    }
}

/// A message at QoS 2 goes on once: when it is released, and only then; a second
/// release sends nothing on.
pub proof fn law_exactly_once(
    m: broker::BrokerModel,
    c: server::ServerModel,
    k: u16,
    n: broker::BrokerModel,
    d: server::ServerModel,
    r: Result<(), MqttError>,
    after: broker::BrokerModel,
    e: server::ServerModel,
    again: Result<(), MqttError>,
)
    requires
        m.channels.contains_key(c.channel),
        dispatches(m, c, packet::PacketModel::Pubrel(k), Seq::empty(), n, d, r),
        dispatches(n, d, packet::PacketModel::Pubrel(k), Seq::empty(), after, e, again),
    ensures
        !n.channels[c.channel].session.qos2_recv.contains_key(k),
        e.fanout == d.fanout,
        m.channels[c.channel].session.qos2_recv.contains_key(k) && c.fanout.len() < c.capacity
            ==> d.fanout == c.fanout.push(
            released_message(m.channels[c.channel].session.qos2_recv[k], k),
        ),
        !m.channels[c.channel].session.qos2_recv.contains_key(k) ==> d.fanout == c.fanout,
{
}

/// The line for the fan-out never grows beyond its capacity, and stays in the order
/// of arrival.
pub proof fn law_line_bounded(
    m: broker::BrokerModel,
    c: server::ServerModel,
    p: packet::PacketModel,
    decisions: Seq<AclDecision>,
    n: broker::BrokerModel,
    d: server::ServerModel,
    r: Result<(), MqttError>,
)
    requires
        dispatches(m, c, p, decisions, n, d, r),
        c.fanout.len() <= c.capacity,
    ensures
        d.fanout.len() <= d.capacity,
        c.fanout.is_prefix_of(d.fanout),
{
}

} // verus!
