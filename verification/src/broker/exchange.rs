//! What a client's packets are answered with, and what they leave behind.
use crate::broker::broker;
use crate::broker::delivery;
use crate::broker::effects;
use crate::broker::fanout;
use crate::broker::inbound;
use crate::broker::inbound::{ServerEvent, ServerStep};
use crate::broker::requests;
use crate::broker::safety::SlowConsumerPolicy;
use crate::broker::server;
use crate::broker::traits;
use crate::broker::traits::AclDecision;
use crate::broker::tree;
use crate::channel;
use crate::error::{MqttError, Violation};
use crate::keyed;
use crate::packet;
use crate::packet::{ConnackReturnCode, Packet};
use crate::properties;
use crate::request;
use crate::request::{QoS, SubackCode};
use crate::session;
use crate::text;
use crate::topic;
use vstd::prelude::*;

verus! {

// ----------------------------------------------------------------------------
// Vocabulary
// ----------------------------------------------------------------------------

/// Whether a connection takes one more command.
pub open spec fn has_room(c: channel::ChannelModel) -> bool {
    c.writing && c.queue.len() < c.capacity
}

/// Whether nothing but these connections differs between two states.
pub open spec fn only_channel_differs(
    m: broker::BrokerModel,
    n: broker::BrokerModel,
    id: u64,
) -> bool {
    &&& n.sessions == m.sessions
    &&& n.subscriptions == m.subscriptions
    &&& n.retained == m.retained
    &&& n.saved == m.saved
    &&& n.active_connections == m.active_connections
    &&& n.next_connection_id == m.next_connection_id
    &&& n.safety == m.safety
    &&& n.broker_safety == m.broker_safety
    &&& n.channels.dom() == m.channels.dom()
    &&& forall|other: u64|
        other != id && m.channels.contains_key(other) ==> #[trigger] n.channels[other]
            == m.channels[other]
}

/// What a limit amounts to: what was set, or else this number.
pub open spec fn set_or(set: Option<usize>, otherwise: int) -> int {
    match set {
        Some(v) => v as int,
        None => otherwise,
    }
}

/// The limits a broker goes by are those that were set, and each that was not set is
/// its documented number.
pub proof fn law_limits(m: broker::BrokerModel)
    ensures
        broker::inflight_cap(m) == set_or(m.broker_safety.max_inflight_messages, 20),
        broker::connection_cap(m) == set_or(m.broker_safety.max_connections, 10_000),
        broker::retained_cap(m) == set_or(
            m.broker_safety.max_retained_messages_per_tenant,
            65_536,
        ),
        broker::retained_bytes_cap(m) == set_or(
            m.broker_safety.max_retained_bytes_per_tenant,
            16_777_216,
        ),
        broker::subscription_cap(m) == set_or(
            m.broker_safety.max_subscriptions_per_client,
            1_024,
        ),
        broker::saved_cap(m) == set_or(
            m.broker_safety.max_persistent_sessions_per_tenant,
            4_096,
        ),
        inbound::receive_cap(m) == set_or(m.safety.receive_maximum_inbound, 64),
        inbound::filter_cap(m) == set_or(m.safety.max_filters_per_subscribe, 64),
        broker::policy_of(m) == SlowConsumerPolicy::DisconnectLaggard
            <==> m.broker_safety.slow_consumer_policy == Some(
            SlowConsumerPolicy::DisconnectLaggard,
        ),
{
}

// ----------------------------------------------------------------------------
// Delivery to one connection
// ----------------------------------------------------------------------------

/// Whether a message is another one under this packet identifier.
pub open spec fn same_but_id(
    q: packet::PublishModel,
    p: packet::PublishModel,
    id: Option<u16>,
) -> bool {
    &&& q.topic == p.topic
    &&& q.payload == p.payload
    &&& q.qos == p.qos
    &&& q.retain == p.retain
    &&& q.dup == p.dup
    &&& q.properties == p.properties
    &&& q.packet_id == id
}

/// A message at QoS 0 for a connection: where there is room it goes behind what is
/// queued, without an identifier; where the queue is full it is dropped, and the
/// connection is closed only if laggards are to be disconnected. Nothing is kept of
/// it for a second delivery.
pub proof fn law_offered_at_most_once(
    c: channel::ChannelModel,
    p: packet::PublishModel,
    max_inflight: usize,
    policy: SlowConsumerPolicy,
)
    requires
        p.qos == QoS::AtMostOnce,
        c.writing,
    ensures
        ({
            let d = delivery::offered(c, p, max_inflight, policy);
            &&& d.session.outbound_inflight == c.session.outbound_inflight
            &&& d.session.qos2_recv == c.session.qos2_recv
            &&& c.queue.len() < c.capacity ==> {
                &&& d.open == c.open
                &&& d.queue.len() == c.queue.len() + 1
                &&& d.queue.drop_last() == c.queue
                &&& d.queue.last() is Publish
                &&& same_but_id(d.queue.last()->Publish_0, p, None)
            }
            &&& c.queue.len() >= c.capacity ==> {
                &&& d.queue == c.queue
                &&& d.open <==> c.open && policy != SlowConsumerPolicy::DisconnectLaggard
            }
        }),
{
    let d = delivery::offered(c, p, max_inflight, policy);
    if c.queue.len() < c.capacity {
        assert(d.queue.drop_last() =~= c.queue);
    }
}

/// A message above QoS 0 for a connection: where there is room in the queue and
/// among the unacknowledged messages, it goes behind what is queued under an
/// identifier that was free, and is kept under it as it was queued. Where there is no
/// room it is not queued, and the connection is closed: it is never dropped from one
/// that stays open.
pub proof fn law_offered_with_acknowledgement(
    c: channel::ChannelModel,
    p: packet::PublishModel,
    max_inflight: usize,
    policy: SlowConsumerPolicy,
    free: u16,
)
    requires
        p.qos != QoS::AtMostOnce,
        c.writing,
        free != 0,
        !c.session.outbound_inflight.contains_key(free),
        !c.session.pending_acks.contains_key(free),
    ensures
        ({
            let d = delivery::offered(c, p, max_inflight, policy);
            let goes = c.queue.len() < c.capacity && c.session.outbound_inflight.len()
                < max_inflight;
            &&& d.session.qos2_recv == c.session.qos2_recv
            &&& goes ==> {
                &&& d.open == c.open
                &&& d.queue.len() == c.queue.len() + 1
                &&& d.queue.drop_last() == c.queue
                &&& d.queue.last() is Publish
                &&& d.queue.last()->Publish_0.packet_id is Some
                &&& ({
                    let q = d.queue.last()->Publish_0;
                    let id = q.packet_id->0;
                    &&& id != 0
                    &&& !c.session.outbound_inflight.contains_key(id)
                    &&& !c.session.pending_acks.contains_key(id)
                    &&& same_but_id(q, p, Some(id))
                    &&& d.session.outbound_inflight == c.session.outbound_inflight.insert(id, q)
                    &&& d.session.pending_acks == c.session.pending_acks
                })
            }
            &&& !goes ==> d.queue == c.queue && !d.open
        }),
{
    session::law_allocation(c.session);
    assert(!session::in_use(c.session, free));
    let d = delivery::offered(c, p, max_inflight, policy);
    if c.queue.len() < c.capacity && c.session.outbound_inflight.len() < max_inflight {
        assert(d.queue.drop_last() =~= c.queue);
    }
}

// ----------------------------------------------------------------------------
// Messages of a client
// ----------------------------------------------------------------------------

/// A message of a client at QoS 0 or 1 is put in line as it is, and at QoS 1 it is
/// acknowledged under its identifier. Nothing else comes of it; the fan-out follows
/// from the line.
pub proof fn law_message_is_lined_up(
    m: broker::BrokerModel,
    c: server::ServerModel,
    p: packet::PublishModel,
    n: broker::BrokerModel,
    d: server::ServerModel,
    r: Result<(), MqttError>,
)
    requires
        inbound::dispatches(m, c, packet::PacketModel::Publish(p), Seq::empty(), n, d, r),
        m.channels.contains_key(c.channel),
        has_room(m.channels[c.channel]),
        p.qos != QoS::ExactlyOnce,
        p.qos == QoS::AtLeastOnce ==> p.packet_id is Some,
    ensures
        r is Ok,
        only_channel_differs(m, n, c.channel),
        d.key == c.key && d.channel == c.channel && d.connection_id == c.connection_id,
        n.channels[c.channel].session.outbound_inflight
            == m.channels[c.channel].session.outbound_inflight,
        n.channels[c.channel].session.qos2_recv == m.channels[c.channel].session.qos2_recv,
        p.qos == QoS::AtMostOnce ==> n.channels[c.channel].queue == m.channels[c.channel].queue,
        p.qos == QoS::AtLeastOnce ==> n.channels[c.channel].queue
            == m.channels[c.channel].queue.push(
            channel::CmdModel::Packet(packet::PacketModel::Puback(p.packet_id->0)),
        ),
        c.fanout.len() < c.capacity ==> d.fanout == c.fanout.push(p) && n.channels[c.channel].open
            == m.channels[c.channel].open,
        c.fanout.len() >= c.capacity ==> {
            &&& d.fanout == c.fanout
            &&& n.channels[c.channel].open <==> m.channels[c.channel].open && p.qos
                == QoS::AtMostOnce && m.broker_safety.slow_consumer_policy != Some(
                SlowConsumerPolicy::DisconnectLaggard,
            )
        },
{
    assert(n.channels.dom() =~= m.channels.dom());
}

/// A message of a client at QoS 2 is kept under its identifier until it is released,
/// and its receipt is answered; it does not go on yet. One that would be too many at
/// once is refused, and leaves everything as it was.
pub proof fn law_message_awaits_its_release(
    m: broker::BrokerModel,
    c: server::ServerModel,
    p: packet::PublishModel,
    k: u16,
    n: broker::BrokerModel,
    d: server::ServerModel,
    r: Result<(), MqttError>,
)
    requires
        inbound::dispatches(m, c, packet::PacketModel::Publish(p), Seq::empty(), n, d, r),
        m.channels.contains_key(c.channel),
        has_room(m.channels[c.channel]),
        p.qos == QoS::ExactlyOnce,
        p.packet_id == Some(k),
    ensures
        d == c,
        only_channel_differs(m, n, c.channel),
        ({
            let own = m.channels[c.channel];
            let after = n.channels[c.channel];
            let limit = set_or(m.safety.receive_maximum_inbound, 64);
            if own.session.qos2_recv.contains_key(k) || own.session.qos2_recv.len() < limit {
                &&& r is Ok
                &&& after.queue == own.queue.push(
                    channel::CmdModel::Packet(packet::PacketModel::Pubrec(k)),
                )
                &&& after.session.qos2_recv == own.session.qos2_recv.insert(k, p)
                &&& after.session.outbound_inflight == own.session.outbound_inflight
                &&& after.open == own.open
            } else {
                &&& after == own
                &&& r == Err::<(), MqttError>(
                    MqttError::Protocol(
                        Violation::ReceiveMaximumExceeded { limit: limit as usize },
                    ),
                )
            }
        }),
{
    assert(n.channels.dom() =~= m.channels.dom());
}

/// A release takes the message that was kept under its identifier, no other, and puts
/// it in line with the topic, payload, level, retain flag and properties it came with;
/// it is answered in any case.
pub proof fn law_release_sends_on_what_was_kept(
    m: broker::BrokerModel,
    c: server::ServerModel,
    k: u16,
    n: broker::BrokerModel,
    d: server::ServerModel,
    r: Result<(), MqttError>,
)
    requires
        inbound::dispatches(m, c, packet::PacketModel::Pubrel(k), Seq::empty(), n, d, r),
        m.channels.contains_key(c.channel),
        has_room(m.channels[c.channel]),
    ensures
        r is Ok,
        only_channel_differs(m, n, c.channel),
        n.channels[c.channel].queue == m.channels[c.channel].queue.push(
            channel::CmdModel::Packet(packet::PacketModel::Pubcomp(k)),
        ),
        n.channels[c.channel].session.qos2_recv == m.channels[c.channel].session.qos2_recv.remove(
            k,
        ),
        n.channels[c.channel].session.outbound_inflight
            == m.channels[c.channel].session.outbound_inflight,
        m.channels[c.channel].session.qos2_recv.contains_key(k) && c.fanout.len() < c.capacity
            ==> {
            let kept = m.channels[c.channel].session.qos2_recv[k];
            &&& d.fanout.len() == c.fanout.len() + 1
            &&& d.fanout.drop_last() == c.fanout
            &&& d.fanout.last().topic == kept.topic
            &&& d.fanout.last().payload == kept.payload
            &&& d.fanout.last().qos == kept.qos
            &&& d.fanout.last().retain == kept.retain
            &&& d.fanout.last().properties == kept.properties
            &&& !d.fanout.last().dup
            &&& n.channels[c.channel].open == m.channels[c.channel].open
        },
        !m.channels[c.channel].session.qos2_recv.contains_key(k) ==> d == c
            && n.channels[c.channel].open == m.channels[c.channel].open,
{
    assert(n.channels.dom() =~= m.channels.dom());
    if m.channels[c.channel].session.qos2_recv.contains_key(k) && c.fanout.len() < c.capacity {
        assert(d.fanout.drop_last() =~= c.fanout);
    }
}

/// The receipt of a message at QoS 2 is answered with its release, and a ping with its
/// answer. Both go behind what is queued, and nothing else changes; what is in flight
/// stays so until it is complete.
pub proof fn law_receipt_and_ping_are_answered(
    m: broker::BrokerModel,
    c: server::ServerModel,
    p: packet::PacketModel,
    n: broker::BrokerModel,
    d: server::ServerModel,
    r: Result<(), MqttError>,
)
    requires
        p is Pubrec || p is Pingreq,
        inbound::dispatches(m, c, p, Seq::empty(), n, d, r),
        m.channels.contains_key(c.channel),
        has_room(m.channels[c.channel]),
    ensures
        r is Ok,
        d == c,
        only_channel_differs(m, n, c.channel),
        n.channels[c.channel].session == m.channels[c.channel].session,
        n.channels[c.channel].open == m.channels[c.channel].open,
        p matches packet::PacketModel::Pubrec(k) ==> n.channels[c.channel].queue
            == m.channels[c.channel].queue.push(
            channel::CmdModel::Packet(packet::PacketModel::Pubrel(k)),
        ),
        p is Pingreq ==> n.channels[c.channel].queue == m.channels[c.channel].queue.push(
            channel::CmdModel::Packet(packet::PacketModel::Pingresp),
        ),
{
    assert(n.channels.dom() =~= m.channels.dom());
}

/// A packet that has to be answered ends the connection where the answer cannot be
/// queued: with the queue full, or its writer gone.
pub proof fn law_unanswerable_packet_is_an_error(
    m: broker::BrokerModel,
    c: server::ServerModel,
    p: packet::PacketModel,
    decisions: Seq<AclDecision>,
    n: broker::BrokerModel,
    d: server::ServerModel,
    r: Result<(), MqttError>,
)
    requires
        p is Pubrec || p is Pubrel || p is Pingreq,
        inbound::dispatches(m, c, p, decisions, n, d, r),
        !has_room(m.channels[c.channel]),
    ensures
        r == Err::<(), MqttError>(
            if m.channels[c.channel].writing {
                MqttError::Backpressure
            } else {
                MqttError::ChannelClosed
            },
        ),
{
}

/// A second CONNECT is an error; what only a broker sends is passed over.
pub proof fn law_other_packets(
    m: broker::BrokerModel,
    c: server::ServerModel,
    p: packet::PacketModel,
    decisions: Seq<AclDecision>,
    n: broker::BrokerModel,
    d: server::ServerModel,
    r: Result<(), MqttError>,
)
    requires
        inbound::dispatches(m, c, p, decisions, n, d, r),
        p is Connect || p is Connack || p is Suback || p is Unsuback || p is Pingresp,
    ensures
        n == m,
        d == c,
        p is Connect ==> r == Err::<(), MqttError>(
            MqttError::Protocol(Violation::SessionAlreadyBound),
        ),
        !(p is Connect) ==> r is Ok,
{
}

/// What ends a connection: that it is closed already, a DISCONNECT, which is the only
/// end in good order, silence, a transport that failed, and an error of reading or of
/// a packet, which are handed on. No such end changes anything else.
pub proof fn law_what_ends_a_connection(
    m: broker::BrokerModel,
    c: server::ServerModel,
    e: ServerEvent,
    decisions: Seq<AclDecision>,
    n: broker::BrokerModel,
    d: server::ServerModel,
    r: ServerStep,
)
    requires
        inbound::steps(m, c, e, decisions, n, d, r),
    ensures
        !m.channels[c.channel].open ==> r == (ServerStep::Stop { graceful: false, error: None })
            && n == m && d == c,
        m.channels[c.channel].open ==> {
            &&& e == ServerEvent::Packet(Packet::Disconnect) ==> r == (ServerStep::Stop {
                graceful: true,
                error: None,
            }) && n == m
            &&& e is TimedOut || e is Closed ==> r == (ServerStep::Stop {
                graceful: false,
                error: None,
            }) && n == m
            &&& e matches ServerEvent::Failed(x) ==> n == m && r == (ServerStep::Stop {
                graceful: false,
                error: if x is Io {
                    None
                } else {
                    Some(x)
                },
            })
            &&& e is Packet && e->Packet_0 != Packet::Disconnect
                ==> exists|result: Result<(), MqttError>|
                {
                    &&& #[trigger] inbound::dispatches(
                        m,
                        c,
                        e->Packet_0@,
                        decisions,
                        n,
                        d,
                        result,
                    )
                    &&& result is Ok ==> r is Continue
                    &&& result matches Err(x) ==> r == (ServerStep::Stop {
                        graceful: false,
                        error: Some(x),
                    })
                }
        },
        r matches ServerStep::Stop { graceful, .. } && graceful ==> e == ServerEvent::Packet(
            Packet::Disconnect,
        ),
{
}

// ----------------------------------------------------------------------------
// Subscriptions of a client
// ----------------------------------------------------------------------------

/// The level at which a client is subscribed under a filter.
pub open spec fn subscribed_at(
    t: tree::TreeModel,
    filter: keyed::KeyModel,
    client: keyed::KeyModel,
) -> Option<QoS> {
    if t.contains_key(filter) && t[filter].contains_key(client) {
        Some(t[filter][client])
    } else {
        None
    }
}

/// Whether only a client's own list of filters, and its subscriptions, differ.
pub open spec fn only_filters_differ(
    m: broker::BrokerModel,
    n: broker::BrokerModel,
    key: keyed::KeyModel,
) -> bool {
    &&& n.channels == m.channels
    &&& n.retained == m.retained
    &&& n.saved == m.saved
    &&& n.active_connections == m.active_connections
    &&& n.next_connection_id == m.next_connection_id
    &&& n.safety == m.safety
    &&& n.broker_safety == m.broker_safety
    &&& n.sessions.dom() == m.sessions.dom()
    &&& forall|other: keyed::KeyModel|
        other != key && m.sessions.contains_key(other) ==> #[trigger] n.sessions[other]
            == m.sessions[other]
    &&& m.sessions.contains_key(key) ==> {
        &&& n.sessions[key].channel == m.sessions[key].channel
        &&& n.sessions[key].will == m.sessions[key].will
        &&& n.sessions[key].clean_session == m.sessions[key].clean_session
        &&& n.sessions[key].tenant == m.sessions[key].tenant
        &&& n.sessions[key].username == m.sessions[key].username
        &&& n.sessions[key].connection_id == m.sessions[key].connection_id
    }
}

/// Whether a filter is in order and was allowed.
pub open spec fn permitted(filter: (Seq<char>, QoS), decision: AclDecision) -> bool {
    topic::check_filter(filter.0) is Ok && decision == AclDecision::Allow
}

/// Whether a filter of these is granted under this name.
pub open spec fn grants(
    filters: Seq<(Seq<char>, QoS)>,
    codes: Seq<SubackCode>,
    i: int,
    name: Seq<char>,
) -> bool {
    filters[i].0 == name && codes[i] is Granted
}

proof fn lemma_subscribe_steps(
    m: broker::BrokerModel,
    key: keyed::KeyModel,
    filters: Seq<(Seq<char>, QoS)>,
    decisions: Seq<AclDecision>,
    n: nat,
)
    requires
        m.sessions.contains_key(key),
        m.sessions[key].filters.dom().finite(),
        n <= filters.len(),
        filters.len() == decisions.len(),
    ensures
        ({
            let (after, codes) = requests::subscribe_steps(m, key, filters, decisions, n);
            let own = after.sessions[key].filters;
            &&& codes.len() == n
            &&& only_filters_differ(m, after, key)
            &&& own.dom().finite()
            &&& own.len() <= m.sessions[key].filters.len() + n
            &&& forall|i: int|
                0 <= i < n && #[trigger] codes[i] is Granted ==> codes[i] == SubackCode::Granted(
                    filters[i].1,
                ) && permitted(filters[i], decisions[i])
            &&& m.sessions[key].filters.len() + n <= set_or(
                m.broker_safety.max_subscriptions_per_client,
                1_024,
            ) ==> forall|i: int|
                0 <= i < n && permitted(filters[i], decisions[i]) ==> #[trigger] codes[i] is Granted
        }),
    decreases n,
{
    if n > 0 {
        lemma_subscribe_steps(m, key, filters, decisions, (n - 1) as nat);
        let (mid, before) = requests::subscribe_steps(m, key, filters, decisions, (n - 1) as nat);
        let (after, codes) = requests::subscribe_steps(m, key, filters, decisions, n);
        assert forall|i: int| 0 <= i < n && #[trigger] codes[i] is Granted implies codes[i]
            == SubackCode::Granted(filters[i].1) && permitted(filters[i], decisions[i]) by {
            if i < n - 1 {
                assert(codes[i] == before[i]);
            }
        }
        if m.sessions[key].filters.len() + n <= set_or(
            m.broker_safety.max_subscriptions_per_client,
            1_024,
        ) {
            assert forall|i: int|
                0 <= i < n && permitted(
                    filters[i],
                    decisions[i],
                ) implies #[trigger] codes[i] is Granted by {
                if i < n - 1 {
                    assert(codes[i] == before[i]);
                }
            }
        }
        assert(after.sessions.dom() =~= m.sessions.dom());
    } else {
        assert(m.sessions.dom() =~= m.sessions.dom());
    }
}

proof fn lemma_subscribe_tree(
    m: broker::BrokerModel,
    key: keyed::KeyModel,
    filters: Seq<(Seq<char>, QoS)>,
    decisions: Seq<AclDecision>,
    n: nat,
    filter: keyed::KeyModel,
    client: keyed::KeyModel,
    i: int,
)
    requires
        m.sessions.contains_key(key),
        m.sessions[key].filters.dom().finite(),
        n <= filters.len(),
        filters.len() == decisions.len(),
        -1 <= i < n,
        ({
            let codes = requests::subscribe_steps(m, key, filters, decisions, n).1;
            &&& i >= 0 ==> client == key && filter.0 == key.0 && grants(
                filters,
                codes,
                i,
                filter.1,
            )
            &&& client == key && filter.0 == key.0 ==> forall|j: int|
                i < j < n ==> !(#[trigger] grants(filters, codes, j, filter.1))
        }),
    ensures
        ({
            let after = requests::subscribe_steps(m, key, filters, decisions, n).0;
            &&& i >= 0 ==> {
                &&& subscribed_at(after.subscriptions, filter, client) == Some(filters[i].1)
                &&& after.sessions[key].filters.contains_key(filter)
                &&& after.sessions[key].filters[filter] == filters[i].1
            }
            &&& i < 0 ==> {
                &&& subscribed_at(after.subscriptions, filter, client) == subscribed_at(
                    m.subscriptions,
                    filter,
                    client,
                )
                &&& client == key && filter.0 == key.0 ==> {
                    &&& after.sessions[key].filters.contains_key(filter)
                        <==> m.sessions[key].filters.contains_key(filter)
                    &&& m.sessions[key].filters.contains_key(filter)
                        ==> after.sessions[key].filters[filter] == m.sessions[key].filters[filter]
                }
            }
        }),
    decreases n,
{
    if n > 0 {
        let (mid, before) = requests::subscribe_steps(m, key, filters, decisions, (n - 1) as nat);
        let (after, codes) = requests::subscribe_steps(m, key, filters, decisions, n);
        lemma_subscribe_steps(m, key, filters, decisions, (n - 1) as nat);
        lemma_subscribe_steps(m, key, filters, decisions, n);
        assert forall|j: int| 0 <= j < n - 1 implies codes[j] == before[j] by {}
        if i < n - 1 {
            if client == key && filter.0 == key.0 {
                assert(!grants(filters, codes, n - 1, filter.1));
                assert forall|j: int| i < j < n - 1 implies !(#[trigger] grants(
                    filters,
                    before,
                    j,
                    filter.1,
                )) by {
                    assert(!grants(filters, codes, j, filter.1));
                }
            }
            lemma_subscribe_tree(
                m,
                key,
                filters,
                decisions,
                (n - 1) as nat,
                filter,
                client,
                i,
            );
        }
    }
}

/// What a SUBSCRIBE of a registered client is answered, filter by filter, before
/// anything is sent for it: a filter is granted at exactly the level that was asked
/// for, and only one that is well formed and allowed; and each of those is granted as
/// long as the client keeps within its number of filters. More filters than may stand
/// in one packet are an error, and nothing changes.
pub proof fn law_subscribe_is_answered(
    m: broker::BrokerModel,
    c: server::ServerModel,
    packet_id: u16,
    subscriptions: Seq<(Seq<char>, QoS)>,
    decisions: Seq<AclDecision>,
    n: broker::BrokerModel,
    d: server::ServerModel,
    r: Result<(), MqttError>,
)
    requires
        inbound::dispatches(
            m,
            c,
            packet::PacketModel::Subscribe { packet_id, subscriptions },
            decisions,
            n,
            d,
            r,
        ),
        decisions.len() == subscriptions.len(),
        m.channels.contains_key(c.channel),
        has_room(m.channels[c.channel]),
        m.sessions.contains_key(c.key),
        m.sessions[c.key].filters.dom().finite(),
    ensures
        d == c,
        subscriptions.len() > set_or(m.safety.max_filters_per_subscribe, 64) ==> n == m && r
            == Err::<(), MqttError>(
            MqttError::Protocol(
                Violation::TooManyFilters {
                    count: subscriptions.len() as usize,
                    max: set_or(m.safety.max_filters_per_subscribe, 64) as usize,
                },
            ),
        ),
        subscriptions.len() <= set_or(m.safety.max_filters_per_subscribe, 64) ==> {
            let at = m.channels[c.channel].queue.len() as int;
            let queue = n.channels[c.channel].queue;
            &&& r is Ok
            &&& m.channels[c.channel].queue.is_prefix_of(queue)
            &&& at < queue.len()
            &&& queue[at] matches channel::CmdModel::Packet(
                packet::PacketModel::Suback { packet_id: answered, return_codes: codes },
            )
            &&& answered == packet_id
            &&& codes.len() == subscriptions.len()
            &&& forall|i: int|
                0 <= i < codes.len() && #[trigger] codes[i] is Granted ==> codes[i]
                    == SubackCode::Granted(subscriptions[i].1) && permitted(
                    subscriptions[i],
                    decisions[i],
                )
            &&& m.sessions[c.key].filters.len() + subscriptions.len() <= set_or(
                m.broker_safety.max_subscriptions_per_client,
                1_024,
            ) ==> forall|i: int|
                0 <= i < codes.len() && permitted(
                    subscriptions[i],
                    decisions[i],
                ) ==> #[trigger] codes[i] is Granted
        },
{
    if subscriptions.len() <= set_or(m.safety.max_filters_per_subscribe, 64) {
        inbound::law_suback_before_retained(m, c, packet_id, subscriptions, decisions, n, d);
        lemma_subscribe_steps(m, c.key, subscriptions, decisions, subscriptions.len());
        let codes = requests::subscribed(m, c.key, subscriptions, decisions).1;
        let front = m.channels[c.channel].queue;
        let told = front.push(
            channel::CmdModel::Packet(
                packet::PacketModel::Suback { packet_id, return_codes: codes },
            ),
        );
        let queue = n.channels[c.channel].queue;
        assert(queue[front.len() as int] == told[front.len() as int]);
        assert(front.is_prefix_of(queue));
    }
}

/// A filter that was granted, the last time it stands in the packet, is what its
/// client is subscribed under from then on, at the level that was asked for; every
/// other filter of the client, and every subscription of other clients, is as it was.
pub proof fn law_granted_filters_are_subscribed(
    m: broker::BrokerModel,
    key: keyed::KeyModel,
    filters: Seq<(Seq<char>, QoS)>,
    decisions: Seq<AclDecision>,
    filter: keyed::KeyModel,
    client: keyed::KeyModel,
)
    requires
        m.sessions.contains_key(key),
        m.sessions[key].filters.dom().finite(),
        filters.len() == decisions.len(),
    ensures
        ({
            let (after, codes) = requests::subscribed(m, key, filters, decisions);
            &&& only_filters_differ(m, after, key)
            &&& forall|i: int|
                0 <= i < filters.len() && #[trigger] grants(filters, codes, i, filter.1) && client
                    == key && filter.0 == key.0 && (forall|j: int|
                    i < j < filters.len() ==> !(#[trigger] grants(filters, codes, j, filter.1)))
                    ==> {
                    &&& subscribed_at(after.subscriptions, filter, client) == Some(filters[i].1)
                    &&& after.sessions[key].filters.contains_key(filter)
                    &&& after.sessions[key].filters[filter] == filters[i].1
                }
            &&& client != key || filter.0 != key.0 || (forall|j: int|
                0 <= j < filters.len() ==> !(#[trigger] grants(filters, codes, j, filter.1)))
                ==> subscribed_at(after.subscriptions, filter, client) == subscribed_at(
                m.subscriptions,
                filter,
                client,
            )
        }),
{
    let n = filters.len();
    let (after, codes) = requests::subscribed(m, key, filters, decisions);
    lemma_subscribe_steps(m, key, filters, decisions, n);
    assert forall|i: int|
        0 <= i < filters.len() && #[trigger] grants(filters, codes, i, filter.1) && client == key
            && filter.0 == key.0 && (forall|j: int|
            i < j < filters.len() ==> !(#[trigger] grants(filters, codes, j, filter.1))) implies {
        &&& subscribed_at(after.subscriptions, filter, client) == Some(filters[i].1)
        &&& after.sessions[key].filters.contains_key(filter)
        &&& after.sessions[key].filters[filter] == filters[i].1
    } by {
        lemma_subscribe_tree(m, key, filters, decisions, n, filter, client, i);
    }
    if client != key || filter.0 != key.0 || (forall|j: int|
        0 <= j < filters.len() ==> !(#[trigger] grants(filters, codes, j, filter.1))) {
        lemma_subscribe_tree(m, key, filters, decisions, n, filter, client, -1);
    }
}

/// A client that is not registered is refused every filter, and nothing changes.
pub proof fn law_stranger_is_refused(
    m: broker::BrokerModel,
    key: keyed::KeyModel,
    filters: Seq<(Seq<char>, QoS)>,
    decisions: Seq<AclDecision>,
    i: int,
)
    requires
        !m.sessions.contains_key(key),
        0 <= i < filters.len(),
    ensures
        requests::subscribed(m, key, filters, decisions).0 == m,
        requests::subscribed(m, key, filters, decisions).1.len() == filters.len(),
        requests::subscribed(m, key, filters, decisions).1[i] == SubackCode::Failure,
{
}

proof fn lemma_unsubscribe_tree(
    m: broker::BrokerModel,
    key: keyed::KeyModel,
    topics: Seq<Seq<char>>,
    n: nat,
    filter: keyed::KeyModel,
    client: keyed::KeyModel,
)
    requires
        m.sessions.contains_key(key),
        n <= topics.len(),
    ensures
        ({
            let after = requests::unsubscribe_steps(m, key, topics, n);
            let named = client == key && filter.0 == key.0 && topics.take(n as int).contains(
                filter.1,
            );
            &&& only_filters_differ(m, after, key)
            &&& named ==> {
                &&& subscribed_at(after.subscriptions, filter, client) is None
                &&& !after.sessions[key].filters.contains_key(filter)
            }
            &&& !named ==> {
                &&& subscribed_at(after.subscriptions, filter, client) == subscribed_at(
                    m.subscriptions,
                    filter,
                    client,
                )
                &&& client == key && filter.0 == key.0 ==> {
                    &&& after.sessions[key].filters.contains_key(filter)
                        <==> m.sessions[key].filters.contains_key(filter)
                    &&& m.sessions[key].filters.contains_key(filter)
                        ==> after.sessions[key].filters[filter] == m.sessions[key].filters[filter]
                }
            }
        }),
    decreases n,
{
    if n > 0 {
        lemma_unsubscribe_tree(m, key, topics, (n - 1) as nat, filter, client);
        let mid = requests::unsubscribe_steps(m, key, topics, (n - 1) as nat);
        let after = requests::unsubscribe_steps(m, key, topics, n);
        let f = (key.0, topics[n - 1]);
        assert(after.sessions.dom() =~= m.sessions.dom());
        assert(topics.take(n as int) =~= topics.take(n - 1).push(topics[n - 1]));
        let front = topics.take(n - 1);
        let whole = topics.take(n as int);
        assert(whole.contains(filter.1) <==> front.contains(filter.1) || filter.1 == topics[n - 1])
            by {
            assert(whole[n - 1] == topics[n - 1]);
            if front.contains(filter.1) {
                let j = choose|j: int| 0 <= j < front.len() && front[j] == filter.1;
                assert(whole[j] == filter.1);
            }
            if whole.contains(filter.1) {
                let j = choose|j: int| 0 <= j < whole.len() && whole[j] == filter.1;
                if j < n - 1 {
                    assert(front[j] == filter.1);
                }
            }
        }
        if mid.subscriptions.contains_key(f) {
            let left = mid.subscriptions[f].remove(key);
            if left.is_empty() && filter == f && client != key {
                assert(!left.contains_key(client));
            }
        }
    } else {
        assert(topics.take(0).len() == 0);
        assert(m.sessions.dom() =~= m.sessions.dom());
    }
}

/// An UNSUBSCRIBE is answered under its identifier with one zero for each filter, and
/// the client is no longer subscribed under any of them. Its other filters, and every
/// subscription of other clients, stay.
pub proof fn law_unsubscribe_ends_subscriptions(
    m: broker::BrokerModel,
    c: server::ServerModel,
    packet_id: u16,
    topics: Seq<Seq<char>>,
    n: broker::BrokerModel,
    d: server::ServerModel,
    r: Result<(), MqttError>,
    filter: keyed::KeyModel,
    client: keyed::KeyModel,
)
    requires
        inbound::dispatches(
            m,
            c,
            packet::PacketModel::Unsubscribe { packet_id, topics },
            Seq::empty(),
            n,
            d,
            r,
        ),
        m.channels.contains_key(c.channel),
        has_room(m.channels[c.channel]),
        m.sessions.contains_key(c.key),
    ensures
        d == c,
        topics.len() > set_or(m.safety.max_filters_per_subscribe, 64) ==> n == m && r == Err::<
            (),
            MqttError,
        >(
            MqttError::Protocol(
                Violation::TooManyFilters {
                    count: topics.len() as usize,
                    max: set_or(m.safety.max_filters_per_subscribe, 64) as usize,
                },
            ),
        ),
        topics.len() <= set_or(m.safety.max_filters_per_subscribe, 64) ==> {
            let at = m.channels[c.channel].queue.len() as int;
            let queue = n.channels[c.channel].queue;
            let named = client == c.key && filter.0 == c.key.0 && topics.contains(filter.1);
            &&& r is Ok
            &&& queue.len() == at + 1
            &&& queue.drop_last() == m.channels[c.channel].queue
            &&& queue[at] matches channel::CmdModel::Packet(
                packet::PacketModel::Unsuback { packet_id: answered, reason_codes: codes },
            )
            &&& answered == packet_id
            &&& codes.len() == topics.len()
            &&& forall|i: int| 0 <= i < codes.len() ==> #[trigger] codes[i] == 0
            &&& named ==> {
                &&& subscribed_at(n.subscriptions, filter, client) is None
                &&& !n.sessions[c.key].filters.contains_key(filter)
            }
            &&& !named ==> subscribed_at(n.subscriptions, filter, client) == subscribed_at(
                m.subscriptions,
                filter,
                client,
            )
            &&& n.retained == m.retained
            &&& n.saved == m.saved
        },
{
    if topics.len() <= set_or(m.safety.max_filters_per_subscribe, 64) {
        lemma_unsubscribe_tree(m, c.key, topics, topics.len(), filter, client);
        assert(topics.take(topics.len() as int) =~= topics);
        let queue = n.channels[c.channel].queue;
        assert(queue.drop_last() =~= m.channels[c.channel].queue);
    }
}

/// The number of a client's filters is what decides over a permitted one: one that
/// the client has already is granted again, and a new one exactly while there is room
/// for it.
pub proof fn law_number_of_filters(
    m: broker::BrokerModel,
    key: keyed::KeyModel,
    filter: (Seq<char>, QoS),
)
    requires
        m.sessions.contains_key(key),
        topic::check_filter(filter.0) is Ok,
    ensures
        ({
            let (after, code) = requests::subscribe_step(m, key, filter, AclDecision::Allow);
            let held = m.sessions[key].filters;
            if held.contains_key((key.0, filter.0)) || held.len() < set_or(
                m.broker_safety.max_subscriptions_per_client,
                1_024,
            ) {
                &&& code == SubackCode::Granted(filter.1)
                &&& after.sessions[key].filters == held.insert((key.0, filter.0), filter.1)
                &&& subscribed_at(after.subscriptions, (key.0, filter.0), key) == Some(filter.1)
            } else {
                code == SubackCode::Failure && after == m
            }
        }),
{
}

// ----------------------------------------------------------------------------
// Connecting
// ----------------------------------------------------------------------------

/// The answer to a CONNECT.
pub open spec fn is_connack(
    cmd: channel::CmdModel,
    present: bool,
    code: ConnackReturnCode,
) -> bool {
    &&& cmd matches channel::CmdModel::Packet(packet::PacketModel::Connack(a))
    &&& a.session_present == present
    &&& a.return_code == code
}

/// What a connection starts with: a CONNECT, or it is an error. One without a client
/// identifier that does not ask for a clean session is turned away as such, and any
/// other while the number of connections is reached. Those that are let in count.
pub proof fn law_first_packet(m: broker::BrokerModel, id: u64, p: packet::PacketModel)
    requires
        m.channels.contains_key(id),
        has_room(m.channels[id]),
    ensures
        ({
            let (n, r) = server::begun(m, id, p);
            let full = m.active_connections >= set_or(m.broker_safety.max_connections, 10_000);
            match p {
                packet::PacketModel::Connect(c) => {
                    let nameless = c.client_id.len() == 0 && !c.clean_session;
                    let code = if nameless {
                        ConnackReturnCode::IdentifierRejected
                    } else {
                        ConnackReturnCode::ServerUnavailable
                    };
                    &&& n.channels[id].version == c.version
                    &&& n.channels[id].session == m.channels[id].session
                    &&& n.sessions == m.sessions
                    &&& n.subscriptions == m.subscriptions
                    &&& n.retained == m.retained
                    &&& n.saved == m.saved
                    &&& !nameless && !full ==> {
                        &&& r is Ok
                        &&& n.active_connections == m.active_connections + 1
                        &&& n.channels[id].queue == m.channels[id].queue
                    }
                    &&& nameless || full ==> {
                        &&& r == Err::<(), MqttError>(
                            MqttError::Protocol(Violation::ConnectionRefused(code)),
                        )
                        &&& n.active_connections == m.active_connections
                        &&& n.channels[id].queue.len() == m.channels[id].queue.len() + 1
                        &&& is_connack(n.channels[id].queue.last(), false, code)
                    }
                },
                _ => n == m && r == Err::<(), MqttError>(
                    MqttError::Protocol(Violation::ExpectedConnect),
                ),
            }
        }),
{
}

/// The name that a client goes by.
pub open spec fn goes_by(c: packet::ConnectModel, name: Seq<char>) -> bool {
    c.client_id.len() > 0 ==> name == c.client_id
}

/// Whether a registered client is what its CONNECT said: its will has the topic, the
/// payload, the level and the retain flag that were given, and there is none where
/// none was given.
pub open spec fn as_connected(
    e: broker::EntryModel,
    c: packet::ConnectModel,
    tenant: Option<Seq<char>>,
    id: u64,
) -> bool {
    &&& e.channel == id
    &&& e.tenant == tenant
    &&& e.username == c.username
    &&& e.clean_session == c.clean_session
    &&& e.will is Some <==> c.will is Some
    &&& c.will is Some ==> {
        &&& e.will->0.topic == c.will->0.topic
        &&& e.will->0.payload == c.will->0.payload
        &&& e.will->0.qos == c.will->0.qos
        &&& e.will->0.retain == c.will->0.retain
    }
}

/// The messages that go behind a queue, as far as there is room.
proof fn lemma_sent_all(c: channel::ChannelModel, messages: Seq<packet::PublishModel>)
    requires
        c.writing,
        c.queue.len() <= c.capacity,
    ensures
        ({
            let d = requests::sent_all(c, messages);
            &&& d.session == c.session
            &&& d.open == c.open
            &&& d.writing
            &&& d.capacity == c.capacity
            &&& c.queue.is_prefix_of(d.queue)
            &&& d.queue.len() <= d.capacity
            &&& d.queue.len() == c.capacity || d.queue.len() == c.queue.len() + messages.len()
            &&& d.queue.len() <= c.queue.len() + messages.len()
            &&& forall|i: int|
                0 <= i < d.queue.len() - c.queue.len() ==> #[trigger] d.queue[c.queue.len() + i]
                    == channel::CmdModel::Packet(packet::PacketModel::Publish(messages[i]))
        }),
    decreases messages.len(),
{
    if messages.len() > 0 {
        let front = messages.drop_last();
        lemma_sent_all(c, front);
        let b = requests::sent_all(c, front);
        let d = requests::sent_all(c, messages);
        assert(b.queue.is_prefix_of(d.queue));
        assert forall|i: int| 0 <= i < d.queue.len() - c.queue.len() implies #[trigger] d.queue[
        c.queue.len() + i] == channel::CmdModel::Packet(
            packet::PacketModel::Publish(messages[i]),
        ) by {
            if i < b.queue.len() - c.queue.len() {
                assert(d.queue[c.queue.len() + i] == b.queue[c.queue.len() + i]);
                assert(front[i] == messages[i]);
            } else {
                assert(i == messages.len() - 1);
            }
        }
    }
}

/// A registration changes nothing of the new connection but its session.
proof fn lemma_registered_channel(
    m: broker::BrokerModel,
    n: broker::BrokerModel,
    r: (bool, u64),
    key: keyed::KeyModel,
    username: Option<Seq<char>>,
    connection: u64,
    will: Option<request::WillMessageModel>,
    clean_session: bool,
    decision: AclDecision,
    counted: usize,
    reported: usize,
)
    requires
        broker::registers(
            m,
            n,
            r,
            key,
            username,
            connection,
            will,
            clean_session,
            decision,
            counted,
            reported,
        ),
        m.channels.contains_key(connection),
        !m.sessions.contains_key(key),
    ensures
        n.channels.contains_key(connection),
        n.channels[connection].queue == m.channels[connection].queue,
        n.channels[connection].capacity == m.channels[connection].capacity,
        n.channels[connection].writing == m.channels[connection].writing,
        n.channels[connection].open == m.channels[connection].open,
        r.0 <==> !clean_session && m.saved.contains_key(key),
        r.0 ==> n.channels[connection].session == session::resumed(
            m.channels[connection].session,
            m.saved[key],
        ),
        !r.0 ==> n.channels[connection].session == m.channels[connection].session,
{
}

/// What an accepted CONNECT leaves, where nobody was registered under the name: the
/// client is registered as it said, and is told that it is accepted and whether a
/// session was waiting for it. A session that was waiting is taken up: what was
/// unacknowledged in it is in flight again, under the same identifiers, and is sent
/// again behind the answer, as duplicates, in the order of the identifiers and as far
/// as there is room.
pub proof fn law_accepted_client_is_registered(
    m: broker::BrokerModel,
    n: broker::BrokerModel,
    conn: server::ServerModel,
    id: u64,
    c: packet::ConnectModel,
    v: server::Verdict,
    w: server::Reports,
)
    requires
        server::finishes(m, n, Ok(conn), id, c, v, w),
        m.channels.contains_key(id),
        m.channels[id].queue.len() <= m.channels[id].capacity,
        m.channels[id].session.outbound_inflight == Map::<u16, packet::PublishModel>::empty(),
        m.channels[id].session.qos2_recv == Map::<u16, packet::PublishModel>::empty(),
        !m.sessions.contains_key(conn.key),
    ensures
        v.auth.accepted,
        conn.key.0 == v.tenant,
        goes_by(c, conn.key.1),
        conn.channel == id,
        conn.keep_alive == c.keep_alive,
        conn.fanout.len() == 0,
        n.sessions.contains_key(conn.key),
        as_connected(n.sessions[conn.key], c, v.tenant, id),
        n.sessions[conn.key].connection_id == conn.connection_id,
        !n.saved.contains_key(conn.key),
        ({
            let present = !c.clean_session && m.saved.contains_key(conn.key);
            let at = m.channels[id].queue.len() as int;
            let queue = n.channels[id].queue;
            let inflight = n.channels[id].session.outbound_inflight;
            &&& m.channels[id].queue.is_prefix_of(queue)
            &&& at < queue.len()
            &&& is_connack(queue[at], present, ConnackReturnCode::Accepted)
            &&& m.channels[id].session.bind is None ==> n.channels[id].session.bind == Some(
                (conn.key.1, c.keep_alive),
            )
            &&& !present ==> queue.len() == at + 1 && inflight.is_empty()
            &&& present ==> {
                &&& inflight == m.saved[conn.key].outbound_inflight
                &&& n.channels[id].session.qos2_recv == m.saved[conn.key].qos2_recv
                &&& exists|messages: Seq<packet::PublishModel>, ids: Seq<u16>|
                    {
                        &&& #[trigger] requests::lists_again(messages, ids, n.channels[id].session)
                        &&& queue.len() == at + 1 + messages.len() || (queue.len()
                            == m.channels[id].capacity && queue.len() < at + 1 + messages.len())
                        &&& forall|i: int|
                            0 <= i < queue.len() - at - 1 ==> #[trigger] queue[at + 1 + i]
                                == channel::CmdModel::Packet(
                                packet::PacketModel::Publish(messages[i]),
                            )
                    }
            }
        }),
{
    let key = conn.key;
    let (present, generation) = choose|present: bool, generation: u64|
        {
            &&& #[trigger] broker::registers(
                m,
                w.registered,
                (present, generation),
                (v.tenant, server::client_name(c, m.channels[id].connection_id)),
                c.username,
                id,
                server::will_of(c),
                c.clean_session,
                v.earlier_will,
                w.counted,
                w.reported,
            )
            &&& server::tells(
                w.registered,
                n,
                Ok(conn),
                id,
                present,
                server::connection_of(m, id, c, v.tenant, generation),
                v.own_will,
                w.own_counted,
                w.own_reported,
            )
        };
    assert(conn == server::connection_of(m, id, c, v.tenant, generation));
    lemma_registered_channel(
        m,
        w.registered,
        (present, generation),
        key,
        c.username,
        id,
        server::will_of(c),
        c.clean_session,
        v.earlier_will,
        w.counted,
        w.reported,
    );
    let ready = server::made_ready(w.registered, id, conn);
    let told = server::answered(
        ready,
        id,
        server::connack(present, ConnackReturnCode::Accepted),
    );
    let at = m.channels[id].queue.len() as int;
    assert(told.channels[id].queue == m.channels[id].queue.push(
        server::connack(present, ConnackReturnCode::Accepted),
    ));
    if present {
        let (messages, ids) = choose|messages: Seq<packet::PublishModel>, ids: Seq<u16>|
            #[trigger] requests::lists_again(messages, ids, told.channels[id].session) && n == (
            broker::BrokerModel {
                channels: told.channels.insert(
                    id,
                    requests::sent_all(told.channels[id], messages),
                ),
                ..told
            });
        lemma_sent_all(told.channels[id], messages);
        let queue = n.channels[id].queue;
        let front = told.channels[id].queue;
        assert(queue[at] == front[at]);
        assert(m.channels[id].queue.is_prefix_of(queue));
        assert forall|i: int| 0 <= i < queue.len() - at - 1 implies #[trigger] queue[at + 1 + i]
            == channel::CmdModel::Packet(packet::PacketModel::Publish(messages[i])) by {
            assert(queue[front.len() + i] == channel::CmdModel::Packet(
                packet::PacketModel::Publish(messages[i]),
            ));
        }
        assert(requests::lists_again(messages, ids, n.channels[id].session));
        assert(n.channels[id].session.outbound_inflight =~= m.saved[key].outbound_inflight);
        assert(n.channels[id].session.qos2_recv =~= m.saved[key].qos2_recv);
    }
}

/// Whoever registers, whether or not another one held the name, is registered as its
/// CONNECT said.
pub proof fn law_registered_as_connected(
    m: broker::BrokerModel,
    n: broker::BrokerModel,
    conn: server::ServerModel,
    id: u64,
    c: packet::ConnectModel,
    v: server::Verdict,
    w: server::Reports,
)
    requires
        server::finishes(m, n, Ok(conn), id, c, v, w),
    ensures
        v.auth.accepted,
        conn.key.0 == v.tenant,
        goes_by(c, conn.key.1),
        n.sessions.contains_key(conn.key),
        as_connected(n.sessions[conn.key], c, v.tenant, id),
        n.sessions[conn.key].connection_id == conn.connection_id,
{
}

// ----------------------------------------------------------------------------
// What a SUBSCRIBE brings
// ----------------------------------------------------------------------------

proof fn lemma_granted(filters: Seq<(Seq<char>, QoS)>, codes: Seq<SubackCode>, f: (Seq<char>, QoS))
    requires
        filters.len() == codes.len(),
    ensures
        inbound::granted(filters, codes).contains(f) <==> exists|i: int|
            0 <= i < filters.len() && (#[trigger] filters[i]).0 == f.0 && codes[i]
                == SubackCode::Granted(f.1),
    decreases filters.len(),
{
    if filters.len() > 0 {
        let front = inbound::granted(filters.drop_last(), codes.drop_last());
        let all = inbound::granted(filters, codes);
        let last = filters.len() - 1;
        lemma_granted(filters.drop_last(), codes.drop_last(), f);
        if all.contains(f) {
            let j = choose|j: int| 0 <= j < all.len() && all[j] == f;
            if j < front.len() {
                assert(front[j] == f);
                let i = choose|i: int|
                    0 <= i < filters.drop_last().len() && (#[trigger] filters.drop_last()[i]).0
                        == f.0 && codes.drop_last()[i] == SubackCode::Granted(f.1);
                assert(filters[i] == filters.drop_last()[i]);
            } else {
                assert(filters[last].0 == f.0);
            }
        }
        if exists|i: int|
            0 <= i < filters.len() && (#[trigger] filters[i]).0 == f.0 && codes[i]
                == SubackCode::Granted(f.1) {
            let i = choose|i: int|
                0 <= i < filters.len() && (#[trigger] filters[i]).0 == f.0 && codes[i]
                    == SubackCode::Granted(f.1);
            if i < last {
                assert(filters.drop_last()[i] == filters[i]);
                assert(codes.drop_last()[i] == codes[i]);
                let j = choose|j: int| 0 <= j < front.len() && front[j] == f;
                assert(all[j] == f);
            } else {
                assert(all.last() == f);
            }
        }
    }
}

/// What stands behind the answer to a SUBSCRIBE: every retained message of the tenant
/// that a granted filter matches is queued there, marked as retained and at the lower
/// of the kept level and the granted one, with the exceptions of any message.
pub proof fn law_subscribe_brings_what_is_kept(
    m: broker::BrokerModel,
    c: server::ServerModel,
    packet_id: u16,
    subscriptions: Seq<(Seq<char>, QoS)>,
    decisions: Seq<AclDecision>,
    n: broker::BrokerModel,
    d: server::ServerModel,
    i: int,
    name: Seq<char>,
)
    requires
        inbound::dispatches(
            m,
            c,
            packet::PacketModel::Subscribe { packet_id, subscriptions },
            decisions,
            n,
            d,
            Ok(()),
        ),
        decisions.len() == subscriptions.len(),
        m.channels.contains_key(c.channel),
        has_room(m.channels[c.channel]),
        m.sessions.contains_key(c.key),
        m.sessions[c.key].channel == c.channel,
        m.sessions[c.key].filters.dom().finite(),
        m.sessions[c.key].filters.len() + subscriptions.len() <= set_or(
            m.broker_safety.max_subscriptions_per_client,
            1_024,
        ),
        0 <= i < subscriptions.len(),
        permitted(subscriptions[i], decisions[i]),
        m.retained.contains_key((c.key.0, name)),
        topic::matches(subscriptions[i].0, name),
    ensures
        ({
            let kept = m.retained[(c.key.0, name)];
            let at = effects::lower_level(kept.qos, subscriptions[i].1);
            ||| effects::delivered_behind(
                n.channels[c.channel].queue,
                m.channels[c.channel].queue.len() + 1,
                name,
                kept.payload,
                true,
                at,
            )
            ||| effects::excused(n.channels[c.channel], at)
        }),
{
    let (mid, codes) = requests::subscribed(m, c.key, subscriptions, decisions);
    lemma_subscribe_steps(m, c.key, subscriptions, decisions, subscriptions.len());
    let told = server::answered(
        mid,
        c.channel,
        channel::CmdModel::Packet(packet::PacketModel::Suback { packet_id, return_codes: codes }),
    );
    let given = inbound::granted(subscriptions, codes);
    let f = (subscriptions[i].0, subscriptions[i].1);
    assert(codes[i] is Granted);
    assert(codes[i] == SubackCode::Granted(f.1));
    lemma_granted(subscriptions, codes, f);
    assert(given.contains(f));
    let j = choose|j: int| 0 <= j < given.len() && given[j] == f;
    assert(requests::replays(told, n, c.key, given));
    effects::law_new_subscriber_gets_what_is_kept(told, n, c.key, given, j, name);
}

// ----------------------------------------------------------------------------
// Names and permissions
// ----------------------------------------------------------------------------

/// A client goes by the identifier it gives. Two that give none go by different names,
/// each by one that its connection alone has.
pub proof fn law_names_of_clients(
    c: packet::ConnectModel,
    d: packet::ConnectModel,
    one: u64,
    other: u64,
)
    ensures
        c.client_id.len() > 0 ==> server::client_name(c, one) == c.client_id,
        c.client_id.len() == 0 && d.client_id.len() == 0 && one != other ==> server::client_name(
            c,
            one,
        ) != server::client_name(d, other),
        c.client_id.len() == 0 ==> server::client_name(c, one).len() > 0,
{
    reveal_strlit("hotaru-auto-");
    crate::auth::password::lemma_number_of_decimal(one as nat);
    crate::auth::password::lemma_number_of_decimal(other as nat);
    let a = "hotaru-auto-"@ + text::decimal(one as nat);
    let b = "hotaru-auto-"@ + text::decimal(other as nat);
    if a == b {
        assert(a.skip(12) =~= text::decimal(one as nat));
        assert(b.skip(12) =~= text::decimal(other as nat));
    }
}

/// Whose permission a message needs: the access rules are asked for its topic and the
/// sender, under the user name that is given with it or else the one the sender
/// registered with. A topic that starts with `$` is denied without asking.
pub proof fn law_who_may_publish<C: traits::AclChecker>(
    acl: C,
    m: broker::BrokerModel,
    tenant: Option<Seq<char>>,
    client: Seq<char>,
    username: Option<Seq<char>>,
    name: Seq<char>,
    d: AclDecision,
)
    requires
        broker::publish_asked(acl, m, tenant, client, username, name, d),
    ensures
        effects::reserved(name) ==> d == AclDecision::Deny,
        !effects::reserved(name) && username is Some ==> traits::says_publish(
            acl,
            tenant,
            client,
            username,
            name,
            d,
        ),
        !effects::reserved(name) && username is None && m.sessions.contains_key((tenant, client))
            ==> traits::says_publish(
            acl,
            tenant,
            client,
            m.sessions[(tenant, client)].username,
            name,
            d,
        ),
        !effects::reserved(name) && username is None && !m.sessions.contains_key((tenant, client))
            ==> traits::says_publish(acl, tenant, client, None, name, d),
{
}

/// The will of a client that is lost needs the permission for its topic, under the user
/// name of that client; the will of one that left in good order, and none at all, is
/// not asked about.
pub proof fn law_who_may_leave_a_will<C: traits::AclChecker>(
    acl: C,
    m: broker::BrokerModel,
    key: keyed::KeyModel,
    graceful: bool,
    d: AclDecision,
)
    requires
        m.sessions.contains_key(key),
        broker::end_asked(acl, m, key, m.sessions[key].connection_id, graceful, d),
    ensures
        graceful || m.sessions[key].will is None ==> d == AclDecision::Deny,
        !graceful ==> (m.sessions[key].will matches Some(w) ==> {
            &&& effects::reserved(w.topic) ==> d == AclDecision::Deny
            &&& !effects::reserved(w.topic) && m.sessions[key].username is Some
                ==> traits::says_publish(
                acl,
                m.sessions[key].tenant,
                Seq::empty(),
                m.sessions[key].username,
                w.topic,
                d,
            )
        }),
{
}

/// What the access rules are asked about a filter: for the client, its user name and
/// the filter, and only where it is well formed and the client registered.
pub proof fn law_who_may_subscribe<C: traits::AclChecker>(
    acl: C,
    m: broker::BrokerModel,
    key: keyed::KeyModel,
    filters: Seq<(Seq<char>, QoS)>,
    decisions: Seq<AclDecision>,
    i: int,
)
    requires
        requests::all_asked(acl, m, key, filters, decisions),
        0 <= i < filters.len(),
    ensures
        decisions.len() == filters.len(),
        m.sessions.contains_key(key) && topic::check_filter(filters[i].0) is Ok
            ==> traits::says_subscribe(
            acl,
            key.0,
            key.1,
            m.sessions[key].username,
            filters[i].0,
            decisions[i],
        ),
        !m.sessions.contains_key(key) || topic::check_filter(filters[i].0) is Err ==> decisions[i]
            == AclDecision::Deny,
{
    assert(requests::subscribe_asked(acl, m, key, filters[i].0, decisions[i]));
}

/// The worker of a connection takes the oldest message in line; without one it waits,
/// and is done once the connection has ended.
pub proof fn law_worker_takes_the_oldest(c: server::ServerModel, ended: bool)
    ensures
        ({
            let (d, step) = fanout::worked(c, ended);
            &&& c.fanout.len() > 0 ==> {
                &&& step == fanout::FanoutModel::Handle(c.fanout[0])
                &&& d.fanout == c.fanout.subrange(1, c.fanout.len() as int)
            }
            &&& c.fanout.len() == 0 && ended ==> step is Done && d == c
            &&& c.fanout.len() == 0 && !ended ==> step is Wait && d == c
            &&& d.key == c.key && d.channel == c.channel && d.connection_id == c.connection_id
        }),
{
    if c.fanout.len() > 0 {
        assert(c.fanout.drop_first() =~= c.fanout.subrange(1, c.fanout.len() as int));
    }
}

} // verus!
