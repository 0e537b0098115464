//! What holds of a broker through any course of events.
use crate::broker::broker;
use crate::broker::inbound;
use crate::broker::inbound::{ServerEvent, ServerStep};
use crate::broker::requests;
use crate::broker::server;
use crate::broker::traits::AclDecision;
use crate::broker::tree;
use crate::channel;
use crate::error::MqttError;
use crate::keyed;
use crate::packet;
use crate::request;
use crate::request::QoS;
use vstd::prelude::*;

verus! {

/// Something that happens to a broker, with what comes out of it.
pub enum Deed {
    /// The first packet of a connection is looked at.
    Begin { id: u64, packet: packet::PacketModel, result: Result<(), MqttError> },
    /// A CONNECT is finished.
    Finish {
        id: u64,
        connect: packet::ConnectModel,
        verdict: server::Verdict,
        reports: server::Reports,
        result: Result<server::ServerModel, MqttError>,
    },
    /// A connection takes one turn of its loop.
    Turn {
        conn: server::ServerModel,
        event: ServerEvent,
        decisions: Seq<AclDecision>,
        after: server::ServerModel,
        step: ServerStep,
    },
    /// A connection ends.
    End {
        conn: server::ServerModel,
        graceful: bool,
        decision: AclDecision,
        counted: usize,
        reported: usize,
    },
    /// A client is registered.
    Register {
        key: keyed::KeyModel,
        username: Option<Seq<char>>,
        connection: u64,
        will: Option<request::WillMessageModel>,
        clean_session: bool,
        decision: AclDecision,
        counted: usize,
        reported: usize,
        result: (bool, u64),
    },
    /// A registration ends.
    Unregister {
        key: keyed::KeyModel,
        connection_id: u64,
        graceful: bool,
        decision: AclDecision,
        counted: usize,
        reported: usize,
    },
    Subscribe {
        key: keyed::KeyModel,
        filters: Seq<(Seq<char>, QoS)>,
        decisions: Seq<AclDecision>,
        codes: Seq<request::SubackCode>,
    },
    Unsubscribe { key: keyed::KeyModel, topics: Seq<Seq<char>> },
    Publish {
        tenant: Option<Seq<char>>,
        source: Seq<char>,
        message: packet::PublishModel,
        decision: AclDecision,
        reported: usize,
    },
    /// The broker publishes a message of its own.
    PublishSys { tenant: Option<Seq<char>>, name: Seq<char>, payload: Seq<u8>, qos: QoS },
    /// A place for a connection is asked for, and given back.
    Admit { admitted: bool },
    Release,
    /// Something happens to connections, retained messages or saved sessions alone: a
    /// connection is opened or closed, an acknowledgement comes in, and the like.
    Elsewhere,
}

/// Whether a deed leads from one state to another.
pub open spec fn does(m: broker::BrokerModel, n: broker::BrokerModel, d: Deed) -> bool {
    match d {
        Deed::Begin { id, packet, result } => {
            &&& m.channels.contains_key(id)
            &&& (n, result) == server::begun(m, id, packet)
        },
        Deed::Finish { id, connect, verdict, reports, result } => {
            &&& m.channels.contains_key(id)
            &&& m.active_connections > 0
            &&& server::finishes(m, n, result, id, connect, verdict, reports)
        },
        Deed::Turn { conn, event, decisions, after, step } => {
            &&& m.channels.contains_key(conn.channel)
            &&& inbound::steps(m, conn, event, decisions, n, after, step)
        },
        Deed::End { conn, graceful, decision, counted, reported } => {
            &&& m.active_connections > 0
            &&& exists|gone: broker::BrokerModel| #[trigger]
                broker::unregisters(
                    m,
                    gone,
                    conn.key,
                    conn.connection_id,
                    graceful,
                    decision,
                    counted,
                    reported,
                ) && n == server::released(gone)
        },
        Deed::Register {
            key,
            username,
            connection,
            will,
            clean_session,
            decision,
            counted,
            reported,
            result,
        } => broker::registers(
            m,
            n,
            result,
            key,
            username,
            connection,
            will,
            clean_session,
            decision,
            counted,
            reported,
        ),
        Deed::Unregister { key, connection_id, graceful, decision, counted, reported } =>
            broker::unregisters(m, n, key, connection_id, graceful, decision, counted, reported),
        Deed::Subscribe { key, filters, decisions, codes } => (n, codes) == requests::subscribed(
            m,
            key,
            filters,
            decisions,
        ),
        Deed::Unsubscribe { key, topics } => n == requests::unsubscribed(m, key, topics),
        Deed::Publish { tenant, source, message, decision, reported } => broker::publishes(
            m,
            n,
            tenant,
            source,
            message,
            decision,
            reported,
        ),
        Deed::PublishSys { tenant, name, payload, qos } => broker::publishes_sys(
            m,
            n,
            tenant,
            name,
            payload,
            qos,
        ),
        Deed::Admit { admitted } => {
            &&& admitted == (m.active_connections < broker::connection_cap(m))
            &&& n == (broker::BrokerModel {
                active_connections: (m.active_connections + counts(d)) as usize,
                ..m
            })
        },
        Deed::Release => m.active_connections > 0 && n == server::released(m),
        Deed::Elsewhere => n == (broker::BrokerModel {
            channels: n.channels,
            retained: n.retained,
            saved: n.saved,
            sys_initialized: n.sys_initialized,
            ..m
        }),
    }
}

/// Whether these deeds lead through these states, one after the other.
pub open spec fn course(states: Seq<broker::BrokerModel>, deeds: Seq<Deed>) -> bool {
    &&& states.len() == deeds.len() + 1
    &&& forall|i: int|
        0 <= i < deeds.len() ==> does(states[i], states[i + 1], #[trigger] deeds[i])
}

/// Whether two states agree on the limits and on the counters.
spec fn same_counters(m: broker::BrokerModel, n: broker::BrokerModel) -> bool {
    &&& n.broker_safety == m.broker_safety
    &&& n.active_connections == m.active_connections
    &&& n.next_connection_id == m.next_connection_id
}

// ----------------------------------------------------------------------------
// Subscriptions
// ----------------------------------------------------------------------------

/// Whether a client, registered or not, is reached under no more filters than may be,
/// and is known with those very filters if it is registered.
pub open spec fn client_bounded(m: broker::BrokerModel, k: keyed::KeyModel) -> bool {
    let filters = tree::client_filters(m.subscriptions, k);
    &&& m.sessions.contains_key(k) ==> m.sessions[k].tenant == k.0 && m.sessions[k].filters
        == filters
    &&& filters.dom().finite()
    &&& filters.len() <= broker::subscription_cap(m)
}

/// Whether this holds of every client.
pub open spec fn subscriptions_bounded(m: broker::BrokerModel) -> bool {
    forall|k: keyed::KeyModel| #[trigger] client_bounded(m, k)
}

proof fn lemma_subscribe_step(
    m: broker::BrokerModel,
    key: keyed::KeyModel,
    filter: (Seq<char>, QoS),
    decision: AclDecision,
)
    requires
        subscriptions_bounded(m),
        m.sessions.contains_key(key),
    ensures
        subscriptions_bounded(requests::subscribe_step(m, key, filter, decision).0),
{
    let (n, code) = requests::subscribe_step(m, key, filter, decision);
    let f = (key.0, filter.0);
    if code is Granted {
        assert forall|k: keyed::KeyModel| #[trigger] client_bounded(n, k) by {
            tree::law_client_filters(m.subscriptions, f, key, filter.1, k);
            assert(client_bounded(m, k) && client_bounded(m, key));
            let before = tree::client_filters(m.subscriptions, k);
            assert(before.insert(f, filter.1).dom() =~= before.dom().insert(f));
        }
    }
}

proof fn lemma_subscribe_steps(
    m: broker::BrokerModel,
    key: keyed::KeyModel,
    filters: Seq<(Seq<char>, QoS)>,
    decisions: Seq<AclDecision>,
    n: nat,
)
    requires
        m.sessions.contains_key(key),
    ensures
        ({
            let after = requests::subscribe_steps(m, key, filters, decisions, n).0;
            &&& same_counters(m, after)
            &&& after.sessions.contains_key(key)
            &&& subscriptions_bounded(m) ==> subscriptions_bounded(after)
        }),
    decreases n,
{
    if n > 0 {
        lemma_subscribe_steps(m, key, filters, decisions, (n - 1) as nat);
        let mid = requests::subscribe_steps(m, key, filters, decisions, (n - 1) as nat).0;
        if subscriptions_bounded(m) {
            lemma_subscribe_step(mid, key, filters[n - 1], decisions[n - 1]);
        }
    }
}

proof fn lemma_unsubscribe_steps(
    m: broker::BrokerModel,
    key: keyed::KeyModel,
    topics: Seq<Seq<char>>,
    n: nat,
)
    requires
        m.sessions.contains_key(key),
    ensures
        ({
            let after = requests::unsubscribe_steps(m, key, topics, n);
            &&& same_counters(m, after)
            &&& after.sessions.contains_key(key)
            &&& subscriptions_bounded(m) ==> subscriptions_bounded(after)
        }),
    decreases n,
{
    if n > 0 {
        lemma_unsubscribe_steps(m, key, topics, (n - 1) as nat);
        let mid = requests::unsubscribe_steps(m, key, topics, (n - 1) as nat);
        let after = requests::unsubscribe_steps(m, key, topics, n);
        let f = (key.0, topics[n - 1]);
        if subscriptions_bounded(m) {
            assert forall|k: keyed::KeyModel| #[trigger] client_bounded(after, k) by {
                tree::law_client_filters(mid.subscriptions, f, key, QoS::AtMostOnce, k);
                assert(client_bounded(mid, k));
                let before = tree::client_filters(mid.subscriptions, k);
                assert(before.remove(f).dom() =~= before.dom().remove(f));
            }
        }
    }
}

/// A client that goes takes its own subscriptions along, or none.
proof fn lemma_gone(m: broker::BrokerModel, n: broker::BrokerModel, key: keyed::KeyModel)
    requires
        subscriptions_bounded(m),
        m.sessions.contains_key(key),
        n.sessions == m.sessions.remove(key),
        n.broker_safety == m.broker_safety,
        n.subscriptions == m.subscriptions || n.subscriptions == tree::without_client(
            m.subscriptions,
            m.sessions[key].tenant,
            key.1,
        ),
    ensures
        subscriptions_bounded(n),
{
    let f = (key.0, Seq::<char>::empty());
    assert forall|k: keyed::KeyModel| #[trigger] client_bounded(n, k) by {
        tree::law_client_filters(m.subscriptions, f, key, QoS::AtMostOnce, k);
        assert(client_bounded(m, k) && client_bounded(m, key));
    }
}

proof fn lemma_takes_over(
    m: broker::BrokerModel,
    n: broker::BrokerModel,
    key: keyed::KeyModel,
    decision: AclDecision,
    counted: usize,
    reported: usize,
)
    requires
        broker::takes_over(m, n, key, decision, counted, reported),
    ensures
        same_counters(m, n),
        n.sessions == m.sessions.remove(key),
        subscriptions_bounded(m) ==> subscriptions_bounded(n),
{
    if m.sessions.contains_key(key) {
        if subscriptions_bounded(m) {
            lemma_gone(m, n, key);
        }
    } else {
        assert(m.sessions.remove(key) =~= m.sessions);
    }
}

proof fn lemma_unregisters(
    m: broker::BrokerModel,
    n: broker::BrokerModel,
    key: keyed::KeyModel,
    connection_id: u64,
    graceful: bool,
    decision: AclDecision,
    counted: usize,
    reported: usize,
)
    requires
        broker::unregisters(m, n, key, connection_id, graceful, decision, counted, reported),
    ensures
        same_counters(m, n),
        subscriptions_bounded(m) ==> subscriptions_bounded(n),
{
    if m.sessions.contains_key(key) && m.sessions[key].connection_id == connection_id {
        if subscriptions_bounded(m) {
            lemma_gone(m, n, key);
        }
    }
}

proof fn lemma_registers(
    m: broker::BrokerModel,
    n: broker::BrokerModel,
    r: (bool, u64),
    key: keyed::KeyModel,
    username: Option<Seq<char>>,
    connection: u64,
    will: Option<request::WillMessageModel>,
    clean_session: bool,
    decision: AclDecision,
    counted: usize,
    reported: usize,
)
    requires
        broker::registers(
            m,
            n,
            r,
            key,
            username,
            connection,
            will,
            clean_session,
            decision,
            counted,
            reported,
        ),
    ensures
        n.broker_safety == m.broker_safety,
        n.active_connections == m.active_connections,
        r.1 == m.next_connection_id,
        m.next_connection_id < u64::MAX ==> n.next_connection_id == m.next_connection_id + 1,
        subscriptions_bounded(m) ==> subscriptions_bounded(n),
{
    let mid = choose|mid: broker::BrokerModel| #[trigger]
        broker::takes_over(m, mid, key, decision, counted, reported) && (n, r)
            == broker::installed(mid, key, username, connection, will, clean_session);
    lemma_takes_over(m, mid, key, decision, counted, reported);
    if subscriptions_bounded(m) {
        let f = (key.0, Seq::<char>::empty());
        assert forall|k: keyed::KeyModel| #[trigger] client_bounded(n, k) by {
            tree::law_client_filters(mid.subscriptions, f, key, QoS::AtMostOnce, k);
            assert(client_bounded(mid, k));
        }
    }
}

// ----------------------------------------------------------------------------
// One deed
// ----------------------------------------------------------------------------

/// By how much a deed changes the number of connections that count.
pub open spec fn counts(d: Deed) -> int {
    match d {
        Deed::Begin { result, .. } => if result is Ok {
            1
        } else {
            0
        },
        Deed::Finish { result, .. } => if result is Err {
            -1
        } else {
            0
        },
        Deed::End { .. } => -1,
        Deed::Admit { admitted } => if admitted {
            1
        } else {
            0
        },
        Deed::Release => -1,
        _ => 0,
    }
}

/// The generation that a deed hands out.
pub open spec fn hands_out(d: Deed) -> Option<u64> {
    match d {
        Deed::Register { result, .. } => Some(result.1),
        Deed::Finish { result, .. } => match result {
            Ok(conn) => Some(conn.connection_id),
            Err(_) => None,
        },
        _ => None,
    }
}

spec fn keeps(m: broker::BrokerModel, n: broker::BrokerModel, d: Deed) -> bool {
    &&& n.broker_safety == m.broker_safety
    &&& n.active_connections == m.active_connections + counts(d)
    &&& m.next_connection_id < u64::MAX ==> m.next_connection_id <= n.next_connection_id
    &&& hands_out(d) matches Some(g) ==> g == m.next_connection_id && (g < u64::MAX
        ==> n.next_connection_id > g)
    &&& subscriptions_bounded(m) ==> subscriptions_bounded(n)
}

/// What holds of the subscriptions does not depend on connections, messages or
/// counters.
proof fn lemma_same_books(m: broker::BrokerModel, n: broker::BrokerModel)
    requires
        n.sessions == m.sessions,
        n.subscriptions == m.subscriptions,
        n.broker_safety == m.broker_safety,
    ensures
        subscriptions_bounded(m) ==> subscriptions_bounded(n),
{
    if subscriptions_bounded(m) {
        assert forall|k: keyed::KeyModel| #[trigger] client_bounded(n, k) by {
            assert(client_bounded(m, k));
        }
    }
}

proof fn lemma_finish(
    m: broker::BrokerModel,
    n: broker::BrokerModel,
    r: Result<server::ServerModel, MqttError>,
    id: u64,
    c: packet::ConnectModel,
    v: server::Verdict,
    w: server::Reports,
)
    requires
        m.channels.contains_key(id),
        m.active_connections > 0,
        server::finishes(m, n, r, id, c, v, w),
    ensures
        n.broker_safety == m.broker_safety,
        m.next_connection_id < u64::MAX ==> m.next_connection_id <= n.next_connection_id,
        r matches Ok(conn) ==> conn.connection_id == m.next_connection_id && (
        m.next_connection_id < u64::MAX ==> n.next_connection_id == m.next_connection_id + 1),
        subscriptions_bounded(m) ==> subscriptions_bounded(n),
{
    if !v.auth.accepted {
        lemma_same_books(m, n);
    } else {
        let key = (v.tenant, server::client_name(c, m.channels[id].connection_id));
        let mid = w.registered;
        let (present, generation) = choose|present: bool, generation: u64|
            {
                &&& #[trigger] broker::registers(
                    m,
                    mid,
                    (present, generation),
                    key,
                    c.username,
                    id,
                    server::will_of(c),
                    c.clean_session,
                    v.earlier_will,
                    w.counted,
                    w.reported,
                )
                &&& server::tells(
                    mid,
                    n,
                    r,
                    id,
                    present,
                    server::connection_of(m, id, c, v.tenant, generation),
                    v.own_will,
                    w.own_counted,
                    w.own_reported,
                )
            };
        lemma_registers(
            m,
            mid,
            (present, generation),
            key,
            c.username,
            id,
            server::will_of(c),
            c.clean_session,
            v.earlier_will,
            w.counted,
            w.reported,
        );
        let conn = server::connection_of(m, id, c, v.tenant, generation);
        let ready = server::made_ready(mid, id, conn);
        lemma_same_books(mid, ready);
        if channel::send_result(ready.channels[id]) is Err {
            let gone = choose|gone: broker::BrokerModel| #[trigger]
                broker::unregisters(
                    ready,
                    gone,
                    conn.key,
                    conn.connection_id,
                    false,
                    v.own_will,
                    w.own_counted,
                    w.own_reported,
                ) && n == server::released(gone);
            lemma_unregisters(
                ready,
                gone,
                conn.key,
                conn.connection_id,
                false,
                v.own_will,
                w.own_counted,
                w.own_reported,
            );
            lemma_same_books(gone, n);
        } else {
            lemma_same_books(ready, n);
        }
    }
}

proof fn lemma_turn(
    m: broker::BrokerModel,
    c: server::ServerModel,
    e: ServerEvent,
    decisions: Seq<AclDecision>,
    n: broker::BrokerModel,
    d: server::ServerModel,
    r: ServerStep,
)
    requires
        m.channels.contains_key(c.channel),
        inbound::steps(m, c, e, decisions, n, d, r),
    ensures
        same_counters(m, n),
        subscriptions_bounded(m) ==> subscriptions_bounded(n),
{
    if m.channels[c.channel].open && inbound::stop_of(e) is None {
        let p = e->Packet_0@;
        match p {
            packet::PacketModel::Subscribe { packet_id, subscriptions } => {
                let (mid, codes) = requests::subscribed(m, c.key, subscriptions, decisions);
                if m.sessions.contains_key(c.key) {
                    lemma_subscribe_steps(m, c.key, subscriptions, decisions, subscriptions.len());
                }
                if subscriptions.len() <= inbound::filter_cap(m) {
                    lemma_same_books(mid, n);
                } else {
                    lemma_same_books(m, n);
                }
            },
            packet::PacketModel::Unsubscribe { packet_id, topics } => {
                let mid = requests::unsubscribed(m, c.key, topics);
                if m.sessions.contains_key(c.key) {
                    lemma_unsubscribe_steps(m, c.key, topics, topics.len());
                }
                if topics.len() <= inbound::filter_cap(m) {
                    lemma_same_books(mid, n);
                } else {
                    lemma_same_books(m, n);
                }
            },
            _ => {
                lemma_same_books(m, n);
            },
        }
    }
}

proof fn lemma_deed(m: broker::BrokerModel, n: broker::BrokerModel, d: Deed)
    requires
        does(m, n, d),
    ensures
        keeps(m, n, d),
{
    match d {
        Deed::Begin { .. } => {
            lemma_same_books(m, n);
        },
        Deed::Finish { id, connect, verdict, reports, result } => {
            lemma_finish(m, n, result, id, connect, verdict, reports);
            server::law_connection_counts_until_it_ends(
                m,
                n,
                result,
                id,
                connect,
                verdict,
                reports,
            );
        },
        Deed::Turn { conn, event, decisions, after, step } => {
            lemma_turn(m, conn, event, decisions, n, after, step);
        },
        Deed::End { conn, graceful, decision, counted, reported } => {
            let gone = choose|gone: broker::BrokerModel| #[trigger]
                broker::unregisters(
                    m,
                    gone,
                    conn.key,
                    conn.connection_id,
                    graceful,
                    decision,
                    counted,
                    reported,
                ) && n == server::released(gone);
            lemma_unregisters(
                m,
                gone,
                conn.key,
                conn.connection_id,
                graceful,
                decision,
                counted,
                reported,
            );
            lemma_same_books(gone, n);
        },
        Deed::Register {
            key,
            username,
            connection,
            will,
            clean_session,
            decision,
            counted,
            reported,
            result,
        } => {
            lemma_registers(
                m,
                n,
                result,
                key,
                username,
                connection,
                will,
                clean_session,
                decision,
                counted,
                reported,
            );
        },
        Deed::Unregister { key, connection_id, graceful, decision, counted, reported } => {
            lemma_unregisters(m, n, key, connection_id, graceful, decision, counted, reported);
        },
        Deed::Subscribe { key, filters, decisions, .. } => {
            if m.sessions.contains_key(key) {
                lemma_subscribe_steps(m, key, filters, decisions, filters.len());
            }
        },
        Deed::Unsubscribe { key, topics } => {
            if m.sessions.contains_key(key) {
                lemma_unsubscribe_steps(m, key, topics, topics.len());
            }
        },
        Deed::Publish { .. } => {
            lemma_same_books(m, n);
        },
        Deed::PublishSys { .. } => {
            lemma_same_books(m, n);
        },
        Deed::Admit { .. } => {
            lemma_same_books(m, n);
        },
        Deed::Release => {
            lemma_same_books(m, n);
        },
        Deed::Elsewhere => {
            lemma_same_books(m, n);
        },
    }
}

// ----------------------------------------------------------------------------
// Laws
// ----------------------------------------------------------------------------

/// A broker that nobody is registered with or subscribed to is within the limit, such
/// as a new one, whatever its limits.
pub proof fn law_empty_is_bounded(m: broker::BrokerModel)
    requires
        m.sessions == Map::<keyed::KeyModel, broker::EntryModel>::empty(),
        m.subscriptions == Map::<keyed::KeyModel, Map<keyed::KeyModel, QoS>>::empty(),
    ensures
        subscriptions_bounded(m),
{
    assert forall|k: keyed::KeyModel| #[trigger] client_bounded(m, k) by {
        assert(tree::client_filters(m.subscriptions, k) =~= Map::<keyed::KeyModel, QoS>::empty());
    }
}

/// Whatever happens, no client is ever reached under more filters than it may be
/// subscribed to: not by further SUBSCRIBEs, not by coming back to a session that
/// outlived its connection, and not by taking the place of another connection.
pub proof fn law_subscriptions_bounded(
    states: Seq<broker::BrokerModel>,
    deeds: Seq<Deed>,
    i: int,
    k: keyed::KeyModel,
)
    requires
        course(states, deeds),
        subscriptions_bounded(states[0]),
        0 <= i < states.len(),
    ensures
        subscriptions_bounded(states[i]),
        tree::client_filters(states[i].subscriptions, k).dom().finite(),
        tree::client_filters(states[i].subscriptions, k).len() <= broker::subscription_cap(
            states[i],
        ),
        broker::subscription_cap(states[i]) == broker::subscription_cap(states[0]),
    decreases i,
{
    if i > 0 {
        law_subscriptions_bounded(states, deeds, i - 1, k);
        assert(does(states[i - 1], states[i - 1 + 1], deeds[i - 1]));
        lemma_deed(states[i - 1], states[i], deeds[i - 1]);
    }
    assert(client_bounded(states[i], k));
}

/// Whatever happens, no more connections count than may be.
pub proof fn law_connections_within_the_limit(
    states: Seq<broker::BrokerModel>,
    deeds: Seq<Deed>,
    i: int,
)
    requires
        course(states, deeds),
        states[0].active_connections <= broker::connection_cap(states[0]),
        0 <= i < states.len(),
    ensures
        states[i].active_connections <= broker::connection_cap(states[0]),
        states[i].broker_safety == states[0].broker_safety,
    decreases i,
{
    if i > 0 {
        law_connections_within_the_limit(states, deeds, i - 1);
        assert(does(states[i - 1], states[i - 1 + 1], deeds[i - 1]));
        lemma_deed(states[i - 1], states[i], deeds[i - 1]);
    }
}

/// By how much these deeds together change the number of connections that count.
pub open spec fn counts_all(deeds: Seq<Deed>) -> int
    decreases deeds.len(),
{
    if deeds.len() == 0 {
        0
    } else {
        counts_all(deeds.drop_last()) + counts(deeds.last())
    }
}

/// The number of connections that count is always that of the connections that were
/// let in, less those that were turned away afterwards and those that have ended.
pub proof fn law_active_connections(states: Seq<broker::BrokerModel>, deeds: Seq<Deed>)
    requires
        course(states, deeds),
    ensures
        states.last().active_connections == states[0].active_connections + counts_all(deeds),
    decreases deeds.len(),
{
    if deeds.len() > 0 {
        let n = deeds.len() as int;
        let front = states.drop_last();
        assert forall|i: int| 0 <= i < deeds.drop_last().len() implies does(
            front[i],
            front[i + 1],
            #[trigger] deeds.drop_last()[i],
        ) by {
            assert(does(states[i], states[i + 1], deeds[i]));
        }
        law_active_connections(front, deeds.drop_last());
        assert(does(states[n - 1], states[n - 1 + 1], deeds[n - 1]));
        lemma_deed(states[n - 1], states[n], deeds[n - 1]);
    }
}

/// Whether these are all the deeds of one connection: it is looked at and, if it is
/// let in, its CONNECT is finished; if that succeeds, it takes any number of turns and
/// then ends.
pub open spec fn whole_connection(deeds: Seq<Deed>) -> bool {
    &&& deeds.len() > 0
    &&& deeds[0] matches Deed::Begin { result: begun, .. } && if begun is Err {
        deeds.len() == 1
    } else {
        &&& deeds.len() > 1
        &&& deeds[1] matches Deed::Finish { result: finished, .. } && if finished is Err {
            deeds.len() == 2
        } else {
            &&& deeds.len() > 2
            &&& deeds.last() is End
            &&& forall|i: int| 2 <= i < deeds.len() - 1 ==> #[trigger] deeds[i] is Turn
        }
    }
}

proof fn lemma_turns_count_nothing(deeds: Seq<Deed>, n: int)
    requires
        2 <= n <= deeds.len(),
        forall|i: int| 2 <= i < n ==> #[trigger] deeds[i] is Turn,
    ensures
        counts_all(deeds.take(n)) == counts(deeds[0]) + counts(deeds[1]),
    decreases n,
{
    let front = deeds.take(n);
    assert(front.drop_last() =~= deeds.take(n - 1));
    if n == 2 {
        assert(deeds.take(1).drop_last() =~= Seq::<Deed>::empty());
        assert(counts_all(Seq::<Deed>::empty()) == 0);
        assert(counts_all(deeds.take(1)) == counts(deeds[0]));
    } else {
        lemma_turns_count_nothing(deeds, n - 1);
        assert(deeds[n - 1] is Turn);
    }
}

/// A whole connection changes the number of connections that count by nothing,
/// however it ends: turned away at once, refused by its CONNECT, lost before it
/// could be told that it was accepted, or ended after any number of packets.
pub proof fn law_whole_connection_counts_nothing(deeds: Seq<Deed>)
    requires
        whole_connection(deeds),
    ensures
        counts_all(deeds) == 0,
{
    let n = deeds.len() as int;
    if n == 1 {
        assert(deeds.drop_last() =~= Seq::<Deed>::empty());
        assert(counts_all(Seq::<Deed>::empty()) == 0);
    } else if n == 2 {
        lemma_turns_count_nothing(deeds, 2);
        assert(deeds.take(2) =~= deeds);
    } else {
        lemma_turns_count_nothing(deeds, n - 1);
        assert(deeds.drop_last() =~= deeds.take(n - 1));
    }
}

/// A connection that is alone with the broker leaves the count as it found it.
pub proof fn law_connection_leaves_the_count(states: Seq<broker::BrokerModel>, deeds: Seq<Deed>)
    requires
        course(states, deeds),
        whole_connection(deeds),
    ensures
        states.last().active_connections == states[0].active_connections,
{
    law_active_connections(states, deeds);
    law_whole_connection_counts_nothing(deeds);
}

/// A registration's generation is greater than every one handed out before, for as
/// long as the counter has not gone all the way round.
pub proof fn law_generations_grow(
    states: Seq<broker::BrokerModel>,
    deeds: Seq<Deed>,
    i: int,
    j: int,
)
    requires
        course(states, deeds),
        forall|a: int|
            0 <= a < deeds.len() ==> (#[trigger] states[a]).next_connection_id < u64::MAX,
        0 <= i < j < deeds.len(),
        hands_out(deeds[i]) is Some,
        hands_out(deeds[j]) is Some,
    ensures
        hands_out(deeds[i])->0 < hands_out(deeds[j])->0,
{
    assert(does(states[i], states[i + 1], deeds[i]));
    lemma_deed(states[i], states[i + 1], deeds[i]);
    lemma_counter_grows(states, deeds, i + 1, j);
    assert(does(states[j], states[j + 1], deeds[j]));
    lemma_deed(states[j], states[j + 1], deeds[j]);
}

proof fn lemma_counter_grows(
    states: Seq<broker::BrokerModel>,
    deeds: Seq<Deed>,
    i: int,
    j: int,
)
    requires
        course(states, deeds),
        forall|a: int|
            0 <= a < deeds.len() ==> (#[trigger] states[a]).next_connection_id < u64::MAX,
        0 <= i <= j < deeds.len(),
    ensures
        states[i].next_connection_id <= states[j].next_connection_id,
    decreases j - i,
{
    if i < j {
        lemma_counter_grows(states, deeds, i, j - 1);
        assert(does(states[j - 1], states[j - 1 + 1], deeds[j - 1]));
        lemma_deed(states[j - 1], states[j], deeds[j - 1]);
    }
}

} // verus!
