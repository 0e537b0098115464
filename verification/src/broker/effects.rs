//! What a client sees of the broker's operations: the fields of the messages that
//! are queued for it, and what an acknowledgement, a lost connection or a new
//! subscription leaves behind.
use crate::broker::broker;
use crate::broker::delivery;
use crate::broker::fanout;
use crate::broker::inbound;
use crate::broker::laws;
use crate::broker::lifecycle;
use crate::broker::requests;
use crate::broker::safety::SlowConsumerPolicy;
use crate::broker::server;
use crate::broker::traits;
use crate::broker::traits::AclDecision;
use crate::broker::tree;
use crate::channel;
use crate::error::MqttError;
use crate::keyed;
use crate::packet;
use crate::properties;
use crate::request;
use crate::request::QoS;
use crate::session;
use crate::topic;
use vstd::prelude::*;

verus! {

// ----------------------------------------------------------------------------
// Vocabulary
// ----------------------------------------------------------------------------

/// The level as a number.
pub open spec fn level(q: QoS) -> int {
    match q {
        QoS::AtMostOnce => 0,
        QoS::AtLeastOnce => 1,
        QoS::ExactlyOnce => 2,
    }
}

/// The smaller of two levels.
pub open spec fn lower_level(a: QoS, b: QoS) -> int {
    if level(a) < level(b) {
        level(a)
    } else {
        level(b)
    }
}

/// Whether a command delivers a message of this topic and payload, at this level.
/// It is no duplicate.
pub open spec fn delivers(
    cmd: channel::CmdModel,
    topic: Seq<char>,
    payload: Seq<u8>,
    retain: bool,
    at: int,
) -> bool {
    &&& cmd is Publish
    &&& cmd->Publish_0.topic == topic
    &&& cmd->Publish_0.payload == payload
    &&& cmd->Publish_0.retain == retain
    &&& !cmd->Publish_0.dup
    &&& level(cmd->Publish_0.qos) == at
}

/// Whether such a command stands in a queue behind its first `from` commands.
pub open spec fn delivered_behind(
    queue: Seq<channel::CmdModel>,
    from: nat,
    topic: Seq<char>,
    payload: Seq<u8>,
    retain: bool,
    at: int,
) -> bool {
    exists|i: int|
        from <= i < queue.len() && delivers(#[trigger] queue[i], topic, payload, retain, at)
}

/// Whether a connection may lack a message at this level: it does not stay open, or
/// its queue is full and the message at QoS 0.
pub open spec fn excused(c: channel::ChannelModel, at: int) -> bool {
    !c.open || (at == 0 && c.queue.len() >= c.capacity)
}

/// Whether a topic name starts with `$`.
pub open spec fn reserved(topic: Seq<char>) -> bool {
    topic.len() > 0 && topic[0] == '$'
}

// ----------------------------------------------------------------------------
// Acknowledgements
// ----------------------------------------------------------------------------

/// A PUBACK and a PUBCOMP settle the message under their identifier, and only that
/// one: the session of the client that sent them has nothing in flight under it any
/// more, nobody waits for it, and everything else in flight is as it was. No other
/// connection, and nothing else of this one, changes.
pub proof fn law_acknowledgement_settles(
    m: broker::BrokerModel,
    c: server::ServerModel,
    p: packet::PacketModel,
    k: u16,
    n: broker::BrokerModel,
    d: server::ServerModel,
    r: Result<(), MqttError>,
)
    requires
        p == packet::PacketModel::Puback(k) || p == packet::PacketModel::Pubcomp(k),
        inbound::dispatches(m, c, p, Seq::empty(), n, d, r),
        m.sessions.contains_key(c.key),
        m.channels.contains_key(m.sessions[c.key].channel),
    ensures
        r is Ok,
        d == c,
        ({
            let id = m.sessions[c.key].channel;
            let before = m.channels[id].session;
            let after = n.channels[id].session;
            &&& n.channels.contains_key(id)
            &&& !after.outbound_inflight.contains_key(k)
            &&& !after.pending_acks.contains_key(k)
            &&& forall|other: u16|
                other != k ==> {
                    &&& #[trigger] after.outbound_inflight.contains_key(other)
                        <==> before.outbound_inflight.contains_key(other)
                    &&& before.outbound_inflight.contains_key(other)
                        ==> after.outbound_inflight[other] == before.outbound_inflight[other]
                }
            &&& after.qos2_recv == before.qos2_recv
            &&& n.channels[id].queue == m.channels[id].queue
            &&& n.channels[id].open == m.channels[id].open
            &&& forall|other: u64|
                other != id && m.channels.contains_key(other) ==> #[trigger] n.channels[other]
                    == m.channels[other]
            &&& n.sessions == m.sessions
            &&& n.subscriptions == m.subscriptions
            &&& n.retained == m.retained
        }),
{
}

/// A message whose exchange is complete is not sent again when its session resumes:
/// not under its identifier, whatever else is sent.
pub proof fn law_settled_is_not_sent_again(
    m: broker::BrokerModel,
    c: server::ServerModel,
    p: packet::PacketModel,
    k: u16,
    n: broker::BrokerModel,
    d: server::ServerModel,
    r: Result<(), MqttError>,
    later: session::SessionModel,
    messages: Seq<packet::PublishModel>,
    ids: Seq<u16>,
)
    requires
        p == packet::PacketModel::Puback(k) || p == packet::PacketModel::Pubcomp(k),
        inbound::dispatches(m, c, p, Seq::empty(), n, d, r),
        m.sessions.contains_key(c.key),
        m.channels.contains_key(m.sessions[c.key].channel),
        later.outbound_inflight
            == n.channels[m.sessions[c.key].channel].session.outbound_inflight,
        requests::lists_again(messages, ids, later),
    ensures
        !ids.contains(k),
{
    law_acknowledgement_settles(m, c, p, k, n, d, r);
    if ids.contains(k) {
        let i = choose|i: int| 0 <= i < ids.len() && ids[i] == k;
        assert(session::as_duplicates(later.outbound_inflight).contains_key(ids[i]));
    }
}

/// What is sent again is what is in flight, each message once and in ascending
/// order of the identifiers, with every field as it was but for the duplicate flag,
/// which is set.
pub proof fn law_sent_again_as_it_was(
    s: session::SessionModel,
    messages: Seq<packet::PublishModel>,
    ids: Seq<u16>,
)
    requires
        requests::lists_again(messages, ids, s),
    ensures
        messages.len() == ids.len(),
        forall|i: int, j: int| 0 <= i < j < ids.len() ==> #[trigger] ids[i] < #[trigger] ids[j],
        forall|id: u16|
            #![trigger s.outbound_inflight.contains_key(id)]
            #![trigger ids.contains(id)]
            s.outbound_inflight.contains_key(id) <==> ids.contains(id),
        forall|i: int|
            0 <= i < ids.len() ==> {
                let was = s.outbound_inflight[#[trigger] ids[i]];
                &&& messages[i].dup
                &&& messages[i].topic == was.topic
                &&& messages[i].payload == was.payload
                &&& messages[i].qos == was.qos
                &&& messages[i].retain == was.retain
                &&& messages[i].packet_id == was.packet_id
                &&& messages[i].properties == was.properties
            },
{
    let again = session::as_duplicates(s.outbound_inflight);
    assert forall|id: u16|
        #![trigger s.outbound_inflight.contains_key(id)]
        #![trigger ids.contains(id)]
        s.outbound_inflight.contains_key(id) <==> ids.contains(id) by {
        assert(again.contains_key(id) <==> s.outbound_inflight.contains_key(id));
        if ids.contains(id) {
            let i = choose|i: int| 0 <= i < ids.len() && ids[i] == id;
            assert(again.contains_key(ids[i]));
        }
    }
    assert forall|i: int| 0 <= i < ids.len() implies {
        let was = s.outbound_inflight[#[trigger] ids[i]];
        &&& messages[i].dup
        &&& messages[i].topic == was.topic
        &&& messages[i].payload == was.payload
        &&& messages[i].qos == was.qos
        &&& messages[i].retain == was.retain
        &&& messages[i].packet_id == was.packet_id
        &&& messages[i].properties == was.properties
    } by {
        assert(again.contains_key(ids[i]));
    }
}

// ----------------------------------------------------------------------------
// Messages
// ----------------------------------------------------------------------------

/// A message reaches whoever is subscribed under a filter that matches its topic,
/// other than its sender: with its topic and payload, neither marked as retained nor
/// as a duplicate, at the lower of its own level and the one that was granted.
pub proof fn law_subscriber_gets_the_message(
    m: broker::BrokerModel,
    n: broker::BrokerModel,
    tenant: Option<Seq<char>>,
    source: Seq<char>,
    p: packet::PublishModel,
    reported: usize,
    filter: Seq<char>,
    client: Seq<char>,
)
    requires
        broker::publishes(m, n, tenant, source, p, AclDecision::Allow, reported),
        !reserved(p.topic),
        m.subscriptions.contains_key((tenant, filter)),
        m.subscriptions[(tenant, filter)].contains_key((tenant, client)),
        topic::matches(filter, p.topic),
        client != source,
        m.sessions.contains_key((tenant, client)),
        m.channels.contains_key(m.sessions[(tenant, client)].channel),
        m.channels[m.sessions[(tenant, client)].channel].writing,
    ensures
        ({
            let id = m.sessions[(tenant, client)].channel;
            let at = lower_level(p.qos, m.subscriptions[(tenant, filter)][(tenant, client)]);
            ||| delivered_behind(
                n.channels[id].queue,
                m.channels[id].queue.len(),
                p.topic,
                p.payload,
                false,
                at,
            )
            ||| excused(n.channels[id], at)
        }),
{
    let h = ((tenant, filter), (tenant, client));
    let id = m.sessions[(tenant, client)].channel;
    let qos = request::qos_min(p.qos, m.subscriptions[h.0][h.1]);
    let at = lower_level(p.qos, m.subscriptions[h.0][h.1]);
    assert(tree::is_hit(m.subscriptions, tenant, p.topic, h));
    laws::law_publish_reaches_subscribers(m, n, tenant, source, p, reported, h);
    let queue = n.channels[id].queue;
    let from = m.channels[id].queue.len();
    if laws::holds_message(queue, from, laws::copy_at(p, qos)) {
        let i = choose|i: int|
            from <= i < queue.len() && laws::is_message(#[trigger] queue[i], laws::copy_at(p, qos));
        assert(delivers(queue[i], p.topic, p.payload, false, at));
    }
}

/// Whether somebody on this connection is owed a copy of a message in this form:
/// a registered client of the tenant other than the sender, subscribed under a
/// filter that matches.
pub open spec fn owed(
    m: broker::BrokerModel,
    tenant: Option<Seq<char>>,
    source: Option<Seq<char>>,
    p: packet::PublishModel,
    id: u64,
    cmd: channel::CmdModel,
) -> bool {
    exists|filter: Seq<char>, client: keyed::KeyModel|
        {
            &&& m.subscriptions.contains_key((tenant, filter))
            &&& #[trigger] m.subscriptions[(tenant, filter)].contains_key(client)
            &&& topic::matches(filter, p.topic)
            &&& source != Some(client.1)
            &&& m.sessions.contains_key((tenant, client.1))
            &&& m.sessions[(tenant, client.1)].channel == id
            &&& delivers(
                cmd,
                p.topic,
                p.payload,
                false,
                lower_level(p.qos, m.subscriptions[(tenant, filter)][client]),
            )
        }
}

proof fn lemma_fan_out_owed(
    m: broker::BrokerModel,
    fan: broker::Fan,
    p: packet::PublishModel,
    hits: Seq<tree::Hit>,
    n: nat,
    id: u64,
)
    requires
        n <= hits.len(),
        m.channels.contains_key(id),
        tree::lists_hits(hits, m.subscriptions, fan.tenant, p.topic),
        fan.message.topic == p.topic,
        fan.message.payload == p.payload,
        fan.message.qos == p.qos,
        !fan.message.retain,
        !fan.message.dup,
    ensures
        ({
            let after = broker::fan_out(
                m.channels,
                m.sessions,
                fan,
                tree::read_hits(hits, m.subscriptions),
                n,
            );
            &&& after.contains_key(id)
            &&& m.channels[id].queue.is_prefix_of(after[id].queue)
            &&& after[id].queue.len() <= m.channels[id].queue.len() + n
            &&& forall|j: int|
                m.channels[id].queue.len() <= j < after[id].queue.len() ==> owed(
                    m,
                    fan.tenant,
                    fan.source,
                    p,
                    id,
                    #[trigger] after[id].queue[j],
                )
        }),
    decreases n,
{
    if n > 0 {
        let targets = tree::read_hits(hits, m.subscriptions);
        lemma_fan_out_owed(m, fan, p, hits, (n - 1) as nat, id);
        let before = broker::fan_out(m.channels, m.sessions, fan, targets, (n - 1) as nat);
        let after = broker::fan_out(m.channels, m.sessions, fan, targets, n);
        let h = hits[n - 1];
        assert(hits.contains(h));
        assert(tree::is_hit(m.subscriptions, fan.tenant, p.topic, h));
        assert(targets[n - 1] == (h.1.1, m.subscriptions[h.0][h.1]));
        assert(after == broker::fan_step(before, m.sessions, fan, targets[n - 1]));
        assert(before[id].queue.is_prefix_of(after[id].queue));
        assert(after[id].queue.len() <= before[id].queue.len() + 1);
        assert forall|j: int| m.channels[id].queue.len() <= j < after[id].queue.len() implies owed(
            m,
            fan.tenant,
            fan.source,
            p,
            id,
            #[trigger] after[id].queue[j],
        ) by {
            if j < before[id].queue.len() {
                assert(after[id].queue[j] == before[id].queue[j]);
            } else {
                let filter = h.0.1;
                assert(h.0 == (fan.tenant, filter));
                assert(m.subscriptions[(fan.tenant, filter)].contains_key(h.1));
            }
        }
    }
}

/// Nobody gets more than that: whatever a message adds to a queue is a copy of it
/// for a client on that connection, other than the sender, that is subscribed under
/// a filter that matches. What stood in the queue stays in front.
pub proof fn law_only_subscribers_get_the_message(
    m: broker::BrokerModel,
    n: broker::BrokerModel,
    tenant: Option<Seq<char>>,
    source: Seq<char>,
    p: packet::PublishModel,
    decision: AclDecision,
    reported: usize,
    id: u64,
    j: int,
)
    requires
        broker::publishes(m, n, tenant, source, p, decision, reported),
        m.channels.contains_key(id),
        m.channels[id].queue.len() <= j < n.channels[id].queue.len(),
    ensures
        decision == AclDecision::Allow,
        !reserved(p.topic),
        m.channels[id].queue.is_prefix_of(n.channels[id].queue),
        owed(m, tenant, Some(source), p, id, n.channels[id].queue[j]),
{
    let targets = choose|targets: Seq<(Seq<char>, QoS)>| #[trigger]
        tree::lists_targets(targets, m.subscriptions, tenant, p.topic) && n == broker::spread(
            m,
            tenant,
            source,
            p,
            reported,
            targets,
        );
    let hits = choose|l: Seq<tree::Hit>| #[trigger]
        tree::lists_hits(l, m.subscriptions, tenant, p.topic) && targets == tree::read_hits(
            l,
            m.subscriptions,
        );
    let fan = broker::Fan {
        tenant,
        source: Some(source),
        message: broker::current_copy(p),
        max_inflight: broker::inflight_cap(m),
        policy: broker::policy_of(m),
    };
    lemma_fan_out_owed(m, fan, p, hits, hits.len(), id);
}

/// What a message does to the retained ones. One without the retain flag leaves
/// them. One with the flag and a payload is from then on what its topic has, as far
/// as the limits let it: with that payload at that level. One with the flag and no
/// payload takes away what its topic has. Other topics keep theirs.
pub proof fn law_retained_follows_the_message(
    m: broker::BrokerModel,
    n: broker::BrokerModel,
    tenant: Option<Seq<char>>,
    source: Seq<char>,
    p: packet::PublishModel,
    reported: usize,
)
    requires
        broker::publishes(m, n, tenant, source, p, AclDecision::Allow, reported),
        !reserved(p.topic),
    ensures
        retained_after(m, n, tenant, p.topic, p.payload, p.qos, p.retain, reported),
{
}

/// Whether the retained messages have followed a message with these fields.
pub open spec fn retained_after(
    m: broker::BrokerModel,
    n: broker::BrokerModel,
    tenant: Option<Seq<char>>,
    topic: Seq<char>,
    payload: Seq<u8>,
    qos: QoS,
    retain: bool,
    reported: usize,
) -> bool {
    let key = (tenant, topic);
    let fits = reported + payload.len() <= broker::retained_bytes_cap(m) && (
    m.retained.contains_key(key) || keyed::scoped_keys(m.retained, tenant).len()
        < broker::retained_cap(m));
    &&& !retain ==> n.retained == m.retained
    &&& retain && payload.len() == 0 ==> !n.retained.contains_key(key)
    &&& retain && payload.len() > 0 && fits ==> {
        &&& n.retained.contains_key(key)
        &&& n.retained[key].payload == payload
        &&& n.retained[key].qos == qos
    }
    &&& retain && payload.len() > 0 && !fits && broker::retained_bytes_cap(m) < usize::MAX
        ==> n.retained == m.retained
    &&& forall|other: keyed::KeyModel|
        other != key ==> {
            &&& #[trigger] n.retained.contains_key(other) <==> m.retained.contains_key(other)
            &&& m.retained.contains_key(other) ==> n.retained[other] == m.retained[other]
        }
}

// ----------------------------------------------------------------------------
// Wills
// ----------------------------------------------------------------------------

/// What becomes of the will of a client that is lost, whether it is gone or another
/// one took its place: its message goes out with the topic, payload, level and
/// retain flag that the will has.
proof fn lemma_will_goes_out(
    m: broker::BrokerModel,
    n: broker::BrokerModel,
    e: broker::EntryModel,
    client: Seq<char>,
    w: request::WillMessageModel,
    counted: usize,
    reported: usize,
)
    requires
        e.will == Some(w),
        !reserved(w.topic),
        broker::cleans_up(m, n, e, client, false, AclDecision::Allow, counted, reported),
    ensures
        retained_after(m, n, e.tenant, w.topic, w.payload, w.qos, w.retain, reported),
{
    let rest = broker::put_away(m, e, client, counted);
    law_retained_follows_the_message(
        rest,
        n,
        e.tenant,
        Seq::empty(),
        broker::will_publish(w),
        reported,
    );
    assert(rest.retained == m.retained);
}

/// The will of a client that is lost is published with the fields it was given:
/// where its retain flag is set and it has a payload, the tenant's retained message
/// for its topic is afterwards that payload at that level, as far as the limits let
/// it; where the flag is not set, nothing retained changes.
pub proof fn law_lost_will_is_retained(
    m: broker::BrokerModel,
    n: broker::BrokerModel,
    key: keyed::KeyModel,
    w: request::WillMessageModel,
    counted: usize,
    reported: usize,
)
    requires
        m.sessions.contains_key(key),
        m.sessions[key].tenant == key.0,
        m.sessions[key].will == Some(w),
        !reserved(w.topic),
        broker::unregisters(
            m,
            n,
            key,
            m.sessions[key].connection_id,
            false,
            AclDecision::Allow,
            counted,
            reported,
        ),
    ensures
        retained_after(m, n, key.0, w.topic, w.payload, w.qos, w.retain, reported),
{
    let gone = broker::BrokerModel { sessions: m.sessions.remove(key), ..m };
    lemma_will_goes_out(gone, n, m.sessions[key], key.1, w, counted, reported);
}

/// So is the will of a client whose place is taken by another one of its name.
pub proof fn law_displaced_will_is_retained(
    m: broker::BrokerModel,
    n: broker::BrokerModel,
    r: (bool, u64),
    key: keyed::KeyModel,
    username: Option<Seq<char>>,
    connection: u64,
    will: Option<request::WillMessageModel>,
    clean_session: bool,
    w: request::WillMessageModel,
    counted: usize,
    reported: usize,
)
    requires
        m.sessions.contains_key(key),
        m.sessions[key].tenant == key.0,
        m.sessions[key].will == Some(w),
        !reserved(w.topic),
        broker::registers(
            m,
            n,
            r,
            key,
            username,
            connection,
            will,
            clean_session,
            AclDecision::Allow,
            counted,
            reported,
        ),
    ensures
        retained_after(m, n, key.0, w.topic, w.payload, w.qos, w.retain, reported),
{
    let mid = choose|mid: broker::BrokerModel| #[trigger]
        broker::takes_over(m, mid, key, AclDecision::Allow, counted, reported) && (n, r)
            == broker::installed(mid, key, username, connection, will, clean_session);
    let e = m.sessions[key];
    let gone = broker::BrokerModel {
        sessions: m.sessions.remove(key),
        channels: delivery::with_channel(
            m.channels,
            e.channel,
            channel::closed(m.channels[e.channel]),
        ),
        ..m
    };
    lemma_will_goes_out(gone, mid, e, key.1, w, counted, reported);
}

/// The subscribers of a lost client's will get it with the topic and the payload it
/// was given, at the lower of its level and theirs.
pub proof fn law_subscriber_gets_the_will(
    m: broker::BrokerModel,
    n: broker::BrokerModel,
    key: keyed::KeyModel,
    w: request::WillMessageModel,
    counted: usize,
    reported: usize,
    filter: Seq<char>,
    client: Seq<char>,
)
    requires
        m.sessions.contains_key(key),
        m.sessions[key].tenant == key.0,
        m.sessions[key].will == Some(w),
        !reserved(w.topic),
        broker::unregisters(
            m,
            n,
            key,
            m.sessions[key].connection_id,
            false,
            AclDecision::Allow,
            counted,
            reported,
        ),
        m.subscriptions.contains_key((key.0, filter)),
        m.subscriptions[(key.0, filter)].contains_key((key.0, client)),
        topic::matches(filter, w.topic),
        client != key.1,
        client.len() > 0,
        m.sessions.contains_key((key.0, client)),
        m.sessions[(key.0, client)].channel != m.sessions[key].channel,
        m.channels.contains_key(m.sessions[(key.0, client)].channel),
        m.channels[m.sessions[(key.0, client)].channel].writing,
    ensures
        ({
            let id = m.sessions[(key.0, client)].channel;
            let at = lower_level(w.qos, m.subscriptions[(key.0, filter)][(key.0, client)]);
            ||| delivered_behind(
                n.channels[id].queue,
                m.channels[id].queue.len(),
                w.topic,
                w.payload,
                false,
                at,
            )
            ||| excused(n.channels[id], at)
        }),
{
    let h = ((key.0, filter), (key.0, client));
    let e = m.sessions[key];
    let gone = broker::BrokerModel { sessions: m.sessions.remove(key), ..m };
    let rest = broker::put_away(gone, e, key.1, counted);
    tree::law_remove_client(m.subscriptions, key.0, key.1, key.0, w.topic, h);
    assert(tree::is_hit(m.subscriptions, key.0, w.topic, h));
    assert(tree::is_hit(rest.subscriptions, key.0, w.topic, h));
    assert(rest.subscriptions[h.0][h.1] == m.subscriptions[h.0][h.1]);
    law_subscriber_gets_the_message(
        rest,
        n,
        key.0,
        Seq::empty(),
        broker::will_publish(w),
        reported,
        filter,
        client,
    );
}

// ----------------------------------------------------------------------------
// Retained messages for a new subscription
// ----------------------------------------------------------------------------

/// A retained message that a new filter matches is queued with its topic and its
/// payload, marked as retained and not as a duplicate, at exactly the lower of the
/// kept level and the granted one.
pub proof fn law_new_subscriber_gets_what_is_kept(
    m: broker::BrokerModel,
    n: broker::BrokerModel,
    key: keyed::KeyModel,
    granted: Seq<(Seq<char>, QoS)>,
    i: int,
    name: Seq<char>,
)
    requires
        requests::replays(m, n, key, granted),
        m.sessions.contains_key(key),
        m.channels.contains_key(m.sessions[key].channel),
        m.channels[m.sessions[key].channel].writing,
        0 <= i < granted.len(),
        m.retained.contains_key((key.0, name)),
        topic::matches(granted[i].0, name),
    ensures
        ({
            let id = m.sessions[key].channel;
            let kept = m.retained[(key.0, name)];
            let at = lower_level(kept.qos, granted[i].1);
            ||| delivered_behind(
                n.channels[id].queue,
                m.channels[id].queue.len(),
                name,
                kept.payload,
                true,
                at,
            )
            ||| excused(n.channels[id], at)
        }),
{
    laws::law_retained_reaches_new_subscriber(m, n, key, granted, i, name);
    let id = m.sessions[key].channel;
    let kept = m.retained[(key.0, name)];
    let at = lower_level(kept.qos, granted[i].1);
    let p = requests::replayed((name, kept), granted[i].1);
    let queue = n.channels[id].queue;
    let from = m.channels[id].queue.len();
    if laws::holds_message(queue, from, p) {
        let j = choose|j: int|
            from <= j < queue.len() && laws::is_message(#[trigger] queue[j], p);
        assert(delivers(queue[j], name, kept.payload, true, at));
    }
}

/// Whether a command delivers one of the tenant's retained messages under one of
/// these filters.
pub open spec fn owed_as_kept(
    kept: traits::RetainedModel,
    tenant: Option<Seq<char>>,
    granted: Seq<(Seq<char>, QoS)>,
    cmd: channel::CmdModel,
) -> bool {
    exists|i: int, name: Seq<char>|
        {
            &&& 0 <= i < granted.len()
            &&& kept.contains_key((tenant, name))
            &&& #[trigger] topic::matches(granted[i].0, name)
            &&& delivers(
                cmd,
                name,
                kept[(tenant, name)].payload,
                true,
                lower_level(kept[(tenant, name)].qos, granted[i].1),
            )
        }
}

proof fn lemma_replay_owed(
    lists: Seq<Seq<(Seq<char>, traits::Kept)>>,
    kept: traits::RetainedModel,
    tenant: Option<Seq<char>>,
    granted: Seq<(Seq<char>, QoS)>,
    n: nat,
    k: int,
)
    requires
        requests::lists_all_retained(lists, kept, tenant, granted),
        n <= granted.len(),
        0 <= k < requests::replay_messages(lists, granted, n).len(),
    ensures
        owed_as_kept(
            kept,
            tenant,
            granted,
            channel::CmdModel::Publish(requests::replay_messages(lists, granted, n)[k]),
        ),
    decreases n,
{
    let before = requests::replay_messages(lists, granted, (n - 1) as nat);
    if k < before.len() {
        lemma_replay_owed(lists, kept, tenant, granted, (n - 1) as nat, k);
    } else {
        let j = k - before.len();
        let list = lists[n - 1];
        assert(traits::lists_retained(list, kept, tenant, granted[n - 1].0));
        let name = list[j].0;
        assert(topic::matches(granted[n - 1].0, name));
    }
}

proof fn lemma_offered_all_owed(
    c: channel::ChannelModel,
    messages: Seq<packet::PublishModel>,
    max_inflight: usize,
    policy: SlowConsumerPolicy,
    kept: traits::RetainedModel,
    tenant: Option<Seq<char>>,
    granted: Seq<(Seq<char>, QoS)>,
)
    requires
        forall|k: int|
            0 <= k < messages.len() ==> owed_as_kept(
                kept,
                tenant,
                granted,
                channel::CmdModel::Publish(#[trigger] messages[k]),
            ),
    ensures
        ({
            let d = requests::offered_all(c, messages, max_inflight, policy);
            &&& c.queue.is_prefix_of(d.queue)
            &&& forall|j: int|
                c.queue.len() <= j < d.queue.len() ==> owed_as_kept(
                    kept,
                    tenant,
                    granted,
                    #[trigger] d.queue[j],
                )
        }),
    decreases messages.len(),
{
    if messages.len() > 0 {
        let next = delivery::offered(c, messages[0], max_inflight, policy);
        let d = requests::offered_all(c, messages, max_inflight, policy);
        let first = channel::CmdModel::Publish(messages[0]);
        assert(owed_as_kept(kept, tenant, granted, first));
        if next.queue.len() > c.queue.len() {
            let (i, name) = choose|i: int, name: Seq<char>|
                {
                    &&& 0 <= i < granted.len()
                    &&& kept.contains_key((tenant, name))
                    &&& #[trigger] topic::matches(granted[i].0, name)
                    &&& delivers(
                        first,
                        name,
                        kept[(tenant, name)].payload,
                        true,
                        lower_level(kept[(tenant, name)].qos, granted[i].1),
                    )
                };
            assert(topic::matches(granted[i].0, name));
            assert(owed_as_kept(kept, tenant, granted, next.queue.last()));
        }
        if !delivery::overflows(c, messages[0], max_inflight, policy) {
            let rest = messages.drop_first();
            assert forall|k: int| 0 <= k < rest.len() implies owed_as_kept(
                kept,
                tenant,
                granted,
                channel::CmdModel::Publish(#[trigger] rest[k]),
            ) by {
                assert(rest[k] == messages[k + 1]);
            }
            lemma_offered_all_owed(next, rest, max_inflight, policy, kept, tenant, granted);
            assert forall|j: int| c.queue.len() <= j < d.queue.len() implies owed_as_kept(
                kept,
                tenant,
                granted,
                #[trigger] d.queue[j],
            ) by {
                if j < next.queue.len() {
                    assert(d.queue[j] == next.queue[j]);
                    assert(next.queue[j] == next.queue.last());
                }
            }
        }
    }
}

/// A new subscription brings nothing but retained messages of the client's own
/// tenant that one of the granted filters matches, each marked as retained.
pub proof fn law_new_subscriber_gets_only_what_is_kept(
    m: broker::BrokerModel,
    n: broker::BrokerModel,
    key: keyed::KeyModel,
    granted: Seq<(Seq<char>, QoS)>,
    j: int,
)
    requires
        requests::replays(m, n, key, granted),
        m.sessions.contains_key(key),
        m.channels.contains_key(m.sessions[key].channel),
        m.channels[m.sessions[key].channel].queue.len() <= j
            < n.channels[m.sessions[key].channel].queue.len(),
    ensures
        owed_as_kept(
            m.retained,
            key.0,
            granted,
            n.channels[m.sessions[key].channel].queue[j],
        ),
        n.retained == m.retained,
        n.subscriptions == m.subscriptions,
        n.sessions == m.sessions,
        forall|other: u64|
            other != m.sessions[key].channel && m.channels.contains_key(other)
                ==> #[trigger] n.channels[other] == m.channels[other],
{
    let id = m.sessions[key].channel;
    let lists = choose|lists: Seq<Seq<(Seq<char>, traits::Kept)>>| #[trigger]
        requests::lists_all_retained(lists, m.retained, key.0, granted) && n == (
        broker::BrokerModel {
            channels: m.channels.insert(
                id,
                requests::offered_all(
                    m.channels[id],
                    requests::replay_messages(lists, granted, granted.len()),
                    broker::inflight_cap(m),
                    broker::policy_of(m),
                ),
            ),
            ..m
        });
    let messages = requests::replay_messages(lists, granted, granted.len());
    assert forall|k: int| 0 <= k < messages.len() implies owed_as_kept(
        m.retained,
        key.0,
        granted,
        channel::CmdModel::Publish(#[trigger] messages[k]),
    ) by {
        lemma_replay_owed(lists, m.retained, key.0, granted, granted.len(), k);
    }
    lemma_offered_all_owed(
        m.channels[id],
        messages,
        broker::inflight_cap(m),
        broker::policy_of(m),
        m.retained,
        key.0,
        granted,
    );
}

// ----------------------------------------------------------------------------
// Messages of the broker itself
// ----------------------------------------------------------------------------

/// A message of the broker itself is kept for its topic with its payload and level,
/// and reaches whoever is subscribed under a filter that matches, unmarked and at the
/// lower of its level and theirs. Other topics keep what they have.
pub proof fn law_system_message_is_kept_and_sent(
    m: broker::BrokerModel,
    n: broker::BrokerModel,
    tenant: Option<Seq<char>>,
    name: Seq<char>,
    payload: Seq<u8>,
    qos: QoS,
    filter: Seq<char>,
    client: Seq<char>,
    other: keyed::KeyModel,
)
    requires
        broker::publishes_sys(m, n, tenant, name, payload, qos),
    ensures
        n.retained.contains_key((tenant, name)),
        n.retained[(tenant, name)].payload == payload,
        n.retained[(tenant, name)].qos == qos,
        other != (tenant, name) ==> (n.retained.contains_key(other) <==> m.retained.contains_key(
            other,
        )) && (m.retained.contains_key(other) ==> n.retained[other] == m.retained[other]),
        n.sessions == m.sessions,
        n.subscriptions == m.subscriptions,
        n.saved == m.saved,
        m.subscriptions.contains_key((tenant, filter)) && m.subscriptions[(
            tenant,
            filter,
        )].contains_key((tenant, client)) && topic::matches(filter, name)
            && m.sessions.contains_key((tenant, client)) && m.channels.contains_key(
            m.sessions[(tenant, client)].channel,
        ) && m.channels[m.sessions[(tenant, client)].channel].writing ==> {
            let id = m.sessions[(tenant, client)].channel;
            let at = lower_level(qos, m.subscriptions[(tenant, filter)][(tenant, client)]);
            ||| delivered_behind(
                n.channels[id].queue,
                m.channels[id].queue.len(),
                name,
                payload,
                false,
                at,
            )
            ||| excused(n.channels[id], at)
        },
{
    let targets = choose|targets: Seq<(Seq<char>, QoS)>| #[trigger]
        tree::lists_targets(targets, m.subscriptions, tenant, name) && n == (broker::BrokerModel {
            retained: m.retained.insert((tenant, name), traits::Kept { payload, qos }),
            channels: broker::fan_out(
                m.channels,
                m.sessions,
                broker::Fan {
                    tenant,
                    source: None,
                    message: broker::sys_message(name, payload, qos),
                    max_inflight: broker::inflight_cap(m),
                    policy: broker::policy_of(m),
                },
                targets,
                targets.len(),
            ),
            ..m
        });
    if m.subscriptions.contains_key((tenant, filter)) && m.subscriptions[(
        tenant,
        filter,
    )].contains_key((tenant, client)) && topic::matches(filter, name) && m.sessions.contains_key(
        (tenant, client),
    ) && m.channels.contains_key(m.sessions[(tenant, client)].channel) && m.channels[m.sessions[(
        tenant,
        client,
    )].channel].writing {
        let h = ((tenant, filter), (tenant, client));
        let id = m.sessions[(tenant, client)].channel;
        let at = lower_level(qos, m.subscriptions[h.0][h.1]);
        let fan = broker::Fan {
            tenant,
            source: None,
            message: broker::sys_message(name, payload, qos),
            max_inflight: broker::inflight_cap(m),
            policy: broker::policy_of(m),
        };
        let hits = choose|l: Seq<tree::Hit>| #[trigger]
            tree::lists_hits(l, m.subscriptions, tenant, name) && targets == tree::read_hits(
                l,
                m.subscriptions,
            );
        assert(tree::is_hit(m.subscriptions, tenant, name, h));
        assert(hits.contains(h));
        let k = choose|k: int| 0 <= k < hits.len() && hits[k] == h;
        assert(targets[k] == (h.1.1, m.subscriptions[h.0][h.1]));
        let before = broker::fan_out(m.channels, m.sessions, fan, targets, k as nat);
        let after = broker::fan_out(m.channels, m.sessions, fan, targets, (k + 1) as nat);
        laws::lemma_fan_out_carries_on(m.channels, m.sessions, fan, targets, 0, k as nat, id);
        laws::lemma_fan_out_carries_on(
            m.channels,
            m.sessions,
            fan,
            targets,
            (k + 1) as nat,
            targets.len(),
            id,
        );
        assert(after == broker::fan_step(before, m.sessions, fan, targets[k]));
        let c = before[id];
        let d = after[id];
        let last = n.channels[id];
        if d.queue.len() > c.queue.len() {
            assert(delivers(d.queue.last(), name, payload, false, at));
            assert(last.queue[d.queue.len() - 1] == d.queue.last());
        }
    }
}

/// What the handlers of a message decide: it goes on where each of them ran and let it
/// on, and then only. What a handler leaves of it replaces its topic, payload, level
/// and retain flag, and nothing else.
pub proof fn law_handlers_decide(
    p: packet::PublishModel,
    outcome: inbound::ChainOutcome,
    outcomes: Seq<inbound::ChainOutcome>,
)
    ensures
        inbound::lets_on(outcome) <==> (outcome matches inbound::ChainOutcome::Ran {
            propagate,
            ..
        } && propagate),
        outcome is Failed ==> inbound::left_by(p, outcome) == p,
        outcome matches inbound::ChainOutcome::Ran { incoming: None, .. } ==> inbound::left_by(
            p,
            outcome,
        ) == p,
        outcome matches inbound::ChainOutcome::Ran { incoming: Some(i), .. } ==> {
            let q = inbound::left_by(p, outcome);
            &&& q.topic == i@.topic
            &&& q.payload == i@.payload
            &&& q.qos == i@.qos
            &&& q.retain == i@.retain
            &&& q.dup == p.dup
            &&& q.packet_id == p.packet_id
            &&& q.properties == p.properties
        },
        fanout::goes_on(p, outcomes) is Some <==> forall|i: int|
            0 <= i < outcomes.len() ==> ((#[trigger] outcomes[i]) matches inbound::ChainOutcome::Ran {
                propagate,
                ..
            } && propagate),
        outcomes.len() == 0 ==> fanout::goes_on(p, outcomes) == Some(p),
{
    if fanout::goes_on(p, outcomes) is Some {
        assert forall|i: int|
            0 <= i < outcomes.len() implies ((#[trigger] outcomes[i]) matches inbound::ChainOutcome::Ran {
            propagate,
            ..
        } && propagate) by {
            assert(inbound::lets_on(outcomes[i]));
        }
    }
    if forall|i: int|
        0 <= i < outcomes.len() ==> ((#[trigger] outcomes[i]) matches inbound::ChainOutcome::Ran {
            propagate,
            ..
        } && propagate) {
        assert forall|i: int| 0 <= i < outcomes.len() implies inbound::lets_on(
            #[trigger] outcomes[i],
        ) by {}
    }
}

// ----------------------------------------------------------------------------
// The end of a connection
// ----------------------------------------------------------------------------

/// What is counted for a tenant is what the tenant has.
pub proof fn law_scope_of_a_tenant(
    m: broker::BrokerModel,
    tenant: Option<Seq<char>>,
    key: keyed::KeyModel,
)
    ensures
        keyed::scoped_keys(m.retained, tenant).contains(key) <==> key.0 == tenant
            && m.retained.contains_key(key),
        keyed::scoped_keys(m.saved, tenant).contains(key) <==> key.0 == tenant
            && m.saved.contains_key(key),
{
}

/// Whether a client is subscribed under a filter.
pub open spec fn is_subscribed(
    t: tree::TreeModel,
    filter: keyed::KeyModel,
    client: keyed::KeyModel,
) -> bool {
    t.contains_key(filter) && t[filter].contains_key(client)
}

/// What the end of a connection leaves of its client, in good order or not. The client
/// is no longer registered. With a clean session nothing is saved under its name and
/// it is subscribed to nothing; the same where the tenant has no room for one more
/// session. Any other session is saved as it stood, and stays subscribed. Nobody
/// else's subscription, registration or saved session changes.
pub proof fn law_what_an_end_leaves(
    m: broker::BrokerModel,
    n: broker::BrokerModel,
    key: keyed::KeyModel,
    graceful: bool,
    decision: AclDecision,
    counted: usize,
    reported: usize,
    filter: keyed::KeyModel,
    client: keyed::KeyModel,
)
    requires
        m.sessions.contains_key(key),
        m.sessions[key].tenant == key.0,
        m.channels.contains_key(m.sessions[key].channel),
        broker::unregisters(
            m,
            n,
            key,
            m.sessions[key].connection_id,
            graceful,
            decision,
            counted,
            reported,
        ),
    ensures
        n.sessions == m.sessions.remove(key),
        n.active_connections == m.active_connections,
        n.next_connection_id == m.next_connection_id,
        ({
            let e = m.sessions[key];
            let lasts = !e.clean_session && counted < broker::saved_cap(m);
            &&& lasts ==> {
                &&& n.saved.contains_key(key)
                &&& n.saved[key] == m.channels[e.channel].session
                &&& n.subscriptions == m.subscriptions
            }
            &&& e.clean_session ==> !n.saved.contains_key(key)
            &&& !lasts ==> {
                &&& filter.0 == key.0 ==> !is_subscribed(n.subscriptions, filter, key)
                &&& client != key || filter.0 != key.0 ==> {
                    &&& is_subscribed(n.subscriptions, filter, client) <==> is_subscribed(
                        m.subscriptions,
                        filter,
                        client,
                    )
                    &&& is_subscribed(m.subscriptions, filter, client)
                        ==> n.subscriptions[filter][client] == m.subscriptions[filter][client]
                }
            }
            &&& client != key ==> {
                &&& n.saved.contains_key(client) <==> m.saved.contains_key(client)
                &&& m.saved.contains_key(client) ==> n.saved[client] == m.saved[client]
            }
        }),
{
    let e = m.sessions[key];
    let gone = broker::BrokerModel { sessions: m.sessions.remove(key), ..m };
    let rest = broker::put_away(gone, e, key.1, counted);
    if m.subscriptions.contains_key(filter) {
        let left = m.subscriptions[filter].remove(key);
        if left.is_empty() && client != key {
            assert(!left.contains_key(client));
        }
    }
    assert((e.tenant, key.1) == key);
}

/// Only the registration that is current is ended: a connection that another one has
/// taken the place of leaves everything as it is.
pub proof fn law_late_end_changes_nothing(
    m: broker::BrokerModel,
    n: broker::BrokerModel,
    key: keyed::KeyModel,
    connection_id: u64,
    graceful: bool,
    decision: AclDecision,
    counted: usize,
    reported: usize,
)
    requires
        broker::unregisters(
            m,
            n,
            key,
            connection_id,
            graceful,
            decision,
            counted,
            reported,
        ),
        !m.sessions.contains_key(key) || m.sessions[key].connection_id != connection_id,
    ensures
        n == m,
{
}

/// A shutdown closes the connections of the registered clients and leaves what is
/// queued and in flight on them; the other connections are as they were.
pub proof fn law_shutdown_leaves_what_is_queued(m: broker::BrokerModel, id: u64)
    requires
        m.channels.contains_key(id),
    ensures
        ({
            let d = lifecycle::all_closed(m);
            let known = exists|k: keyed::KeyModel| #[trigger]
                m.sessions.contains_key(k) && m.sessions[k].channel == id;
            &&& d.contains_key(id)
            &&& known ==> {
                &&& !d[id].open
                &&& d[id].queue == m.channels[id].queue
                &&& d[id].session.outbound_inflight == m.channels[id].session.outbound_inflight
                &&& d[id].session.qos2_recv == m.channels[id].session.qos2_recv
            }
            &&& !known ==> d[id] == m.channels[id]
        }),
{
    let known = exists|k: keyed::KeyModel| #[trigger]
        m.sessions.contains_key(k) && m.sessions[k].channel == id;
    assert(known <==> lifecycle::registered(m.sessions, id));
}

/// Whoever registers is listed under exactly the filters that it is subscribed under,
/// each at its level.
pub proof fn law_registered_filters(
    m: broker::BrokerModel,
    n: broker::BrokerModel,
    r: (bool, u64),
    key: keyed::KeyModel,
    username: Option<Seq<char>>,
    connection: u64,
    will: Option<request::WillMessageModel>,
    clean_session: bool,
    decision: AclDecision,
    counted: usize,
    reported: usize,
    filter: Seq<char>,
)
    requires
        broker::registers(
            m,
            n,
            r,
            key,
            username,
            connection,
            will,
            clean_session,
            decision,
            counted,
            reported,
        ),
    ensures
        n.sessions[key].filters.contains_key((key.0, filter)) <==> is_subscribed(
            n.subscriptions,
            (key.0, filter),
            key,
        ),
        is_subscribed(n.subscriptions, (key.0, filter), key) ==> n.sessions[key].filters[(
            key.0,
            filter,
        )] == n.subscriptions[(key.0, filter)][key],
        clean_session ==> !is_subscribed(n.subscriptions, (key.0, filter), key),
{
}

} // verus!
