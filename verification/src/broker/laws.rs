//! What holds of a broker across its operations.
use crate::broker::broker;
use crate::broker::delivery;
use crate::broker::requests;
use crate::broker::safety::SlowConsumerPolicy;
use crate::broker::traits;
use crate::broker::traits::AclDecision;
use crate::broker::tree;
use crate::channel;
use crate::keyed;
use crate::packet;
use crate::request;
use crate::request::{QoS, SubackCode};
use crate::session;
use crate::topic;
use vstd::prelude::*;

verus! {

/// Whether a client of this tenant other than the source is on a connection.
pub open spec fn reachable(
    sessions: broker::EntriesModel,
    tenant: Option<Seq<char>>,
    source: Option<Seq<char>>,
    id: u64,
) -> bool {
    exists|client: Seq<char>| #[trigger]
        sessions.contains_key((tenant, client)) && sessions[(tenant, client)].channel == id
            && source != Some(client)
}

/// A fan-out changes no connection that it does not reach, and takes none away.
proof fn lemma_fan_out_reach(
    channels: delivery::ChannelsModel,
    sessions: broker::EntriesModel,
    fan: broker::Fan,
    targets: Seq<(Seq<char>, QoS)>,
    n: nat,
    id: u64,
)
    requires
        n <= targets.len(),
    ensures
        broker::fan_out(channels, sessions, fan, targets, n).contains_key(id)
            <==> channels.contains_key(id),
        !reachable(sessions, fan.tenant, fan.source, id) && channels.contains_key(id)
            ==> broker::fan_out(channels, sessions, fan, targets, n)[id] == channels[id],
    decreases n,
{
    if n > 0 {
        lemma_fan_out_reach(channels, sessions, fan, targets, (n - 1) as nat, id);
        let key = (fan.tenant, targets[n - 1].0);
        if sessions.contains_key(key) && sessions[key].channel == id && fan.source != Some(
            targets[n - 1].0,
        ) {
            assert(reachable(sessions, fan.tenant, fan.source, id));
        }
    }
}

/// A message takes no connection away.
pub proof fn lemma_publish_keeps_channels(
    m: broker::BrokerModel,
    n: broker::BrokerModel,
    tenant: Option<Seq<char>>,
    source: Seq<char>,
    p: packet::PublishModel,
    decision: AclDecision,
    reported: usize,
    id: u64,
)
    requires
        broker::publishes(m, n, tenant, source, p, decision, reported),
        m.channels.contains_key(id),
    ensures
        n.channels.contains_key(id),
        n.active_connections == m.active_connections,
        n.safety == m.safety,
{
    if !(topic::is_dollar(p.topic) || decision == AclDecision::Deny) {
        let targets = choose|targets: Seq<(Seq<char>, QoS)>| #[trigger]
            tree::lists_targets(targets, m.subscriptions, tenant, p.topic) && n == broker::spread(
                m,
                tenant,
                source,
                p,
                reported,
                targets,
            );
        let fan = broker::Fan {
            tenant,
            source: Some(source),
            message: broker::current_copy(p),
            max_inflight: broker::inflight_cap(m),
            policy: broker::policy_of(m),
        };
        lemma_fan_out_reach(m.channels, m.sessions, fan, targets, targets.len(), id);
    }
}

/// A message that its sender may not publish, or one to a topic that starts with
/// `$`, changes nothing: neither what is retained nor any connection.
pub proof fn law_refused_publish_changes_nothing(
    m: broker::BrokerModel,
    n: broker::BrokerModel,
    tenant: Option<Seq<char>>,
    source: Seq<char>,
    p: packet::PublishModel,
    decision: AclDecision,
    reported: usize,
)
    requires
        broker::publishes(m, n, tenant, source, p, decision, reported),
        decision == AclDecision::Deny || topic::is_dollar(p.topic),
    ensures
        n == m,
{
}

/// A message stays within its tenant: it changes no connection that only clients
/// of other tenants are on, and nothing that another tenant retains. The one who
/// sent it gets no copy. Who is registered, subscribed or saved does not change.
pub proof fn law_publish_stays_in_tenant(
    m: broker::BrokerModel,
    n: broker::BrokerModel,
    tenant: Option<Seq<char>>,
    source: Seq<char>,
    p: packet::PublishModel,
    decision: AclDecision,
    reported: usize,
    id: u64,
    key: keyed::KeyModel,
)
    requires
        broker::publishes(m, n, tenant, source, p, decision, reported),
    ensures
        !reachable(m.sessions, tenant, Some(source), id) && m.channels.contains_key(id)
            ==> n.channels.contains_key(id) && n.channels[id] == m.channels[id],
        key.0 != tenant ==> (n.retained.contains_key(key) <==> m.retained.contains_key(key)) && (
        m.retained.contains_key(key) ==> n.retained[key] == m.retained[key]),
        n.sessions == m.sessions,
        n.subscriptions == m.subscriptions,
        n.saved == m.saved,
        n.active_connections == m.active_connections,
{
    if !(topic::is_dollar(p.topic) || decision == AclDecision::Deny) {
        let targets = choose|targets: Seq<(Seq<char>, QoS)>| #[trigger]
            tree::lists_targets(targets, m.subscriptions, tenant, p.topic) && n == broker::spread(
                m,
                tenant,
                source,
                p,
                reported,
                targets,
            );
        let fan = broker::Fan {
            tenant,
            source: Some(source),
            message: broker::current_copy(p),
            max_inflight: broker::inflight_cap(m),
            policy: broker::policy_of(m),
        };
        lemma_fan_out_reach(m.channels, m.sessions, fan, targets, targets.len(), id);
    }
}

/// Whether one connection follows from another in a fan-out: what was queued stays
/// in front, and a connection that is closed stays closed.
pub(crate) open spec fn carries_on(c: channel::ChannelModel, d: channel::ChannelModel) -> bool {
    &&& c.queue.is_prefix_of(d.queue)
    &&& d.writing == c.writing
    &&& d.capacity == c.capacity
    &&& d.open ==> c.open
}

/// A fan-out from the `k`-th subscriber on carries every connection on.
pub(crate) proof fn lemma_fan_out_carries_on(
    channels: delivery::ChannelsModel,
    sessions: broker::EntriesModel,
    fan: broker::Fan,
    targets: Seq<(Seq<char>, QoS)>,
    k: nat,
    n: nat,
    id: u64,
)
    requires
        k <= n <= targets.len(),
        channels.contains_key(id),
    ensures
        broker::fan_out(channels, sessions, fan, targets, k).contains_key(id),
        broker::fan_out(channels, sessions, fan, targets, n).contains_key(id),
        carries_on(
            broker::fan_out(channels, sessions, fan, targets, k)[id],
            broker::fan_out(channels, sessions, fan, targets, n)[id],
        ),
    decreases n,
{
    lemma_fan_out_reach(channels, sessions, fan, targets, k, id);
    lemma_fan_out_reach(channels, sessions, fan, targets, n, id);
    if k < n {
        lemma_fan_out_carries_on(channels, sessions, fan, targets, k, (n - 1) as nat, id);
    }
}

/// A message carries every connection on.
proof fn lemma_publish_carries_on(
    m: broker::BrokerModel,
    n: broker::BrokerModel,
    tenant: Option<Seq<char>>,
    source: Seq<char>,
    p: packet::PublishModel,
    decision: AclDecision,
    reported: usize,
    id: u64,
)
    requires
        broker::publishes(m, n, tenant, source, p, decision, reported),
        m.channels.contains_key(id),
    ensures
        n.channels.contains_key(id),
        carries_on(m.channels[id], n.channels[id]),
{
    if !(topic::is_dollar(p.topic) || decision == AclDecision::Deny) {
        let targets = choose|targets: Seq<(Seq<char>, QoS)>| #[trigger]
            tree::lists_targets(targets, m.subscriptions, tenant, p.topic) && n == broker::spread(
                m,
                tenant,
                source,
                p,
                reported,
                targets,
            );
        let fan = broker::Fan {
            tenant,
            source: Some(source),
            message: broker::current_copy(p),
            max_inflight: broker::inflight_cap(m),
            policy: broker::policy_of(m),
        };
        lemma_fan_out_carries_on(m.channels, m.sessions, fan, targets, 0, targets.len(), id);
    }
}

/// A message goes behind what is queued already: a subscriber gets the messages of
/// one client in the order in which they were published.
pub proof fn law_publish_keeps_order(
    m: broker::BrokerModel,
    n: broker::BrokerModel,
    tenant: Option<Seq<char>>,
    source: Seq<char>,
    p: packet::PublishModel,
    decision: AclDecision,
    reported: usize,
    id: u64,
)
    requires
        broker::publishes(m, n, tenant, source, p, decision, reported),
        m.channels.contains_key(id),
    ensures
        n.channels.contains_key(id),
        m.channels[id].queue.is_prefix_of(n.channels[id].queue),
{
    lemma_publish_carries_on(m, n, tenant, source, p, decision, reported, id);
}

/// Whether a command is a message under whatever packet identifier.
pub open spec fn is_message(cmd: channel::CmdModel, p: packet::PublishModel) -> bool {
    cmd matches channel::CmdModel::Publish(q) && q == (packet::PublishModel {
        packet_id: q.packet_id,
        ..p
    })
}

/// Whether a message stands in a queue behind its first `from` commands.
pub open spec fn holds_message(
    queue: Seq<channel::CmdModel>,
    from: nat,
    p: packet::PublishModel,
) -> bool {
    exists|i: int| from <= i < queue.len() && is_message(#[trigger] queue[i], p)
}

/// The copy of a message that goes out at this level.
pub open spec fn copy_at(p: packet::PublishModel, qos: QoS) -> packet::PublishModel {
    packet::PublishModel { qos, ..broker::current_copy(p) }
}

/// A message reaches every subscriber: whoever is subscribed under a filter that
/// matches, other than the client that sent it, has a copy queued at the lower of
/// the two levels. The only exceptions are a connection that does not stay open
/// and, at QoS 0, a queue that is full.
pub proof fn law_publish_reaches_subscribers(
    m: broker::BrokerModel,
    n: broker::BrokerModel,
    tenant: Option<Seq<char>>,
    source: Seq<char>,
    p: packet::PublishModel,
    reported: usize,
    h: tree::Hit,
)
    requires
        broker::publishes(m, n, tenant, source, p, AclDecision::Allow, reported),
        !topic::is_dollar(p.topic),
        tree::is_hit(m.subscriptions, tenant, p.topic, h),
        h.1.1 != source,
        m.sessions.contains_key((tenant, h.1.1)),
        m.channels.contains_key(m.sessions[(tenant, h.1.1)].channel),
        m.channels[m.sessions[(tenant, h.1.1)].channel].writing,
    ensures
        ({
            let id = m.sessions[(tenant, h.1.1)].channel;
            let qos = request::qos_min(p.qos, m.subscriptions[h.0][h.1]);
            let c = n.channels[id];
            ||| holds_message(c.queue, m.channels[id].queue.len(), copy_at(p, qos))
            ||| !c.open
            ||| qos == QoS::AtMostOnce && c.queue.len() >= c.capacity
        }),
{
    let id = m.sessions[(tenant, h.1.1)].channel;
    let qos = request::qos_min(p.qos, m.subscriptions[h.0][h.1]);
    let targets = choose|targets: Seq<(Seq<char>, QoS)>| #[trigger]
        tree::lists_targets(targets, m.subscriptions, tenant, p.topic) && n == broker::spread(
            m,
            tenant,
            source,
            p,
            reported,
            targets,
        );
    let hits = choose|l: Seq<tree::Hit>| #[trigger]
        tree::lists_hits(l, m.subscriptions, tenant, p.topic) && targets == tree::read_hits(
            l,
            m.subscriptions,
        );
    assert(hits.contains(h));
    let k = choose|k: int| 0 <= k < hits.len() && hits[k] == h;
    assert(targets[k] == (h.1.1, m.subscriptions[h.0][h.1]));
    let fan = broker::Fan {
        tenant,
        source: Some(source),
        message: broker::current_copy(p),
        max_inflight: broker::inflight_cap(m),
        policy: broker::policy_of(m),
    };
    let before = broker::fan_out(m.channels, m.sessions, fan, targets, k as nat);
    let after = broker::fan_out(m.channels, m.sessions, fan, targets, (k + 1) as nat);
    lemma_fan_out_carries_on(m.channels, m.sessions, fan, targets, 0, k as nat, id);
    lemma_fan_out_carries_on(
        m.channels,
        m.sessions,
        fan,
        targets,
        (k + 1) as nat,
        targets.len(),
        id,
    );
    assert(after == broker::fan_step(before, m.sessions, fan, targets[k]));
    let c = before[id];
    let d = after[id];
    let last = n.channels[id];
    if d.queue.len() > c.queue.len() {
        assert(is_message(d.queue.last(), copy_at(p, qos)));
        assert(last.queue[d.queue.len() - 1] == d.queue.last());
    }
}

/// A message that is to be retained is what its topic has from then on, unless that
/// would go beyond a limit; where the topic has one already, only the limit of bytes
/// counts. A message without a payload takes away what its topic has.
pub proof fn law_last_message_is_retained(
    m: broker::BrokerModel,
    n: broker::BrokerModel,
    tenant: Option<Seq<char>>,
    source: Seq<char>,
    p: packet::PublishModel,
    reported: usize,
)
    requires
        broker::publishes(m, n, tenant, source, p, AclDecision::Allow, reported),
        !topic::is_dollar(p.topic),
    ensures
        !p.retain ==> n.retained == m.retained,
        p.retain && p.payload.len() == 0 ==> n.retained == m.retained.remove((tenant, p.topic)),
        p.retain && p.payload.len() > 0 && (m.retained.contains_key((tenant, p.topic))
            || keyed::scoped_keys(m.retained, tenant).len() < broker::retained_cap(m)) && reported
            + p.payload.len() <= broker::retained_bytes_cap(m) ==> n.retained == m.retained.insert(
            (tenant, p.topic),
            traits::Kept { payload: p.payload, qos: p.qos },
        ),
{
}

/// Offering messages carries a connection on.
proof fn lemma_offered_all_carries_on(
    c: channel::ChannelModel,
    messages: Seq<packet::PublishModel>,
    max_inflight: usize,
    policy: SlowConsumerPolicy,
)
    ensures
        carries_on(c, requests::offered_all(c, messages, max_inflight, policy)),
    decreases messages.len(),
{
    if messages.len() > 0 {
        let next = delivery::offered(c, messages[0], max_inflight, policy);
        assert(carries_on(c, next));
        if !delivery::overflows(c, messages[0], max_inflight, policy) {
            lemma_offered_all_carries_on(next, messages.drop_first(), max_inflight, policy);
        }
    }
}

/// Each of the messages that are offered is queued, unless the connection does not
/// stay open or, at QoS 0, the queue is full.
proof fn lemma_offered_all_holds(
    c: channel::ChannelModel,
    messages: Seq<packet::PublishModel>,
    k: int,
    max_inflight: usize,
    policy: SlowConsumerPolicy,
)
    requires
        c.writing,
        0 <= k < messages.len(),
    ensures
        ({
            let d = requests::offered_all(c, messages, max_inflight, policy);
            ||| holds_message(d.queue, c.queue.len(), messages[k])
            ||| !d.open
            ||| messages[k].qos == QoS::AtMostOnce && d.queue.len() >= d.capacity
        }),
    decreases messages.len(),
{
    let d = requests::offered_all(c, messages, max_inflight, policy);
    let next = delivery::offered(c, messages[0], max_inflight, policy);
    let rest = messages.drop_first();
    if delivery::overflows(c, messages[0], max_inflight, policy) {
        assert(!next.open);
    } else {
        lemma_offered_all_carries_on(next, rest, max_inflight, policy);
        if k == 0 {
            if next.queue.len() > c.queue.len() {
                let last = next.queue.len() - 1;
                assert(is_message(next.queue[last], messages[0]));
                assert(d.queue[last] == next.queue[last]);
            }
        } else {
            assert(rest[k - 1] == messages[k]);
            lemma_offered_all_holds(next, rest, k - 1, max_inflight, policy);
            if holds_message(d.queue, next.queue.len(), messages[k]) {
                let i = choose|i: int|
                    next.queue.len() <= i < d.queue.len() && is_message(
                        #[trigger] d.queue[i],
                        messages[k],
                    );
                assert(is_message(d.queue[i], messages[k]));
            }
        }
    }
}

/// Every message of a filter's list is among those that are sent.
proof fn lemma_replay_holds(
    lists: Seq<Seq<(Seq<char>, traits::Kept)>>,
    granted: Seq<(Seq<char>, QoS)>,
    n: nat,
    i: int,
    j: int,
) -> (k: int)
    requires
        n <= lists.len(),
        lists.len() == granted.len(),
        0 <= i < n,
        0 <= j < lists[i].len(),
    ensures
        0 <= k < requests::replay_messages(lists, granted, n).len(),
        requests::replay_messages(lists, granted, n)[k] == requests::replayed(
            lists[i][j],
            granted[i].1,
        ),
    decreases n,
{
    let before = requests::replay_messages(lists, granted, (n - 1) as nat);
    if i == n - 1 {
        before.len() + j
    } else {
        lemma_replay_holds(lists, granted, (n - 1) as nat, i, j)
    }
}

/// A client that is granted a filter gets what is retained for it: every message of
/// its tenant whose topic the filter matches is queued, marked as retained and at the
/// lower of the two levels. The exceptions are those of any message.
pub proof fn law_retained_reaches_new_subscriber(
    m: broker::BrokerModel,
    n: broker::BrokerModel,
    key: keyed::KeyModel,
    granted: Seq<(Seq<char>, QoS)>,
    i: int,
    name: Seq<char>,
)
    requires
        requests::replays(m, n, key, granted),
        m.sessions.contains_key(key),
        m.channels.contains_key(m.sessions[key].channel),
        m.channels[m.sessions[key].channel].writing,
        0 <= i < granted.len(),
        m.retained.contains_key((key.0, name)),
        topic::matches(granted[i].0, name),
    ensures
        ({
            let id = m.sessions[key].channel;
            let p = requests::replayed((name, m.retained[(key.0, name)]), granted[i].1);
            let c = n.channels[id];
            ||| holds_message(c.queue, m.channels[id].queue.len(), p)
            ||| !c.open
            ||| p.qos == QoS::AtMostOnce && c.queue.len() >= c.capacity
        }),
{
    let id = m.sessions[key].channel;
    let lists = choose|lists: Seq<Seq<(Seq<char>, traits::Kept)>>| #[trigger]
        requests::lists_all_retained(lists, m.retained, key.0, granted) && n == (
        broker::BrokerModel {
            channels: m.channels.insert(
                id,
                requests::offered_all(
                    m.channels[id],
                    requests::replay_messages(lists, granted, granted.len()),
                    broker::inflight_cap(m),
                    broker::policy_of(m),
                ),
            ),
            ..m
        });
    assert(traits::lists_retained(lists[i], m.retained, key.0, granted[i].0));
    let j = choose|j: int| 0 <= j < lists[i].len() && (#[trigger] lists[i][j]).0 == name;
    let k = lemma_replay_holds(lists, granted, granted.len(), i, j);
    lemma_offered_all_holds(
        m.channels[id],
        requests::replay_messages(lists, granted, granted.len()),
        k,
        broker::inflight_cap(m),
        broker::policy_of(m),
    );
}

/// A tenant never retains more messages than may be, once it does not.
pub proof fn law_retained_count_bounded(
    m: broker::BrokerModel,
    n: broker::BrokerModel,
    tenant: Option<Seq<char>>,
    source: Seq<char>,
    p: packet::PublishModel,
    decision: AclDecision,
    reported: usize,
)
    requires
        broker::publishes(m, n, tenant, source, p, decision, reported),
        keyed::scoped_keys(m.retained, tenant).finite(),
        keyed::scoped_keys(m.retained, tenant).len() <= broker::retained_cap(m),
    ensures
        keyed::scoped_keys(n.retained, tenant).len() <= broker::retained_cap(m),
{
    if !(topic::is_dollar(p.topic) || decision == AclDecision::Deny) {
        let a = keyed::scoped_keys(m.retained, tenant);
        let key = (tenant, p.topic);
        match broker::retain_choice(m, tenant, p, reported) {
            broker::RetainAction::Store => {
                assert(keyed::scoped_keys(n.retained, tenant) =~= a.insert(key));
            },
            broker::RetainAction::Remove => {
                assert(keyed::scoped_keys(n.retained, tenant) =~= a.remove(key));
            },
            _ => {},
        }
    }
}

/// A payload that would take the tenant beyond its bytes is not retained, however
/// few messages there are.
pub proof fn law_retained_bytes_bounded(
    m: broker::BrokerModel,
    n: broker::BrokerModel,
    tenant: Option<Seq<char>>,
    source: Seq<char>,
    p: packet::PublishModel,
    decision: AclDecision,
    reported: usize,
)
    requires
        broker::publishes(m, n, tenant, source, p, decision, reported),
        p.payload.len() > 0,
        reported + p.payload.len() > broker::retained_bytes_cap(m),
        broker::retained_bytes_cap(m) < usize::MAX,
    ensures
        n.retained == m.retained,
{
}

/// Whoever registers gets a generation of its own: the end of an earlier
/// registration under the same name does not touch it.
pub proof fn law_generation_guard(
    m: broker::BrokerModel,
    n: broker::BrokerModel,
    r: (bool, u64),
    key: keyed::KeyModel,
    username: Option<Seq<char>>,
    connection: u64,
    will: Option<request::WillMessageModel>,
    clean_session: bool,
    decision: AclDecision,
    counted: usize,
    reported: usize,
    after: broker::BrokerModel,
    earlier: u64,
    graceful: bool,
    other_decision: AclDecision,
    other_counted: usize,
    other_reported: usize,
)
    requires
        broker::registers(
            m,
            n,
            r,
            key,
            username,
            connection,
            will,
            clean_session,
            decision,
            counted,
            reported,
        ),
        earlier != r.1,
        broker::unregisters(
            n,
            after,
            key,
            earlier,
            graceful,
            other_decision,
            other_counted,
            other_reported,
        ),
    ensures
        after == n,
        n.sessions.contains_key(key),
        n.sessions[key].connection_id == r.1,
        n.sessions[key].channel == connection,
{
}

/// The state that a cleanup leaves keeps who is registered and how generations are
/// counted.
proof fn lemma_cleanup_keeps(
    m: broker::BrokerModel,
    n: broker::BrokerModel,
    e: broker::EntryModel,
    client: Seq<char>,
    graceful: bool,
    decision: AclDecision,
    counted: usize,
    reported: usize,
)
    requires
        broker::cleans_up(m, n, e, client, graceful, decision, counted, reported),
    ensures
        n.sessions == m.sessions,
        n.next_connection_id == m.next_connection_id,
        n.saved == broker::put_away(m, e, client, counted).saved,
        n.subscriptions == broker::put_away(m, e, client, counted).subscriptions,
{
}

/// Generations are not used twice, until the counter has gone all the way round.
pub proof fn law_generations_differ(
    m: broker::BrokerModel,
    n: broker::BrokerModel,
    r: (bool, u64),
    key: keyed::KeyModel,
    username: Option<Seq<char>>,
    connection: u64,
    will: Option<request::WillMessageModel>,
    clean_session: bool,
    decision: AclDecision,
    counted: usize,
    reported: usize,
)
    requires
        broker::registers(
            m,
            n,
            r,
            key,
            username,
            connection,
            will,
            clean_session,
            decision,
            counted,
            reported,
        ),
        m.next_connection_id < u64::MAX,
    ensures
        r.1 == m.next_connection_id,
        n.next_connection_id == r.1 + 1,
{
    let mid = choose|mid: broker::BrokerModel| #[trigger]
        broker::takes_over(m, mid, key, decision, counted, reported) && (n, r)
            == broker::installed(mid, key, username, connection, will, clean_session);
    if m.sessions.contains_key(key) {
        let e = m.sessions[key];
        lemma_cleanup_keeps(
            broker::BrokerModel {
                sessions: m.sessions.remove(key),
                channels: delivery::with_channel(
                    m.channels,
                    e.channel,
                    channel::closed(m.channels[e.channel]),
                ),
                ..m
            },
            mid,
            e,
            key.1,
            false,
            decision,
            counted,
            reported,
        );
    }
}

/// A client that takes the place of another one under its name closes the other's
/// connection.
pub proof fn law_takeover_closes(
    m: broker::BrokerModel,
    n: broker::BrokerModel,
    key: keyed::KeyModel,
    decision: AclDecision,
    counted: usize,
    reported: usize,
)
    requires
        broker::takes_over(m, n, key, decision, counted, reported),
        m.sessions.contains_key(key),
        m.channels.contains_key(m.sessions[key].channel),
    ensures
        !n.sessions.contains_key(key),
        n.channels.contains_key(m.sessions[key].channel),
        !n.channels[m.sessions[key].channel].open,
{
    let e = m.sessions[key];
    let closed = broker::BrokerModel {
        sessions: m.sessions.remove(key),
        channels: delivery::with_channel(
            m.channels,
            e.channel,
            channel::closed(m.channels[e.channel]),
        ),
        ..m
    };
    let rest = broker::put_away(closed, e, key.1, counted);
    if let Some(w) = e.will {
        lemma_publish_carries_on(
            rest,
            n,
            e.tenant,
            Seq::empty(),
            broker::will_publish(w),
            decision,
            reported,
            e.channel,
        );
    }
}

/// A session that is to outlive its connection does: after the client left, in good
/// order or not, and came back, its unacknowledged messages, its half-received
/// messages and its subscriptions are what they were, and it is told so.
pub proof fn law_session_resumes(
    m: broker::BrokerModel,
    between: broker::BrokerModel,
    n: broker::BrokerModel,
    r: (bool, u64),
    key: keyed::KeyModel,
    graceful: bool,
    username: Option<Seq<char>>,
    connection: u64,
    will: Option<request::WillMessageModel>,
    d1: AclDecision,
    d2: AclDecision,
    counted: usize,
    counted2: usize,
    reported: usize,
    reported2: usize,
)
    requires
        m.sessions.contains_key(key),
        m.sessions[key].tenant == key.0,
        !m.sessions[key].clean_session,
        m.channels.contains_key(m.sessions[key].channel),
        counted < broker::saved_cap(m),
        broker::unregisters(
            m,
            between,
            key,
            m.sessions[key].connection_id,
            graceful,
            d1,
            counted,
            reported,
        ),
        between.channels.contains_key(connection),
        between.channels[connection].session == session::fresh_session(),
        broker::registers(
            between,
            n,
            r,
            key,
            username,
            connection,
            will,
            false,
            d2,
            counted2,
            reported2,
        ),
    ensures
        r.0,
        n.channels[connection].session.outbound_inflight
            == m.channels[m.sessions[key].channel].session.outbound_inflight,
        n.channels[connection].session.qos2_recv
            == m.channels[m.sessions[key].channel].session.qos2_recv,
        n.channels[connection].session.pkt_counter
            == m.channels[m.sessions[key].channel].session.pkt_counter,
        n.subscriptions == m.subscriptions,
        !n.saved.contains_key(key),
{
    let e = m.sessions[key];
    assert(!between.sessions.contains_key(key));
    assert(between.saved.contains_key(key));
    let s = m.channels[e.channel].session;
    let t = n.channels[connection].session;
    assert(t.outbound_inflight =~= s.outbound_inflight);
    assert(t.qos2_recv =~= s.qos2_recv);
}

/// A session that is to outlive its connection also does where the client comes back
/// before it is known to be gone: the new connection takes over what the old one had.
pub proof fn law_session_survives_takeover(
    m: broker::BrokerModel,
    n: broker::BrokerModel,
    r: (bool, u64),
    key: keyed::KeyModel,
    username: Option<Seq<char>>,
    connection: u64,
    will: Option<request::WillMessageModel>,
    decision: AclDecision,
    counted: usize,
    reported: usize,
)
    requires
        m.sessions.contains_key(key),
        m.sessions[key].tenant == key.0,
        !m.sessions[key].clean_session,
        m.channels.contains_key(m.sessions[key].channel),
        counted < broker::saved_cap(m),
        m.channels.contains_key(connection),
        m.channels[connection].session == session::fresh_session(),
        forall|k: keyed::KeyModel| #[trigger]
            m.sessions.contains_key(k) ==> m.sessions[k].channel != connection,
        broker::registers(
            m,
            n,
            r,
            key,
            username,
            connection,
            will,
            false,
            decision,
            counted,
            reported,
        ),
    ensures
        r.0,
        n.channels[connection].session.outbound_inflight
            == m.channels[m.sessions[key].channel].session.outbound_inflight,
        n.channels[connection].session.qos2_recv
            == m.channels[m.sessions[key].channel].session.qos2_recv,
        n.channels[connection].session.pkt_counter
            == m.channels[m.sessions[key].channel].session.pkt_counter,
        n.subscriptions == m.subscriptions,
        !n.saved.contains_key(key),
{
    let mid = choose|mid: broker::BrokerModel| #[trigger]
        broker::takes_over(m, mid, key, decision, counted, reported) && (n, r)
            == broker::installed(mid, key, username, connection, will, false);
    let e = m.sessions[key];
    let gone = broker::BrokerModel {
        sessions: m.sessions.remove(key),
        channels: delivery::with_channel(
            m.channels,
            e.channel,
            channel::closed(m.channels[e.channel]),
        ),
        ..m
    };
    let rest = broker::put_away(gone, e, key.1, counted);
    if let Some(w) = e.will {
        law_publish_stays_in_tenant(
            rest,
            mid,
            e.tenant,
            Seq::empty(),
            broker::will_publish(w),
            decision,
            reported,
            connection,
            key,
        );
        assert(!reachable(rest.sessions, e.tenant, Some(Seq::empty()), connection));
    }
    assert(mid.channels[connection] == m.channels[connection]);
    let s = m.channels[e.channel].session;
    let t = n.channels[connection].session;
    assert(t.outbound_inflight =~= s.outbound_inflight);
    assert(t.qos2_recv =~= s.qos2_recv);
}

/// A client that comes with a clean session finds nothing of an earlier one: it is
/// told so, nothing is saved under its name, and it is subscribed to nothing.
pub proof fn law_clean_session_starts_empty(
    m: broker::BrokerModel,
    n: broker::BrokerModel,
    r: (bool, u64),
    key: keyed::KeyModel,
    username: Option<Seq<char>>,
    connection: u64,
    will: Option<request::WillMessageModel>,
    decision: AclDecision,
    counted: usize,
    reported: usize,
    name: Seq<char>,
    h: tree::Hit,
)
    requires
        broker::registers(
            m,
            n,
            r,
            key,
            username,
            connection,
            will,
            true,
            decision,
            counted,
            reported,
        ),
    ensures
        !r.0,
        !n.saved.contains_key(key),
        n.sessions[key].filters == Map::<keyed::KeyModel, QoS>::empty(),
        tree::is_hit(n.subscriptions, key.0, name, h) ==> h.1 != key,
{
    let mid = choose|mid: broker::BrokerModel| #[trigger]
        broker::takes_over(m, mid, key, decision, counted, reported) && (n, r)
            == broker::installed(mid, key, username, connection, will, true);
    tree::law_remove_client(mid.subscriptions, key.0, key.1, key.0, name, h);
    assert(n.sessions[key].filters =~= Map::<keyed::KeyModel, QoS>::empty());
}

/// The will of a client that left in good order is never published: nothing
/// reaches any connection but that of the client's own session, and nothing is
/// retained.
pub proof fn law_graceful_leaves_no_will(
    m: broker::BrokerModel,
    n: broker::BrokerModel,
    key: keyed::KeyModel,
    connection_id: u64,
    decision: AclDecision,
    counted: usize,
    reported: usize,
    id: u64,
)
    requires
        broker::unregisters(m, n, key, connection_id, true, decision, counted, reported),
    ensures
        n.retained == m.retained,
        m.channels.contains_key(id) && (m.sessions.contains_key(key) ==> id
            != m.sessions[key].channel) ==> n.channels.contains_key(id) && n.channels[id]
            == m.channels[id],
{
}

/// The will of a client that is lost reaches the other subscribers of its tenant, if
/// it may be published: whoever is subscribed under a filter that matches has a copy
/// queued, with the same exceptions as for any message.
pub proof fn law_lost_client_leaves_its_will(
    m: broker::BrokerModel,
    n: broker::BrokerModel,
    key: keyed::KeyModel,
    counted: usize,
    reported: usize,
    h: tree::Hit,
)
    requires
        m.sessions.contains_key(key),
        m.sessions[key].tenant == key.0,
        m.sessions[key].will matches Some(w) && !topic::is_dollar(w.topic) && tree::is_hit(
            m.subscriptions,
            key.0,
            w.topic,
            h,
        ),
        broker::unregisters(
            m,
            n,
            key,
            m.sessions[key].connection_id,
            false,
            AclDecision::Allow,
            counted,
            reported,
        ),
        h.1.0 == key.0,
        h.1 != key,
        h.1.1.len() > 0,
        m.sessions.contains_key(h.1),
        m.sessions[h.1].channel != m.sessions[key].channel,
        m.channels.contains_key(m.sessions[h.1].channel),
        m.channels[m.sessions[h.1].channel].writing,
    ensures
        ({
            let p = broker::will_publish(m.sessions[key].will->0);
            let id = m.sessions[h.1].channel;
            let qos = request::qos_min(p.qos, m.subscriptions[h.0][h.1]);
            let c = n.channels[id];
            ||| holds_message(c.queue, m.channels[id].queue.len(), copy_at(p, qos))
            ||| !c.open
            ||| qos == QoS::AtMostOnce && c.queue.len() >= c.capacity
        }),
{
    let e = m.sessions[key];
    let p = broker::will_publish(e.will->0);
    let gone = broker::BrokerModel { sessions: m.sessions.remove(key), ..m };
    let rest = broker::put_away(gone, e, key.1, counted);
    tree::law_remove_client(m.subscriptions, key.0, key.1, key.0, p.topic, h);
    assert(tree::is_hit(rest.subscriptions, key.0, p.topic, h));
    assert(rest.subscriptions[h.0][h.1] == m.subscriptions[h.0][h.1]);
    law_publish_reaches_subscribers(rest, n, key.0, Seq::empty(), p, reported, h);
}

/// Whoever is granted a filter is reached under it, at the level that was granted,
/// by every topic that it matches; and whoever is refused is subscribed to no more
/// than before.
pub proof fn law_granted_is_subscribed(
    m: broker::BrokerModel,
    key: keyed::KeyModel,
    filter: (Seq<char>, QoS),
    decision: AclDecision,
    name: Seq<char>,
)
    requires
        m.sessions.contains_key(key),
        topic::matches(filter.0, name),
    ensures
        ({
            let (after, code) = requests::subscribe_step(m, key, filter, decision);
            match code {
                SubackCode::Granted(q) => {
                    &&& q == filter.1
                    &&& tree::is_hit(after.subscriptions, key.0, name, ((key.0, filter.0), key))
                    &&& after.subscriptions[(key.0, filter.0)][key] == q
                },
                SubackCode::Failure => after == m,
            }
        }),
{
}

/// A copy goes out at no higher a level than the message has or the subscriber was
/// granted, and never marked as retained or as a duplicate.
pub proof fn law_copy_is_downgraded(
    channels: delivery::ChannelsModel,
    sessions: broker::EntriesModel,
    fan: broker::Fan,
    target: (Seq<char>, QoS),
    p: packet::PublishModel,
)
    requires
        fan.message == broker::current_copy(p),
        sessions.contains_key((fan.tenant, target.0)),
        channels.contains_key(sessions[(fan.tenant, target.0)].channel),
    ensures
        ({
            let id = sessions[(fan.tenant, target.0)].channel;
            let before = channels[id].queue;
            let after = broker::fan_step(channels, sessions, fan, target)[id].queue;
            after.len() > before.len() ==> {
                &&& after.last() matches channel::CmdModel::Publish(q)
                &&& request::qos_level(q.qos) <= request::qos_level(p.qos)
                &&& request::qos_level(q.qos) <= request::qos_level(target.1)
                &&& !q.retain
                &&& !q.dup
                &&& q.topic == p.topic
                &&& q.payload == p.payload
                &&& q.properties == p.properties
            }
        }),
{
}

} // verus!
