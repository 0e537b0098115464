//! The broker's state across connections, and the fan-out of messages.
use crate::broker::defaults::is_dollar_topic;
use crate::broker::delivery;
use crate::broker::delivery::{offer, ChannelTable};
use crate::broker::safety;
use crate::broker::safety::{BrokerSafety, SlowConsumerPolicy};
use crate::broker::traits;
use crate::broker::traits::{
    AclChecker, AclDecision, Authenticator, RetainedEntry, RetainedStore, SessionStore, TenantId,
    TenantResolver,
};
use crate::broker::tree;
use crate::broker::tree::SubscriptionTree;
use crate::buffer;
use crate::buffer::{bytes_from_vec, bytes_slice};
use crate::channel;
use crate::keyed;
use crate::keyed::{KeyedStore, ScopedName};
use crate::packet;
use crate::packet::PublishPacket;
use crate::properties;
use crate::properties::Properties;
use crate::request;
use crate::request::{QoS, WillMessage};
use crate::safety::MqttSafety;
use crate::session;
use crate::session::MqttSession;
use crate::text;
use crate::text::{clone_opt, opt_as_ref, shared, str_eq};
use crate::topic;
use bytes::Bytes;
use std::sync::Arc;
use std::time::Duration;
use vstd::prelude::*;
use vstd::slice::*;
use vstd::string::*;

verus! {

/// A tenant and a client of it.
pub type SessionKey = ScopedName;

/// What the broker knows of one client.
pub struct SubscriberEntry {
    /// The connection of the client.
    pub channel: u64,
    /// The filters that the client is subscribed under, by tenant and text.
    pub filters: KeyedStore<QoS>,
    pub will: Option<WillMessage>,
    pub clean_session: bool,
    pub tenant: Option<TenantId>,
    pub username: Option<Arc<str>>,
    /// The generation of the registration.
    pub connection_id: u64,
}

#[verifier::ext_equal]
pub struct EntryModel {
    pub channel: u64,
    pub filters: Map<keyed::KeyModel, QoS>,
    pub will: Option<request::WillMessageModel>,
    pub clean_session: bool,
    pub tenant: Option<Seq<char>>,
    pub username: Option<Seq<char>>,
    pub connection_id: u64,
}

pub open spec fn will_model(w: Option<WillMessage>) -> Option<request::WillMessageModel> {
    match w {
        Some(w) => Some(w@),
        None => None,
    }
}

impl View for SubscriberEntry {
    type V = EntryModel;

    open spec fn view(&self) -> EntryModel {
        EntryModel {
            channel: self.channel,
            filters: self.filters@,
            will: will_model(self.will),
            clean_session: self.clean_session,
            tenant: text::opt_chars(self.tenant),
            username: text::opt_chars(self.username),
            connection_id: self.connection_id,
        }
    }
}

/// The registered clients by tenant and name.
pub type EntriesModel = Map<keyed::KeyModel, EntryModel>;

pub open spec fn entries_of(m: Map<keyed::KeyModel, SubscriberEntry>) -> EntriesModel {
    m.map_values(|e: SubscriberEntry| e@)
}

/// The payload and level of a retained message.
#[derive(Debug)]
pub struct RetainedMessage {
    pub payload: Bytes,
    pub qos: QoS,
}

/// How a shutdown went.
#[derive(Debug, Clone, Copy)]
pub struct ShutdownReport {
    /// The connections when the shutdown began.
    pub initial: usize,
    /// The connections when it ended.
    pub remaining: usize,
    /// How long it took.
    pub elapsed: Duration,
    /// Whether it ended before the connections did.
    pub timed_out: bool,
}

impl ShutdownReport {
    /// The report of a shutdown: it timed out where connections remain.
    pub fn new(initial: usize, remaining: usize, elapsed: Duration) -> (r: ShutdownReport)
        ensures
            r.initial == initial,
            r.remaining == remaining,
            r.elapsed == elapsed,
            r.timed_out == (remaining > 0),
    {
        ShutdownReport { initial, remaining, elapsed, timed_out: remaining > 0 }
    }
}

/// A broker: its hooks, its stores and the state of its connections.
pub struct Broker<A, C, T, R, S> {
    pub authenticator: A,
    pub acl_checker: C,
    pub tenant_resolver: T,
    pub sessions: KeyedStore<SubscriberEntry>,
    pub channels: ChannelTable,
    pub subscriptions: SubscriptionTree,
    pub retained_store: R,
    pub session_store: S,
    pub sys_initialized: bool,
    pub safety: MqttSafety,
    pub broker_safety: BrokerSafety,
    pub active_connections: usize,
    pub next_connection_id: u64,
}

impl<A, C, T, R, S> Broker<A, C, T, R, S> {
    /// The authenticator, the access rules and the tenant directory.
    pub open spec fn hooks(&self) -> (A, C, T) {
        (self.authenticator, self.acl_checker, self.tenant_resolver)
    }
}

/// The state of a broker.
#[verifier::ext_equal]
pub struct BrokerModel {
    pub sessions: EntriesModel,
    pub channels: delivery::ChannelsModel,
    pub subscriptions: tree::TreeModel,
    pub retained: traits::RetainedModel,
    pub saved: traits::SavedModel,
    pub sys_initialized: bool,
    pub safety: crate::safety::MqttSafetyModel,
    pub broker_safety: safety::BrokerSafetyModel,
    pub active_connections: usize,
    pub next_connection_id: u64,
}

impl<A, C, T, R: RetainedStore, S: SessionStore> View for Broker<A, C, T, R, S> {
    type V = BrokerModel;

    open spec fn view(&self) -> BrokerModel {
        BrokerModel {
            sessions: entries_of(self.sessions@),
            channels: self.channels@,
            subscriptions: self.subscriptions@,
            retained: self.retained_store.kept(),
            saved: self.session_store.saved(),
            sys_initialized: self.sys_initialized,
            safety: self.safety@,
            broker_safety: self.broker_safety@,
            active_connections: self.active_connections,
            next_connection_id: self.next_connection_id,
        }
    }
}

/// A broker in which nothing has happened.
pub open spec fn fresh_broker() -> BrokerModel {
    BrokerModel {
        sessions: Map::empty(),
        channels: Map::empty(),
        subscriptions: Map::empty(),
        retained: Map::empty(),
        saved: Map::empty(),
        sys_initialized: false,
        safety: crate::safety::unset(),
        broker_safety: safety::unset(),
        active_connections: 0,
        next_connection_id: 0,
    }
}

pub open spec fn or_else(set: Option<usize>, otherwise: usize) -> usize {
    match set {
        Some(v) => v,
        None => otherwise,
    }
}

pub open spec fn inflight_cap(m: BrokerModel) -> usize {
    or_else(m.broker_safety.max_inflight_messages, safety::DEFAULT_MAX_INFLIGHT)
}

pub open spec fn policy_of(m: BrokerModel) -> SlowConsumerPolicy {
    match m.broker_safety.slow_consumer_policy {
        Some(p) => p,
        None => SlowConsumerPolicy::DropOldestQos0,
    }
}

pub open spec fn connection_cap(m: BrokerModel) -> usize {
    or_else(m.broker_safety.max_connections, safety::DEFAULT_MAX_CONNECTIONS)
}

pub open spec fn retained_cap(m: BrokerModel) -> usize {
    or_else(
        m.broker_safety.max_retained_messages_per_tenant,
        safety::DEFAULT_MAX_RETAINED_PER_TENANT,
    )
}

pub open spec fn retained_bytes_cap(m: BrokerModel) -> usize {
    or_else(
        m.broker_safety.max_retained_bytes_per_tenant,
        safety::DEFAULT_MAX_RETAINED_BYTES_PER_TENANT,
    )
}

pub open spec fn subscription_cap(m: BrokerModel) -> usize {
    or_else(m.broker_safety.max_subscriptions_per_client, safety::DEFAULT_MAX_SUBS_PER_CLIENT)
}

pub open spec fn saved_cap(m: BrokerModel) -> usize {
    or_else(
        m.broker_safety.max_persistent_sessions_per_tenant,
        safety::DEFAULT_MAX_PERSISTENT_PER_TENANT,
    )
}

// ----------------------------------------------------------------------------
// Fan-out
// ----------------------------------------------------------------------------

/// To whom a message goes, and what of it does not depend on the receiver.
pub struct Fan {
    pub tenant: Option<Seq<char>>,
    /// The client that gets no copy of its own.
    pub source: Option<Seq<char>>,
    pub message: packet::PublishModel,
    pub max_inflight: usize,
    pub policy: SlowConsumerPolicy,
}

/// The connections after one subscriber got its copy, at the lower of the two
/// levels.
pub open spec fn fan_step(
    channels: delivery::ChannelsModel,
    sessions: EntriesModel,
    fan: Fan,
    target: (Seq<char>, QoS),
) -> delivery::ChannelsModel {
    let key = (fan.tenant, target.0);
    if fan.source == Some(target.0) || !sessions.contains_key(key) {
        channels
    } else {
        let id = sessions[key].channel;
        delivery::with_channel(
            channels,
            id,
            delivery::offered(
                channels[id],
                packet::PublishModel {
                    qos: request::qos_min(fan.message.qos, target.1),
                    ..fan.message
                },
                fan.max_inflight,
                fan.policy,
            ),
        )
    }
}

/// The connections after the first `n` subscribers got their copies.
pub open spec fn fan_out(
    channels: delivery::ChannelsModel,
    sessions: EntriesModel,
    fan: Fan,
    targets: Seq<(Seq<char>, QoS)>,
    n: nat,
) -> delivery::ChannelsModel
    decreases n,
{
    if n == 0 {
        channels
    } else {
        fan_step(
            fan_out(channels, sessions, fan, targets, (n - 1) as nat),
            sessions,
            fan,
            targets[n - 1],
        )
    }
}

/// What becomes of a message that is to be retained.
#[derive(Debug, Clone, Copy, PartialEq, Eq, Structural)]
pub enum RetainAction {
    /// It is not to be retained.
    Nothing,
    /// It is empty: what its topic has is dropped.
    Remove,
    /// It would go beyond a limit.
    Skip,
    Store,
}

pub open spec fn saturating_sum(a: usize, b: nat) -> nat {
    if a + b > usize::MAX {
        usize::MAX as nat
    } else {
        (a + b) as nat
    }
}

/// What becomes of a message, from what its tenant keeps already. `kept` says whether
/// its topic has one: a message in its place adds none to the count. Its bytes come
/// on top of those that the tenant has, though, whatever it replaces.
pub open spec fn retain_rule(
    retain: bool,
    len: nat,
    kept: bool,
    count: nat,
    bytes: usize,
    count_cap: usize,
    byte_cap: usize,
) -> RetainAction {
    if !retain {
        RetainAction::Nothing
    } else if len == 0 {
        RetainAction::Remove
    } else if (count >= count_cap && !kept) || saturating_sum(bytes, len) > byte_cap {
        RetainAction::Skip
    } else {
        RetainAction::Store
    }
}

/// What becomes of a message that is to be retained.
pub fn retain_action(
    retain: bool,
    len: usize,
    kept: bool,
    count: usize,
    bytes: usize,
    count_cap: usize,
    byte_cap: usize,
) -> (r: RetainAction)
    ensures
        r == retain_rule(retain, len as nat, kept, count as nat, bytes, count_cap, byte_cap),
{
    if !retain {
        RetainAction::Nothing
    } else if len == 0 {
        RetainAction::Remove
    } else if (count >= count_cap && !kept) || bytes.saturating_add(len) > byte_cap {
        RetainAction::Skip
    } else {
        RetainAction::Store
    }
}

/// What a tenant keeps after a message.
pub open spec fn after_retain(
    kept: traits::RetainedModel,
    key: keyed::KeyModel,
    p: packet::PublishModel,
    action: RetainAction,
) -> traits::RetainedModel {
    match action {
        RetainAction::Nothing => kept,
        RetainAction::Remove => kept.remove(key),
        RetainAction::Skip => kept,
        RetainAction::Store => kept.insert(key, traits::Kept { payload: p.payload, qos: p.qos }),
    }
}

/// The copy of a message that goes to subscribers now: never marked as retained
/// or as a duplicate, and with a packet identifier of the receiver's.
pub open spec fn current_copy(p: packet::PublishModel) -> packet::PublishModel {
    packet::PublishModel { dup: false, retain: false, packet_id: None, ..p }
}

/// The action that a message calls for in this state.
pub open spec fn retain_choice(
    m: BrokerModel,
    tenant: Option<Seq<char>>,
    p: packet::PublishModel,
    reported: usize,
) -> RetainAction {
    retain_rule(
        p.retain,
        p.payload.len(),
        m.retained.contains_key((tenant, p.topic)),
        keyed::scoped_keys(m.retained, tenant).len(),
        reported,
        retained_cap(m),
        retained_bytes_cap(m),
    )
}

/// The state after a message was retained as far as it is to be, and went to the
/// subscribers in this order.
pub open spec fn spread(
    m: BrokerModel,
    tenant: Option<Seq<char>>,
    source: Seq<char>,
    p: packet::PublishModel,
    reported: usize,
    targets: Seq<(Seq<char>, QoS)>,
) -> BrokerModel {
    BrokerModel {
        retained: after_retain(
            m.retained,
            (tenant, p.topic),
            p,
            retain_choice(m, tenant, p, reported),
        ),
        channels: fan_out(
            m.channels,
            m.sessions,
            Fan {
                tenant,
                source: Some(source),
                message: current_copy(p),
                max_inflight: inflight_cap(m),
                policy: policy_of(m),
            },
            targets,
            targets.len(),
        ),
        ..m
    }
}

/// Whether one state follows from another by a client's message: one to a topic
/// that starts with `$`, or one that is denied, changes nothing; any other is
/// retained as far as it is to be and goes to the subscribers of its tenant, in
/// some order. `reported` is what the store reports of the tenant's bytes.
pub open spec fn publishes(
    m: BrokerModel,
    n: BrokerModel,
    tenant: Option<Seq<char>>,
    source: Seq<char>,
    p: packet::PublishModel,
    decision: AclDecision,
    reported: usize,
) -> bool {
    if topic::is_dollar(p.topic) || decision == AclDecision::Deny {
        n == m
    } else {
        exists|targets: Seq<(Seq<char>, QoS)>| #[trigger]
            tree::lists_targets(targets, m.subscriptions, tenant, p.topic) && n == spread(
                m,
                tenant,
                source,
                p,
                reported,
                targets,
            )
    }
}

/// Gives every subscriber its copy.
fn fan_out_to(
    channels: &mut ChannelTable,
    sessions: &KeyedStore<SubscriberEntry>,
    tenant: &Option<TenantId>,
    source: Option<&str>,
    message: &PublishPacket,
    targets: &Vec<(Arc<str>, QoS)>,
    max_inflight: usize,
    policy: SlowConsumerPolicy,
)
    ensures
        final(channels)@ == fan_out(
            old(channels)@,
            entries_of(sessions@),
            (Fan {
                tenant: text::opt_chars(*tenant),
                source: match source {
                    Some(s) => Some(s@),
                    None => None,
                },
                message: message@,
                max_inflight,
                policy,
            }),
            tree::targets(targets@),
            targets@.len(),
        ),
{
    let ghost fan = Fan {
        tenant: text::opt_chars(*tenant),
        source: match source {
            Some(s) => Some(s@),
            None => None,
        },
        message: message@,
        max_inflight,
        policy,
    };
    let ghost all = tree::targets(targets@);
    let mut i: usize = 0;
    while i < targets.len()
        invariant
            i <= targets@.len(),
            all == tree::targets(targets@),
            fan.tenant == text::opt_chars(*tenant),
            fan.source == (match source {
                Some(s) => Some(s@),
                None => None,
            }),
            fan.message == message@,
            fan.max_inflight == max_inflight,
            fan.policy == policy,
            channels@ == fan_out(old(channels)@, entries_of(sessions@), fan, all, i as nat),
        decreases targets@.len() - i,
    {
        let client = &targets[i].0;
        let own: bool = match source {
            Some(s) => str_eq(client, s),
            None => false,
        };
        let key: ScopedName = (clone_opt(tenant), client.clone());
        let ghost k = keyed::key_of(key);
        let ghost before = channels@;
        proof {
            assert(all[i as int] == ((**client)@, targets@[i as int].1));
            assert(entries_of(sessions@).contains_key(k) <==> sessions@.contains_key(k));
        }
        if !own {
            match sessions.get(&key) {
                Some(entry) => {
                    let id: u64 = entry.channel;
                    assert(entries_of(sessions@)[k].channel == id);
                    match channels.remove(id) {
                        Some(c) => {
                            let mut c = c;
                            let copy = PublishPacket {
                                topic: message.topic.clone(),
                                payload: message.payload.clone(),
                                dup: message.dup,
                                qos: message.qos.lower(targets[i].1),
                                retain: message.retain,
                                packet_id: message.packet_id,
                                properties: message.properties.clone(),
                            };
                            let _closed = offer(&mut c, copy, max_inflight, policy);
                            channels.insert(id, c);
                            assert(channels@ =~= before.insert(id, c@));
                        },
                        None => {
                            assert(channels@ =~= before);
                        },
                    }
                },
                None => {},
            }
        }
        i += 1;
    }
}

impl<
    A: Authenticator,
    C: AclChecker,
    T: TenantResolver,
    R: RetainedStore,
    S: SessionStore,
> Broker<A, C, T, R, S> {
    /// Whether the tenant keeps a message under a topic.
    fn is_retained(&self, tenant: &Option<TenantId>, topic: &Arc<str>) -> (r: bool)
        ensures
            r == self@.retained.contains_key((text::opt_chars(*tenant), (**topic)@)),
    {
        let entries: Vec<RetainedEntry> = self.retained_store.matching(opt_as_ref(tenant), topic);
        let ghost all = traits::entries_of(entries@);
        let mut i: usize = 0;
        while i < entries.len()
            invariant
                i <= entries@.len(),
                all == traits::entries_of(entries@),
                traits::lists_retained(
                    all,
                    self.retained_store.kept(),
                    text::opt_chars(*tenant),
                    (**topic)@,
                ),
                forall|j: int| 0 <= j < i ==> (#[trigger] all[j]).0 != (**topic)@,
            decreases entries@.len() - i,
        {
            assert(all[i as int].0 == (*entries@[i as int].topic)@);
            if str_eq(&entries[i].topic, topic) {
                return true;
            }
            i += 1;
        }
        proof {
            topic::lemma_matches_itself((**topic)@);
        }
        false
    }

    /// Publishes a client's message, where `decision` says whether the client may.
    pub fn publish_decided(
        &mut self,
        source_tenant: &Option<TenantId>,
        source_client_id: &Arc<str>,
        packet: PublishPacket,
        decision: AclDecision,
    )
        ensures
            final(self).hooks() == old(self).hooks(),
            publishes(
                old(self)@,
                final(self)@,
                text::opt_chars(*source_tenant),
                (**source_client_id)@,
                packet@,
                decision,
                old(self).retained_store.reported(text::opt_chars(*source_tenant)),
            ),
    {
        if is_dollar_topic(&packet.topic) {
            return;
        }
        if decision == AclDecision::Deny {
            return;
        }
        let ghost t = text::opt_chars(*source_tenant);
        let ghost reported = self.retained_store.reported(t);
        if packet.retain {
            let len: usize = bytes_slice(&packet.payload).len();
            let count: usize = self.retained_store.count(opt_as_ref(source_tenant));
            let bytes: usize = self.retained_store.bytes(opt_as_ref(source_tenant));
            let count_cap: usize = self.broker_safety.max_retained_messages_per_tenant();
            let kept: bool = count >= count_cap && self.is_retained(source_tenant, &packet.topic);
            match retain_action(
                packet.retain,
                len,
                kept,
                count,
                bytes,
                count_cap,
                self.broker_safety.max_retained_bytes_per_tenant(),
            ) {
                RetainAction::Remove => {
                    self.retained_store.remove(opt_as_ref(source_tenant), &packet.topic);
                },
                RetainAction::Store => {
                    self.retained_store.store(
                        opt_as_ref(source_tenant),
                        packet.topic.clone(),
                        packet.payload.clone(),
                        packet.qos,
                    );
                },
                RetainAction::Nothing => {},
                RetainAction::Skip => {},
            }
        }
        let targets: Vec<(Arc<str>, QoS)> = self.subscriptions.matching(
            source_tenant,
            &packet.topic,
        );
        let ghost p = packet@;
        let copy = PublishPacket { dup: false, retain: false, packet_id: None, ..packet };
        assert(copy@ =~= current_copy(p));
        fan_out_to(
            &mut self.channels,
            &self.sessions,
            source_tenant,
            Some(source_client_id),
            &copy,
            &targets,
            self.broker_safety.max_inflight_messages(),
            self.broker_safety.slow_consumer_policy(),
        );
        assert(self@ =~= spread(
            old(self)@,
            t,
            (**source_client_id)@,
            p,
            reported,
            tree::targets(targets@),
        ));
    }
}

/// The user name under which a publisher is checked: the one that is given, or
/// that of the client's session.
pub open spec fn publisher_username(
    m: BrokerModel,
    tenant: Option<Seq<char>>,
    client: Seq<char>,
    given: Option<Seq<char>>,
) -> Option<Seq<char>> {
    if given is Some {
        given
    } else if m.sessions.contains_key((tenant, client)) {
        m.sessions[(tenant, client)].username
    } else {
        None
    }
}

/// Whether this is what the access rules were asked about a message, and answered.
/// A topic that starts with `$` is not put to them: its message goes nowhere.
pub open spec fn publish_asked<C: AclChecker>(
    acl: C,
    m: BrokerModel,
    tenant: Option<Seq<char>>,
    client: Seq<char>,
    username: Option<Seq<char>>,
    name: Seq<char>,
    d: AclDecision,
) -> bool {
    if topic::is_dollar(name) {
        d == AclDecision::Deny
    } else {
        traits::says_publish(
            acl,
            tenant,
            client,
            publisher_username(m, tenant, client, username),
            name,
            d,
        )
    }
}

/// Whether this is what the access rules were asked about the will of a client that
/// is no longer registered, and answered. The will comes from nobody, under the
/// client's user name. Without one nothing is asked.
pub open spec fn entry_asked<C: AclChecker>(
    acl: C,
    m: BrokerModel,
    e: EntryModel,
    d: AclDecision,
) -> bool {
    match e.will {
        Some(w) => publish_asked(acl, m, e.tenant, Seq::empty(), e.username, w.topic, d),
        None => d == AclDecision::Deny,
    }
}

/// The same for whoever is registered under a key, once they no longer are. Where
/// nobody is, nothing is asked.
pub open spec fn will_asked<C: AclChecker>(
    acl: C,
    m: BrokerModel,
    key: keyed::KeyModel,
    d: AclDecision,
) -> bool {
    if m.sessions.contains_key(key) {
        entry_asked(
            acl,
            BrokerModel { sessions: m.sessions.remove(key), ..m },
            m.sessions[key],
            d,
        )
    } else {
        d == AclDecision::Deny
    }
}

/// The same for the end of a registration. One that ends in good order, or that is
/// not the current one, has nothing asked.
pub open spec fn end_asked<C: AclChecker>(
    acl: C,
    m: BrokerModel,
    key: keyed::KeyModel,
    connection_id: u64,
    graceful: bool,
    d: AclDecision,
) -> bool {
    if !graceful && m.sessions.contains_key(key) && m.sessions[key].connection_id == connection_id {
        will_asked(acl, m, key, d)
    } else {
        d == AclDecision::Deny
    }
}

/// A broker's own message on a topic that starts with `$`.
pub open spec fn sys_message(name: Seq<char>, payload: Seq<u8>, qos: QoS) -> packet::PublishModel {
    packet::PublishModel {
        topic: name,
        payload,
        dup: false,
        qos,
        retain: false,
        packet_id: None,
        properties: properties::no_properties(),
    }
}

/// Whether one state follows from another by a message of the broker's own: it is
/// kept without regard to any limit and goes to every subscriber of the tenant, in
/// some order.
pub open spec fn publishes_sys(
    m: BrokerModel,
    n: BrokerModel,
    tenant: Option<Seq<char>>,
    name: Seq<char>,
    payload: Seq<u8>,
    qos: QoS,
) -> bool {
    exists|targets: Seq<(Seq<char>, QoS)>| #[trigger]
        tree::lists_targets(targets, m.subscriptions, tenant, name) && n == (BrokerModel {
            retained: m.retained.insert((tenant, name), traits::Kept { payload, qos }),
            channels: fan_out(
                m.channels,
                m.sessions,
                Fan {
                    tenant,
                    source: None,
                    message: sys_message(name, payload, qos),
                    max_inflight: inflight_cap(m),
                    policy: policy_of(m),
                },
                targets,
                targets.len(),
            ),
            ..m
        })
}

/// The topic under which the broker keeps its version.
pub open spec fn version_topic() -> Seq<char> {
    "$SYS/broker/version"@
}

// ----------------------------------------------------------------------------
// Sessions
// ----------------------------------------------------------------------------

/// The session of an entry's connection.
pub open spec fn session_of(m: BrokerModel, e: EntryModel) -> session::SessionModel {
    if m.channels.contains_key(e.channel) {
        m.channels[e.channel].session
    } else {
        session::fresh_session()
    }
}

pub open spec fn with_session(
    m: delivery::ChannelsModel,
    id: u64,
    s: session::SessionModel,
) -> delivery::ChannelsModel {
    delivery::with_channel(m, id, channel::ChannelModel { session: s, ..m[id] })
}

/// The state after the session of a client that is gone was put away. A session
/// that is to outlive its connection is saved and keeps its subscriptions, unless
/// the tenant has as many as may be, of which `counted` is what the store reports;
/// any other is wiped, and its subscriptions go.
pub open spec fn put_away(m: BrokerModel, e: EntryModel, client: Seq<char>, counted: usize) -> BrokerModel {
    if e.clean_session || counted >= saved_cap(m) {
        BrokerModel {
            subscriptions: tree::without_client(m.subscriptions, e.tenant, client),
            saved: if e.clean_session {
                m.saved.remove((e.tenant, client))
            } else {
                m.saved
            },
            channels: with_session(m.channels, e.channel, session::wiped(session_of(m, e))),
            ..m
        }
    } else {
        BrokerModel {
            saved: m.saved.insert((e.tenant, client), session_of(m, e)),
            channels: with_session(m.channels, e.channel, session::fresh_session()),
            ..m
        }
    }
}

/// A will as the message that it becomes.
pub open spec fn will_publish(w: request::WillMessageModel) -> packet::PublishModel {
    packet::PublishModel {
        topic: w.topic,
        payload: w.payload,
        dup: false,
        qos: w.qos,
        retain: w.retain,
        packet_id: None,
        properties: properties::no_properties(),
    }
}

fn will_packet(will: WillMessage) -> (r: PublishPacket)
    ensures
        r@ == will_publish(will@),
{
    let r = PublishPacket {
        topic: will.topic,
        payload: will.payload,
        dup: false,
        qos: will.qos,
        retain: will.retain,
        packet_id: None,
        properties: Properties::default(),
    };
    assert(r@ =~= will_publish(will@));
    r
}

/// The source of a will: no client has this name.
fn nobody() -> (r: Arc<str>)
    ensures
        (*r)@ == Seq::<char>::empty(),
{
    proof {
        reveal_strlit("");
        assert(""@ =~= Seq::<char>::empty());
    }
    shared("")
}

/// Whether one state follows from another by the end of a client that is no longer
/// registered: its session is put away and then, unless it left in good order, its
/// will is published within its tenant, where `decision` says whether it may be.
pub open spec fn cleans_up(
    m: BrokerModel,
    n: BrokerModel,
    e: EntryModel,
    client: Seq<char>,
    graceful: bool,
    decision: AclDecision,
    counted: usize,
    reported: usize,
) -> bool {
    let rest = put_away(m, e, client, counted);
    match e.will {
        Some(w) => if graceful {
            n == rest
        } else {
            publishes(rest, n, e.tenant, Seq::empty(), will_publish(w), decision, reported)
        },
        None => n == rest,
    }
}

/// Whether one state follows from another by the end of whoever is registered
/// under a key: the connection is closed, and the will is due.
pub open spec fn takes_over(
    m: BrokerModel,
    n: BrokerModel,
    key: keyed::KeyModel,
    decision: AclDecision,
    counted: usize,
    reported: usize,
) -> bool {
    if m.sessions.contains_key(key) {
        let e = m.sessions[key];
        cleans_up(
            BrokerModel {
                sessions: m.sessions.remove(key),
                channels: delivery::with_channel(
                    m.channels,
                    e.channel,
                    channel::closed(m.channels[e.channel]),
                ),
                ..m
            },
            n,
            e,
            key.1,
            false,
            decision,
            counted,
            reported,
        )
    } else {
        n == m
    }
}

/// The state after a client was registered where nobody is: a clean session drops
/// what an earlier one left; any other takes over what was saved, and the
/// subscriptions that are still there. Also whether something was saved, and the
/// generation of the registration.
pub open spec fn installed(
    m: BrokerModel,
    key: keyed::KeyModel,
    username: Option<Seq<char>>,
    connection: u64,
    will: Option<request::WillMessageModel>,
    clean_session: bool,
) -> (BrokerModel, (bool, u64)) {
    let present = !clean_session && m.saved.contains_key(key);
    let id = m.next_connection_id;
    let subscriptions = if clean_session {
        tree::without_client(m.subscriptions, key.0, key.1)
    } else {
        m.subscriptions
    };
    (
        BrokerModel {
            sessions: m.sessions.insert(
                key,
                EntryModel {
                    channel: connection,
                    filters: tree::client_filters(subscriptions, key),
                    will,
                    clean_session,
                    tenant: key.0,
                    username,
                    connection_id: id,
                },
            ),
            subscriptions,
            saved: m.saved.remove(key),
            channels: if present {
                with_session(
                    m.channels,
                    connection,
                    session::resumed(m.channels[connection].session, m.saved[key]),
                )
            } else {
                m.channels
            },
            next_connection_id: if id == u64::MAX {
                0
            } else {
                (id + 1) as u64
            },
            ..m
        },
        (present, id),
    )
}

/// Whether one state follows from another, with this result, by a registration.
pub open spec fn registers(
    m: BrokerModel,
    n: BrokerModel,
    r: (bool, u64),
    key: keyed::KeyModel,
    username: Option<Seq<char>>,
    connection: u64,
    will: Option<request::WillMessageModel>,
    clean_session: bool,
    decision: AclDecision,
    counted: usize,
    reported: usize,
) -> bool {
    exists|mid: BrokerModel| #[trigger]
        takes_over(m, mid, key, decision, counted, reported) && (n, r) == installed(
            mid,
            key,
            username,
            connection,
            will,
            clean_session,
        )
}

/// Whether one state follows from another by the end of a registration. A client
/// that registered anew in the meantime has another generation and stays.
pub open spec fn unregisters(
    m: BrokerModel,
    n: BrokerModel,
    key: keyed::KeyModel,
    connection_id: u64,
    graceful: bool,
    decision: AclDecision,
    counted: usize,
    reported: usize,
) -> bool {
    if m.sessions.contains_key(key) && m.sessions[key].connection_id == connection_id {
        cleans_up(
            BrokerModel { sessions: m.sessions.remove(key), ..m },
            n,
            m.sessions[key],
            key.1,
            graceful,
            decision,
            counted,
            reported,
        )
    } else {
        n == m
    }
}

pub proof fn lemma_entries_remove(m: Map<keyed::KeyModel, SubscriberEntry>, k: keyed::KeyModel)
    ensures
        entries_of(m.remove(k)) == entries_of(m).remove(k),
        entries_of(m).contains_key(k) <==> m.contains_key(k),
        m.contains_key(k) ==> entries_of(m)[k] == m[k]@,
{
    assert(entries_of(m.remove(k)) =~= entries_of(m).remove(k));
}

pub proof fn lemma_entries_insert(
    m: Map<keyed::KeyModel, SubscriberEntry>,
    k: keyed::KeyModel,
    e: SubscriberEntry,
)
    ensures
        entries_of(m.insert(k, e)) == entries_of(m).insert(k, e@),
{
    assert(entries_of(m.insert(k, e)) =~= entries_of(m).insert(k, e@));
}

impl<
    A: Authenticator,
    C: AclChecker,
    T: TenantResolver,
    R: RetainedStore,
    S: SessionStore,
> Broker<A, C, T, R, S> {
    /// The user name under which a publisher is checked.
    pub fn publisher_username(
        &self,
        source_tenant: &Option<TenantId>,
        source_client_id: &Arc<str>,
        source_username: Option<Arc<str>>,
    ) -> (r: Option<Arc<str>>)
        ensures
            text::opt_chars(r) == publisher_username(
                self@,
                text::opt_chars(*source_tenant),
                (**source_client_id)@,
                text::opt_chars(source_username),
            ),
    {
        match source_username {
            Some(u) => Some(u),
            None => {
                let key: ScopedName = (clone_opt(source_tenant), source_client_id.clone());
                proof {
                    lemma_entries_remove(self.sessions@, keyed::key_of(key));
                }
                match self.sessions.get(&key) {
                    Some(e) => clone_opt(&e.username),
                    None => None,
                }
            },
        }
    }

    /// Publishes a client's message, if the access rules let the client.
    pub fn publish(
        &mut self,
        source_tenant: &Option<TenantId>,
        source_client_id: &Arc<str>,
        packet: PublishPacket,
    )
        ensures
            final(self).hooks() == old(self).hooks(),
            exists|decision: AclDecision| #[trigger]
                publishes(
                    old(self)@,
                    final(self)@,
                    text::opt_chars(*source_tenant),
                    (**source_client_id)@,
                    packet@,
                    decision,
                    old(self).retained_store.reported(text::opt_chars(*source_tenant)),
                ) && publish_asked(
                    old(self).acl_checker,
                    old(self)@,
                    text::opt_chars(*source_tenant),
                    (**source_client_id)@,
                    None,
                    packet@.topic,
                    decision,
                ),
    {
        self.publish_with_source_username(source_tenant, source_client_id, None, packet)
    }

    /// Publishes a client's message, if the access rules let the client under this
    /// user name, or under that of its session where none is given.
    pub fn publish_with_source_username(
        &mut self,
        source_tenant: &Option<TenantId>,
        source_client_id: &Arc<str>,
        source_username: Option<Arc<str>>,
        packet: PublishPacket,
    )
        ensures
            final(self).hooks() == old(self).hooks(),
            exists|decision: AclDecision| #[trigger]
                publishes(
                    old(self)@,
                    final(self)@,
                    text::opt_chars(*source_tenant),
                    (**source_client_id)@,
                    packet@,
                    decision,
                    old(self).retained_store.reported(text::opt_chars(*source_tenant)),
                ) && publish_asked(
                    old(self).acl_checker,
                    old(self)@,
                    text::opt_chars(*source_tenant),
                    (**source_client_id)@,
                    text::opt_chars(source_username),
                    packet@.topic,
                    decision,
                ),
    {
        let decision: AclDecision = self.publish_allowed(
            source_tenant,
            source_client_id,
            source_username,
            &packet.topic,
        );
        self.publish_decided(source_tenant, source_client_id, packet, decision)
    }

    /// What the access rules say to a message. A topic that starts with `$` is not
    /// put to them: its message goes nowhere.
    pub(crate) fn publish_allowed(
        &self,
        source_tenant: &Option<TenantId>,
        source_client_id: &Arc<str>,
        source_username: Option<Arc<str>>,
        topic: &Arc<str>,
    ) -> (r: AclDecision)
        ensures
            publish_asked(
                self.acl_checker,
                self@,
                text::opt_chars(*source_tenant),
                (**source_client_id)@,
                text::opt_chars(source_username),
                (**topic)@,
                r,
            ),
    {
        if is_dollar_topic(topic) {
            return AclDecision::Deny;
        }
        let username: Option<Arc<str>> = self.publisher_username(
            source_tenant,
            source_client_id,
            source_username,
        );
        let t: Option<&TenantId> = opt_as_ref(source_tenant);
        let u: Option<&Arc<str>> = opt_as_ref(&username);
        let name: &str = topic;
        let r = self.acl_checker.check_publish(t, source_client_id, u, name);
        assert(call_ensures(
            C::check_publish,
            (&self.acl_checker, t, source_client_id, u, name),
            r,
        ));
        r
    }

    /// Publishes and keeps a message of the broker's own, on a topic that starts
    /// with `$`. No access rule and no limit applies.
    pub fn publish_sys_retained(
        &mut self,
        tenant: &Option<TenantId>,
        topic: Arc<str>,
        payload: Bytes,
        qos: QoS,
    )
        requires
            topic::is_dollar((*topic)@),
        ensures
            final(self).hooks() == old(self).hooks(),
            publishes_sys(
                old(self)@,
                final(self)@,
                text::opt_chars(*tenant),
                (*topic)@,
                buffer::bytes_of(payload),
                qos,
            ),
    {
        let ghost t = text::opt_chars(*tenant);
        let ghost name = (*topic)@;
        let ghost body = buffer::bytes_of(payload);
        self.retained_store.store(opt_as_ref(tenant), topic.clone(), payload.clone(), qos);
        let targets: Vec<(Arc<str>, QoS)> = self.subscriptions.matching(tenant, &topic);
        let message = PublishPacket {
            topic,
            payload,
            dup: false,
            qos,
            retain: false,
            packet_id: None,
            properties: Properties::default(),
        };
        assert(message@ =~= sys_message(name, body, qos));
        fan_out_to(
            &mut self.channels,
            &self.sessions,
            tenant,
            None,
            &message,
            &targets,
            self.broker_safety.max_inflight_messages(),
            self.broker_safety.slow_consumer_policy(),
        );
        proof {
            let v = tree::targets(targets@);
            assert(tree::lists_targets(v, old(self)@.subscriptions, t, name));
            assert(self@ =~= (BrokerModel {
                retained: old(self)@.retained.insert(
                    (t, name),
                    traits::Kept { payload: body, qos },
                ),
                channels: fan_out(
                    old(self)@.channels,
                    old(self)@.sessions,
                    Fan {
                        tenant: t,
                        source: None,
                        message: sys_message(name, body, qos),
                        max_inflight: inflight_cap(old(self)@),
                        policy: policy_of(old(self)@),
                    },
                    v,
                    v.len(),
                ),
                ..old(self)@
            }));
        }
    }

    /// Publishes the broker's version, once.
    pub fn init_sys(&mut self, version: &str)
        ensures
            final(self).hooks() == old(self).hooks(),
            old(self)@.sys_initialized ==> final(self)@ == old(self)@,
            !old(self)@.sys_initialized ==> publishes_sys(
                (BrokerModel { sys_initialized: true, ..old(self)@ }),
                final(self)@,
                None,
                version_topic(),
                version.spec_bytes(),
                QoS::AtMostOnce,
            ),
    {
        if self.sys_initialized {
            return;
        }
        self.sys_initialized = true;
        let mut body: Vec<u8> = Vec::new();
        crate::wire::put_all(&mut body, version.as_bytes());
        proof {
            reveal_strlit("$SYS/broker/version");
            assert(version_topic()[0] == '$');
            assert(body@ =~= version.spec_bytes());
        }
        self.publish_sys_retained(
            &None,
            shared("$SYS/broker/version"),
            bytes_from_vec(body),
            QoS::AtMostOnce,
        );
    }

    /// Puts the session of a client away that is no longer registered.
    fn put_away_session(&mut self, client_id: &Arc<str>, entry: &SubscriberEntry)
        ensures
            final(self).hooks() == old(self).hooks(),
            final(self).retained_store == old(self).retained_store,
            final(self)@ == put_away(
                old(self)@,
                entry@,
                (**client_id)@,
                old(self).session_store.counted(entry@.tenant),
            ),
    {
        let ghost m = self@;
        let ghost e = entry@;
        let ghost c = (**client_id)@;
        let ghost counted = self.session_store.counted(e.tenant);
        let mut keep: bool = false;
        if entry.clean_session {
            self.subscriptions.remove_client(&entry.tenant, client_id);
            self.session_store.destroy(opt_as_ref(&entry.tenant), client_id);
        } else {
            let current: usize = self.session_store.count(opt_as_ref(&entry.tenant));
            if current >= self.broker_safety.max_persistent_sessions_per_tenant() {
                self.subscriptions.remove_client(&entry.tenant, client_id);
            } else {
                keep = true;
            }
        }
        match self.channels.remove(entry.channel) {
            Some(channel) => {
                let mut channel = channel;
                if keep {
                    let mut saved: MqttSession = MqttSession::new();
                    std::mem::swap(&mut channel.session, &mut saved);
                    self.session_store.save(opt_as_ref(&entry.tenant), client_id.clone(), saved);
                } else {
                    let _waiters = channel.session.wipe();
                }
                self.channels.insert(entry.channel, channel);
            },
            None => {
                if keep {
                    self.session_store.save(
                        opt_as_ref(&entry.tenant),
                        client_id.clone(),
                        MqttSession::new(),
                    );
                }
            },
        }
        assert(self@ =~= put_away(m, e, c, counted));
    }

    /// Ends a client that is no longer registered; `decision` says whether its will
    /// may be published.
    fn cleanup_session_decided(
        &mut self,
        client_id: &Arc<str>,
        entry: SubscriberEntry,
        graceful: bool,
        decision: AclDecision,
    )
        ensures
            final(self).hooks() == old(self).hooks(),
            cleans_up(
                old(self)@,
                final(self)@,
                entry@,
                (**client_id)@,
                graceful,
                decision,
                old(self).session_store.counted(entry@.tenant),
                old(self).retained_store.reported(entry@.tenant),
            ),
    {
        self.put_away_session(client_id, &entry);
        if !graceful {
            if let Some(will) = entry.will {
                let message = will_packet(will);
                let nobody: Arc<str> = nobody();
                self.publish_decided(&entry.tenant, &nobody, message, decision);
            }
        }
    }

    /// Ends a client that is no longer registered. Once its session is put away, the
    /// access rules decide on its will; returns what they said.
    fn cleanup_session_state(
        &mut self,
        client_id: &Arc<str>,
        entry: SubscriberEntry,
        graceful: bool,
    ) -> (r: AclDecision)
        ensures
            final(self).hooks() == old(self).hooks(),
            cleans_up(
                old(self)@,
                final(self)@,
                entry@,
                (**client_id)@,
                graceful,
                r,
                old(self).session_store.counted(entry@.tenant),
                old(self).retained_store.reported(entry@.tenant),
            ),
            if graceful {
                r == AclDecision::Deny
            } else {
                entry_asked(old(self).acl_checker, old(self)@, entry@, r)
            },
    {
        self.put_away_session(client_id, &entry);
        if !graceful {
            if let Some(will) = entry.will {
                let message = will_packet(will);
                let nobody: Arc<str> = nobody();
                let decision: AclDecision = self.publish_allowed(
                    &entry.tenant,
                    &nobody,
                    entry.username,
                    &message.topic,
                );
                self.publish_decided(&entry.tenant, &nobody, message, decision);
                return decision;
            }
        }
        AclDecision::Deny
    }

    /// Takes whoever is registered under a key out of the register and closes their
    /// connection.
    fn take_out(&mut self, key: &ScopedName) -> (r: Option<SubscriberEntry>)
        ensures
            final(self).hooks() == old(self).hooks(),
            final(self).retained_store == old(self).retained_store,
            final(self).session_store == old(self).session_store,
            ({
                let m = old(self)@;
                let k = keyed::key_of(*key);
                if m.sessions.contains_key(k) {
                    &&& r matches Some(e) && e@ == m.sessions[k]
                    &&& final(self)@ == (BrokerModel {
                        sessions: m.sessions.remove(k),
                        channels: delivery::with_channel(
                            m.channels,
                            m.sessions[k].channel,
                            channel::closed(m.channels[m.sessions[k].channel]),
                        ),
                        ..m
                    })
                } else {
                    r is None && final(self)@ == m
                }
            }),
    {
        let ghost k = keyed::key_of(*key);
        let ghost m = self@;
        proof {
            lemma_entries_remove(self.sessions@, k);
        }
        match self.sessions.remove(key) {
            Some(prev) => {
                match self.channels.remove(prev.channel) {
                    Some(channel) => {
                        let mut channel = channel;
                        let _waiters = channel.close();
                        self.channels.insert(prev.channel, channel);
                        assert(self.channels@ =~= m.channels.insert(prev.channel, channel@));
                    },
                    None => {
                        assert(self.channels@ =~= m.channels);
                    },
                }
                assert(self@ =~= (BrokerModel {
                    sessions: m.sessions.remove(k),
                    channels: delivery::with_channel(
                        m.channels,
                        m.sessions[k].channel,
                        channel::closed(m.channels[m.sessions[k].channel]),
                    ),
                    ..m
                }));
                Some(prev)
            },
            None => {
                assert(self.sessions@ =~= old(self).sessions@);
                assert(self@ =~= m);
                None
            },
        }
    }

    /// Registers a client where nobody is registered under its name.
    fn install(
        &mut self,
        tenant: Option<TenantId>,
        client_id: Arc<str>,
        username: Option<Arc<str>>,
        connection: u64,
        will: Option<WillMessage>,
        clean_session: bool,
    ) -> (r: (bool, u64))
        ensures
            final(self).hooks() == old(self).hooks(),
            (final(self)@, r) == installed(
                old(self)@,
                (text::opt_chars(tenant), (*client_id)@),
                text::opt_chars(username),
                connection,
                will_model(will),
                clean_session,
            ),
    {
        let key: ScopedName = (clone_opt(&tenant), client_id.clone());
        let ghost k = keyed::key_of(key);
        let ghost mid = self@;
        let mut session_present: bool = false;
        if clean_session {
            self.subscriptions.remove_client(&tenant, &client_id);
            self.session_store.destroy(opt_as_ref(&tenant), &client_id);
        } else {
            match self.session_store.load(opt_as_ref(&tenant), &client_id) {
                Some(persisted) => {
                    let mut persisted = persisted;
                    match self.channels.remove(connection) {
                        Some(channel) => {
                            let mut channel = channel;
                            channel.session.import_persistent_state(&mut persisted);
                            self.channels.insert(connection, channel);
                        },
                        None => {},
                    }
                    session_present = true;
                },
                None => {},
            }
        }
        let connection_id: u64 = self.next_connection_id;
        self.next_connection_id = if connection_id == u64::MAX {
            0
        } else {
            connection_id + 1
        };
        let filters: KeyedStore<QoS> = self.subscriptions.client_filters(&tenant, &client_id);
        let entry = SubscriberEntry {
            channel: connection,
            filters,
            will,
            clean_session,
            tenant,
            username,
            connection_id,
        };
        proof {
            lemma_entries_insert(self.sessions@, k, entry);
        }
        let _none = self.sessions.insert(key, entry);
        assert((self@, (session_present, connection_id)) =~= installed(
            mid,
            k,
            text::opt_chars(username),
            connection,
            will_model(will),
            clean_session,
        ));
        (session_present, connection_id)
    }

    /// Registers a client on a connection of the table, in place of whoever is
    /// registered under its name; `will_decision` says whether the will of that one
    /// may be published. Returns whether the session goes on where an earlier one
    /// stopped, and the generation of the registration.
    pub fn register_session_decided(
        &mut self,
        tenant: Option<TenantId>,
        client_id: Arc<str>,
        username: Option<Arc<str>>,
        connection: u64,
        will: Option<WillMessage>,
        clean_session: bool,
        will_decision: AclDecision,
    ) -> (r: (bool, u64))
        ensures
            final(self).hooks() == old(self).hooks(),
            registers(
                old(self)@,
                final(self)@,
                r,
                (text::opt_chars(tenant), (*client_id)@),
                text::opt_chars(username),
                connection,
                will_model(will),
                clean_session,
                will_decision,
                old(self).session_store.counted(
                    old(self)@.sessions[(text::opt_chars(tenant), (*client_id)@)].tenant,
                ),
                old(self).retained_store.reported(
                    old(self)@.sessions[(text::opt_chars(tenant), (*client_id)@)].tenant,
                ),
            ),
    {
        let key: ScopedName = (clone_opt(&tenant), client_id.clone());
        let ghost k = keyed::key_of(key);
        let ghost m = self@;
        let ghost counted = self.session_store.counted(m.sessions[k].tenant);
        let ghost reported = self.retained_store.reported(m.sessions[k].tenant);
        if let Some(prev) = self.take_out(&key) {
            self.cleanup_session_decided(&client_id, prev, false, will_decision);
        }
        assert(takes_over(m, self@, k, will_decision, counted, reported));
        self.install(tenant, client_id, username, connection, will, clean_session)
    }

    /// Registers a client, as above; the access rules decide on the will of the one
    /// that it takes the place of. Returns what they said, too.
    pub(crate) fn register_session_asking(
        &mut self,
        tenant: Option<TenantId>,
        client_id: Arc<str>,
        username: Option<Arc<str>>,
        connection: u64,
        will: Option<WillMessage>,
        clean_session: bool,
    ) -> (r: ((bool, u64), AclDecision))
        ensures
            final(self).hooks() == old(self).hooks(),
            registers(
                old(self)@,
                final(self)@,
                r.0,
                (text::opt_chars(tenant), (*client_id)@),
                text::opt_chars(username),
                connection,
                will_model(will),
                clean_session,
                r.1,
                old(self).session_store.counted(
                    old(self)@.sessions[(text::opt_chars(tenant), (*client_id)@)].tenant,
                ),
                old(self).retained_store.reported(
                    old(self)@.sessions[(text::opt_chars(tenant), (*client_id)@)].tenant,
                ),
            ),
            will_asked(
                old(self).acl_checker,
                old(self)@,
                (text::opt_chars(tenant), (*client_id)@),
                r.1,
            ),
    {
        let key: ScopedName = (clone_opt(&tenant), client_id.clone());
        let ghost k = keyed::key_of(key);
        let ghost m = self@;
        let ghost counted = self.session_store.counted(m.sessions[k].tenant);
        let ghost reported = self.retained_store.reported(m.sessions[k].tenant);
        let decision: AclDecision = match self.take_out(&key) {
            Some(prev) => self.cleanup_session_state(&client_id, prev, false),
            None => AclDecision::Deny,
        };
        assert(takes_over(m, self@, k, decision, counted, reported));
        let r: (bool, u64) = self.install(
            tenant,
            client_id,
            username,
            connection,
            will,
            clean_session,
        );
        (r, decision)
    }

    /// Registers a client, as above.
    pub fn register_session(
        &mut self,
        tenant: Option<TenantId>,
        client_id: Arc<str>,
        username: Option<Arc<str>>,
        connection: u64,
        will: Option<WillMessage>,
        clean_session: bool,
    ) -> (r: (bool, u64))
        ensures
            final(self).hooks() == old(self).hooks(),
            exists|decision: AclDecision| #[trigger]
                registers(
                    old(self)@,
                    final(self)@,
                    r,
                    (text::opt_chars(tenant), (*client_id)@),
                    text::opt_chars(username),
                    connection,
                    will_model(will),
                    clean_session,
                    decision,
                    old(self).session_store.counted(
                        old(self)@.sessions[(text::opt_chars(tenant), (*client_id)@)].tenant,
                    ),
                    old(self).retained_store.reported(
                        old(self)@.sessions[(text::opt_chars(tenant), (*client_id)@)].tenant,
                    ),
                ) && will_asked(
                    old(self).acl_checker,
                    old(self)@,
                    (text::opt_chars(tenant), (*client_id)@),
                    decision,
                ),
    {
        let (r, _decision) = self.register_session_asking(
            tenant,
            client_id,
            username,
            connection,
            will,
            clean_session,
        );
        r
    }

    /// The tenant of a registered client.
    pub fn tenant_of(&self, tenant: &Option<TenantId>, client_id: &Arc<str>) -> (r: Option<TenantId>)
        ensures
            text::opt_chars(r) == (if self@.sessions.contains_key(
                (text::opt_chars(*tenant), (**client_id)@),
            ) {
                self@.sessions[(text::opt_chars(*tenant), (**client_id)@)].tenant
            } else {
                None
            }),
    {
        let key: ScopedName = (clone_opt(tenant), client_id.clone());
        proof {
            lemma_entries_remove(self.sessions@, keyed::key_of(key));
        }
        match self.sessions.get(&key) {
            Some(e) => clone_opt(&e.tenant),
            None => None,
        }
    }

    /// Takes a registration out of the register, if it is still the one of that
    /// generation.
    fn take_current(&mut self, key: &ScopedName, connection_id: u64) -> (r: Option<SubscriberEntry>)
        ensures
            final(self).hooks() == old(self).hooks(),
            final(self).retained_store == old(self).retained_store,
            final(self).session_store == old(self).session_store,
            ({
                let m = old(self)@;
                let k = keyed::key_of(*key);
                if m.sessions.contains_key(k) && m.sessions[k].connection_id == connection_id {
                    &&& r matches Some(e) && e@ == m.sessions[k]
                    &&& final(self)@ == (BrokerModel { sessions: m.sessions.remove(k), ..m })
                } else {
                    r is None && final(self)@ == m
                }
            }),
    {
        let ghost k = keyed::key_of(*key);
        proof {
            lemma_entries_remove(self.sessions@, k);
        }
        let current: bool = match self.sessions.get(key) {
            Some(e) => e.connection_id == connection_id,
            None => false,
        };
        if !current {
            return None;
        }
        let r = self.sessions.remove(key);
        assert(self@ =~= (BrokerModel { sessions: old(self)@.sessions.remove(k), ..old(self)@ }));
        r
    }

    /// Ends a registration, if it is still the one of that generation;
    /// `will_decision` says whether the will may be published.
    pub fn unregister_session_decided(
        &mut self,
        tenant: &Option<TenantId>,
        client_id: &Arc<str>,
        connection_id: u64,
        graceful: bool,
        will_decision: AclDecision,
    )
        ensures
            final(self).hooks() == old(self).hooks(),
            unregisters(
                old(self)@,
                final(self)@,
                (text::opt_chars(*tenant), (**client_id)@),
                connection_id,
                graceful,
                will_decision,
                old(self).session_store.counted(
                    old(self)@.sessions[(text::opt_chars(*tenant), (**client_id)@)].tenant,
                ),
                old(self).retained_store.reported(
                    old(self)@.sessions[(text::opt_chars(*tenant), (**client_id)@)].tenant,
                ),
            ),
    {
        let key: ScopedName = (clone_opt(tenant), client_id.clone());
        if let Some(entry) = self.take_current(&key, connection_id) {
            self.cleanup_session_decided(client_id, entry, graceful, will_decision);
        }
    }

    /// Ends a registration, as above; the access rules decide on the will, where one
    /// is due. Returns what they said.
    pub(crate) fn unregister_session_asking(
        &mut self,
        tenant: &Option<TenantId>,
        client_id: &Arc<str>,
        connection_id: u64,
        graceful: bool,
    ) -> (r: AclDecision)
        ensures
            final(self).hooks() == old(self).hooks(),
            unregisters(
                old(self)@,
                final(self)@,
                (text::opt_chars(*tenant), (**client_id)@),
                connection_id,
                graceful,
                r,
                old(self).session_store.counted(
                    old(self)@.sessions[(text::opt_chars(*tenant), (**client_id)@)].tenant,
                ),
                old(self).retained_store.reported(
                    old(self)@.sessions[(text::opt_chars(*tenant), (**client_id)@)].tenant,
                ),
            ),
            end_asked(
                old(self).acl_checker,
                old(self)@,
                (text::opt_chars(*tenant), (**client_id)@),
                connection_id,
                graceful,
                r,
            ),
    {
        let key: ScopedName = (clone_opt(tenant), client_id.clone());
        match self.take_current(&key, connection_id) {
            Some(entry) => self.cleanup_session_state(client_id, entry, graceful),
            None => AclDecision::Deny,
        }
    }

    /// Ends a registration, as above.
    pub fn unregister_session(
        &mut self,
        tenant: &Option<TenantId>,
        client_id: &Arc<str>,
        connection_id: u64,
        graceful: bool,
    )
        ensures
            final(self).hooks() == old(self).hooks(),
            exists|decision: AclDecision| #[trigger]
                unregisters(
                    old(self)@,
                    final(self)@,
                    (text::opt_chars(*tenant), (**client_id)@),
                    connection_id,
                    graceful,
                    decision,
                    old(self).session_store.counted(
                        old(self)@.sessions[(text::opt_chars(*tenant), (**client_id)@)].tenant,
                    ),
                    old(self).retained_store.reported(
                        old(self)@.sessions[(text::opt_chars(*tenant), (**client_id)@)].tenant,
                    ),
                ) && end_asked(
                    old(self).acl_checker,
                    old(self)@,
                    (text::opt_chars(*tenant), (**client_id)@),
                    connection_id,
                    graceful,
                    decision,
                ),
    {
        let _decision: AclDecision = self.unregister_session_asking(
            tenant,
            client_id,
            connection_id,
            graceful,
        );
    }
}

} // verus!
