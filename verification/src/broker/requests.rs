//! What a registered client asks of the broker.
use crate::broker::broker;
use crate::broker::broker::Broker;
use crate::broker::delivery;
use crate::broker::delivery::offer;
use crate::broker::safety::SlowConsumerPolicy;
use crate::broker::traits;
use crate::broker::traits::{
    AclChecker, AclDecision, Authenticator, RetainedEntry, RetainedStore, SessionStore, TenantId,
    TenantResolver,
};
use crate::broker::tree;
use crate::channel;
use crate::channel::MqttChannel;
use crate::keyed;
use crate::keyed::{clone_key, ScopedName};
use crate::packet;
use crate::packet::{Packet, PublishPacket};
use crate::properties;
use crate::properties::Properties;
use crate::request;
use crate::request::{PacketId, QoS, SubackCode, TopicFilter};
use crate::session;
use crate::text;
use crate::text::{clone_opt, opt_as_ref};
use crate::topic;
use crate::topic::validate_subscribe_filter;
use std::sync::Arc;
use vstd::prelude::*;
use vstd::slice::*;

verus! {

// ----------------------------------------------------------------------------
// Subscribing
// ----------------------------------------------------------------------------

/// The state after one filter was dealt with, and the answer to it. A filter that
/// is not well formed, one that is denied, and a new one of a client that has as
/// many as may be, is refused. Any other is granted at its level.
pub open spec fn subscribe_step(
    m: broker::BrokerModel,
    key: keyed::KeyModel,
    filter: (Seq<char>, QoS),
    decision: AclDecision,
) -> (broker::BrokerModel, SubackCode) {
    let e = m.sessions[key];
    let f = (key.0, filter.0);
    if topic::check_filter(filter.0) is Err || decision == AclDecision::Deny || (
    !e.filters.contains_key(f) && e.filters.len() >= broker::subscription_cap(m)) {
        (m, SubackCode::Failure)
    } else {
        (
            broker::BrokerModel {
                sessions: m.sessions.insert(
                    key,
                    broker::EntryModel { filters: e.filters.insert(f, filter.1), ..e },
                ),
                subscriptions: tree::with_subscription(m.subscriptions, f, key, filter.1),
                ..m
            },
            SubackCode::Granted(filter.1),
        )
    }
}

/// The state after the first `n` filters, and the answers to them.
pub open spec fn subscribe_steps(
    m: broker::BrokerModel,
    key: keyed::KeyModel,
    filters: Seq<(Seq<char>, QoS)>,
    decisions: Seq<AclDecision>,
    n: nat,
) -> (broker::BrokerModel, Seq<SubackCode>)
    decreases n,
{
    if n == 0 {
        (m, Seq::empty())
    } else {
        let (mid, codes) = subscribe_steps(m, key, filters, decisions, (n - 1) as nat);
        let (after, code) = subscribe_step(mid, key, filters[n - 1], decisions[n - 1]);
        (after, codes.push(code))
    }
}

/// The state after a SUBSCRIBE, and the answers. A client that is not registered
/// is refused everything.
pub open spec fn subscribed(
    m: broker::BrokerModel,
    key: keyed::KeyModel,
    filters: Seq<(Seq<char>, QoS)>,
    decisions: Seq<AclDecision>,
) -> (broker::BrokerModel, Seq<SubackCode>) {
    if m.sessions.contains_key(key) {
        subscribe_steps(m, key, filters, decisions, filters.len())
    } else {
        (m, Seq::new(filters.len(), |i: int| SubackCode::Failure))
    }
}

/// Whether this is what the access rules were asked about a filter, and answered. One
/// that is not well formed, and any of a client that is not registered, is not put to
/// them.
pub open spec fn subscribe_asked<C: AclChecker>(
    acl: C,
    m: broker::BrokerModel,
    key: keyed::KeyModel,
    filter: Seq<char>,
    d: AclDecision,
) -> bool {
    if m.sessions.contains_key(key) && topic::check_filter(filter) is Ok {
        traits::says_subscribe(acl, key.0, key.1, m.sessions[key].username, filter, d)
    } else {
        d == AclDecision::Deny
    }
}

/// The same for all filters of a SUBSCRIBE.
pub open spec fn all_asked<C: AclChecker>(
    acl: C,
    m: broker::BrokerModel,
    key: keyed::KeyModel,
    filters: Seq<(Seq<char>, QoS)>,
    decisions: Seq<AclDecision>,
) -> bool {
    &&& decisions.len() == filters.len()
    &&& forall|i: int|
        0 <= i < filters.len() ==> subscribe_asked(acl, m, key, filters[i].0, #[trigger] decisions[i])
}

// ----------------------------------------------------------------------------
// Retained messages for a new subscription
// ----------------------------------------------------------------------------

/// A retained message as it is sent to a new subscriber.
pub open spec fn replayed(e: (Seq<char>, traits::Kept), granted: QoS) -> packet::PublishModel {
    packet::PublishModel {
        topic: e.0,
        payload: e.1.payload,
        dup: false,
        qos: request::qos_min(e.1.qos, granted),
        retain: true,
        packet_id: None,
        properties: properties::no_properties(),
    }
}

/// The messages for the first `n` filters, filter by filter.
pub open spec fn replay_messages(
    lists: Seq<Seq<(Seq<char>, traits::Kept)>>,
    granted: Seq<(Seq<char>, QoS)>,
    n: nat,
) -> Seq<packet::PublishModel>
    decreases n,
{
    if n == 0 {
        Seq::empty()
    } else {
        replay_messages(lists, granted, (n - 1) as nat) + Seq::new(
            lists[n - 1].len(),
            |j: int| replayed(lists[n - 1][j], granted[n - 1].1),
        )
    }
}

/// The connection after these messages were offered to it one by one, up to the
/// first one that closes it.
pub open spec fn offered_all(
    c: channel::ChannelModel,
    messages: Seq<packet::PublishModel>,
    max_inflight: usize,
    policy: SlowConsumerPolicy,
) -> channel::ChannelModel
    decreases messages.len(),
{
    if messages.len() == 0 {
        c
    } else {
        let next = delivery::offered(c, messages[0], max_inflight, policy);
        if delivery::overflows(c, messages[0], max_inflight, policy) {
            next
        } else {
            offered_all(next, messages.drop_first(), max_inflight, policy)
        }
    }
}

/// For each filter, whether the list at its place is that of the messages it
/// matches.
pub open spec fn lists_all_retained(
    lists: Seq<Seq<(Seq<char>, traits::Kept)>>,
    kept: traits::RetainedModel,
    tenant: Option<Seq<char>>,
    granted: Seq<(Seq<char>, QoS)>,
) -> bool {
    &&& lists.len() == granted.len()
    &&& forall|i: int|
        0 <= i < lists.len() ==> traits::lists_retained(
            #[trigger] lists[i],
            kept,
            tenant,
            granted[i].0,
        )
}

/// Whether one state follows from another by the retained messages for these
/// filters, each list in some order.
pub open spec fn replays(
    m: broker::BrokerModel,
    n: broker::BrokerModel,
    key: keyed::KeyModel,
    granted: Seq<(Seq<char>, QoS)>,
) -> bool {
    if m.sessions.contains_key(key) && m.channels.contains_key(m.sessions[key].channel) {
        let id = m.sessions[key].channel;
        exists|lists: Seq<Seq<(Seq<char>, traits::Kept)>>| #[trigger]
            lists_all_retained(lists, m.retained, key.0, granted) && n == (broker::BrokerModel {
                channels: m.channels.insert(
                    id,
                    offered_all(
                        m.channels[id],
                        replay_messages(lists, granted, granted.len()),
                        broker::inflight_cap(m),
                        broker::policy_of(m),
                    ),
                ),
                ..m
            })
    } else {
        n == m
    }
}

// ----------------------------------------------------------------------------
// Unsubscribing
// ----------------------------------------------------------------------------

/// The state after the first `n` filters of an UNSUBSCRIBE.
pub open spec fn unsubscribe_steps(
    m: broker::BrokerModel,
    key: keyed::KeyModel,
    topics: Seq<Seq<char>>,
    n: nat,
) -> broker::BrokerModel
    decreases n,
{
    if n == 0 {
        m
    } else {
        let mid = unsubscribe_steps(m, key, topics, (n - 1) as nat);
        let f = (key.0, topics[n - 1]);
        let e = mid.sessions[key];
        broker::BrokerModel {
            sessions: mid.sessions.insert(
                key,
                broker::EntryModel { filters: e.filters.remove(f), ..e },
            ),
            subscriptions: tree::without_subscription(mid.subscriptions, f, key),
            ..mid
        }
    }
}

/// The state after an UNSUBSCRIBE. A client that is not registered changes
/// nothing.
pub open spec fn unsubscribed(
    m: broker::BrokerModel,
    key: keyed::KeyModel,
    topics: Seq<Seq<char>>,
) -> broker::BrokerModel {
    if m.sessions.contains_key(key) {
        unsubscribe_steps(m, key, topics, topics.len())
    } else {
        m
    }
}

// ----------------------------------------------------------------------------
// Acknowledgements
// ----------------------------------------------------------------------------

/// The state after a subscriber acknowledged a message.
pub open spec fn acknowledged(m: broker::BrokerModel, key: keyed::KeyModel, id: u16) -> broker::BrokerModel {
    if m.sessions.contains_key(key) {
        let c = m.sessions[key].channel;
        broker::BrokerModel {
            channels: broker::with_session(
                m.channels,
                c,
                session::drop_slot(session::forget_outbound(m.channels[c].session, id), id),
            ),
            ..m
        }
    } else {
        m
    }
}

/// The connection after these messages were put in its queue one by one, as far
/// as there was room.
pub open spec fn sent_all(c: channel::ChannelModel, messages: Seq<packet::PublishModel>) -> channel::ChannelModel
    decreases messages.len(),
{
    if messages.len() == 0 {
        c
    } else {
        channel::after_send(
            sent_all(c, messages.drop_last()),
            channel::CmdModel::Packet(packet::PacketModel::Publish(messages.last())),
        )
    }
}

/// Whether a list holds the unacknowledged messages as they are sent again, in
/// ascending order of their packet identifiers.
pub open spec fn lists_again(
    messages: Seq<packet::PublishModel>,
    ids: Seq<u16>,
    s: session::SessionModel,
) -> bool {
    let again = session::as_duplicates(s.outbound_inflight);
    &&& ids.len() == messages.len()
    &&& forall|i: int, j: int| 0 <= i < j < ids.len() ==> #[trigger] ids[i] < #[trigger] ids[j]
    &&& forall|i: int|
        0 <= i < ids.len() ==> again.contains_key(#[trigger] ids[i]) && messages[i] == again[ids[i]]
    &&& forall|id: u16| #[trigger] again.contains_key(id) ==> ids.contains(id)
}

/// Sends every unacknowledged message of a session again, marked as a duplicate. A
/// full queue takes no more; what it does not take stays unacknowledged.
pub fn retransmit_inflight(channel: &mut MqttChannel)
    ensures
        exists|messages: Seq<packet::PublishModel>, ids: Seq<u16>| #[trigger]
            lists_again(messages, ids, old(channel)@.session) && final(channel)@ == sent_all(
                old(channel)@,
                messages,
            ),
{
    let list: Vec<(PacketId, PublishPacket)> = channel.session.drain_outbound_for_retransmit();
    let ghost s = channel@.session;
    let ghost messages = Seq::new(list@.len(), |i: int| list@[i].1@);
    let ghost ids = Seq::new(list@.len(), |i: int| list@[i].0);
    let mut i: usize = 0;
    proof {
        assert(messages.take(0).len() == 0);
    }
    while i < list.len()
        invariant
            i <= list@.len(),
            messages == Seq::new(list@.len(), |i: int| list@[i].1@),
            channel@ == sent_all(old(channel)@, messages.take(i as int)),
        decreases list@.len() - i,
    {
        proof {
            assert(messages.take(i + 1).drop_last() =~= messages.take(i as int));
            assert(messages.take(i + 1).last() == messages[i as int]);
        }
        let _r = channel.send_packet(Packet::Publish(list[i].1.clone()));
        i += 1;
    }
    proof {
        assert(messages.take(i as int) =~= messages);
        let again = session::as_duplicates(s.outbound_inflight);
        assert forall|a: int| 0 <= a < ids.len() implies again.contains_key(#[trigger] ids[a])
            && messages[a] == again[ids[a]] by {
            assert(again.contains_key(list@[a].0));
        }
        assert forall|a: int, b: int| 0 <= a < b < ids.len() implies #[trigger] ids[a]
            < #[trigger] ids[b] by {
            assert(list@[a].0 < list@[b].0);
        }
        assert forall|id: u16| #[trigger] again.contains_key(id) implies ids.contains(id) by {
            let a = choose|a: int| 0 <= a < list@.len() && (#[trigger] list@[a]).0 == id;
            assert(ids[a] == id);
        }
        assert(lists_again(messages, ids, s));
    }
}

impl<
    A: Authenticator,
    C: AclChecker,
    T: TenantResolver,
    R: RetainedStore,
    S: SessionStore,
> Broker<A, C, T, R, S> {
    /// Subscribes a client to filters; `decisions` says for each whether it may.
    pub fn subscribe_decided(
        &mut self,
        tenant: &Option<TenantId>,
        client_id: &Arc<str>,
        filters: &[TopicFilter],
        decisions: &[AclDecision],
    ) -> (r: Vec<SubackCode>)
        requires
            filters@.len() == decisions@.len(),
        ensures
            final(self).hooks() == old(self).hooks(),
            (final(self)@, r@) == subscribed(
                old(self)@,
                (text::opt_chars(*tenant), (**client_id)@),
                request::filters_of(filters@),
                decisions@,
            ),
    {
        let key: ScopedName = (clone_opt(tenant), client_id.clone());
        let ghost k = keyed::key_of(key);
        let ghost m = self@;
        let ghost all = request::filters_of(filters@);
        let mut codes: Vec<SubackCode> = Vec::new();
        let mut i: usize = 0;
        proof {
            broker::lemma_entries_remove(self.sessions@, k);
        }
        if self.sessions.get(&key).is_none() {
            while i < filters.len()
                invariant
                    i <= filters@.len(),
                    codes@ == Seq::new(i as nat, |j: int| SubackCode::Failure),
                    self@ == m,
                decreases filters@.len() - i,
            {
                codes.push(SubackCode::Failure);
                i += 1;
                assert(codes@ =~= Seq::new(i as nat, |j: int| SubackCode::Failure));
            }
            return codes;
        }
        while i < filters.len()
            invariant
                i <= filters@.len(),
                filters@.len() == decisions@.len(),
                k == keyed::key_of(key),
                k == (text::opt_chars(*tenant), (**client_id)@),
                all == request::filters_of(filters@),
                self.hooks() == old(self).hooks(),
                self@.sessions.contains_key(k),
                codes@.len() == i,
                (self@, codes@) == subscribe_steps(m, k, all, decisions@, i as nat),
            decreases filters@.len() - i,
        {
            let tf = &filters[i];
            let ghost before = self@;
            let ghost f = (k.0, (*tf.filter)@);
            let ghost d = decisions@[i as int];
            let ghost step = subscribe_step(before, k, all[i as int], d);
            proof {
                broker::lemma_entries_remove(self.sessions@, k);
                assert(all[i as int] == ((*tf.filter)@, tf.qos));
            }
            let mut granted: bool = false;
            if validate_subscribe_filter(&tf.filter).is_ok() && decisions[i] == AclDecision::Allow {
                match self.sessions.remove(&key) {
                    Some(entry) => {
                        let mut entry = entry;
                        let ghost e = entry@;
                        let name: ScopedName = (clone_opt(tenant), tf.filter.clone());
                        let cap: usize = self.broker_safety.max_subscriptions_per_client();
                        if entry.filters.get(&name).is_some() || entry.filters.len() < cap {
                            let _old = entry.filters.insert(name, tf.qos);
                            granted = true;
                        }
                        proof {
                            assert(e == before.sessions[k]);
                            broker::lemma_entries_insert(self.sessions@, k, entry);
                        }
                        let _none = self.sessions.insert(clone_key(&key), entry);
                        if granted {
                            self.subscriptions.subscribe(
                                clone_opt(tenant),
                                client_id.clone(),
                                tf.filter.clone(),
                                tf.qos,
                            );
                            proof {
                                assert(self@.sessions =~= before.sessions.insert(
                                    k,
                                    broker::EntryModel {
                                        filters: e.filters.insert(f, tf.qos),
                                        ..e
                                    },
                                ));
                                assert(self@ =~= step.0);
                            }
                        } else {
                            proof {
                                assert(self@.sessions =~= before.sessions);
                                assert(self@ =~= before);
                            }
                        }
                    },
                    None => {},
                }
            }
            if granted {
                codes.push(SubackCode::Granted(tf.qos));
            } else {
                codes.push(SubackCode::Failure);
            }
            assert((self@, codes@[i as int]) == step);
            i += 1;
        }
        codes
    }

    /// Subscribes a client to filters, as far as the access rules let it.
    pub fn subscribe(
        &mut self,
        tenant: &Option<TenantId>,
        client_id: &Arc<str>,
        filters: &[TopicFilter],
    ) -> (r: Vec<SubackCode>)
        ensures
            final(self).hooks() == old(self).hooks(),
            exists|decisions: Seq<AclDecision>|
                all_asked(
                    old(self).acl_checker,
                    old(self)@,
                    (text::opt_chars(*tenant), (**client_id)@),
                    request::filters_of(filters@),
                    decisions,
                ) && (final(self)@, r@) == #[trigger] subscribed(
                    old(self)@,
                    (text::opt_chars(*tenant), (**client_id)@),
                    request::filters_of(filters@),
                    decisions,
                ),
    {
        let decisions: Vec<AclDecision> = self.subscribe_allowed(tenant, client_id, filters);
        self.subscribe_decided(tenant, client_id, filters, decisions.as_slice())
    }

    /// What the access rules say to each filter. One that is not well formed, and
    /// any of a client that is not registered, is not put to them.
    pub(crate) fn subscribe_allowed(
        &self,
        tenant: &Option<TenantId>,
        client_id: &Arc<str>,
        filters: &[TopicFilter],
    ) -> (r: Vec<AclDecision>)
        ensures
            all_asked(
                self.acl_checker,
                self@,
                (text::opt_chars(*tenant), (**client_id)@),
                request::filters_of(filters@),
                r@,
            ),
    {
        let key: ScopedName = (clone_opt(tenant), client_id.clone());
        let ghost k = keyed::key_of(key);
        let ghost all = request::filters_of(filters@);
        proof {
            broker::lemma_entries_remove(self.sessions@, k);
        }
        let entry = self.sessions.get(&key);
        let mut decisions: Vec<AclDecision> = Vec::new();
        let mut i: usize = 0;
        while i < filters.len()
            invariant
                i <= filters@.len(),
                decisions@.len() == i,
                all == request::filters_of(filters@),
                k == (text::opt_chars(*tenant), (**client_id)@),
                entry is Some <==> self@.sessions.contains_key(k),
                entry matches Some(e) ==> text::opt_chars(e.username) == self@.sessions[k].username,
                forall|j: int|
                    0 <= j < i ==> subscribe_asked(
                        self.acl_checker,
                        self@,
                        k,
                        all[j].0,
                        #[trigger] decisions@[j],
                    ),
            decreases filters@.len() - i,
        {
            let filter: &str = &filters[i].filter;
            assert(all[i as int].0 == filter@);
            let decision: AclDecision = match &entry {
                Some(e) => if validate_subscribe_filter(filter).is_ok() {
                    let t: Option<&TenantId> = opt_as_ref(tenant);
                    let u: Option<&Arc<str>> = opt_as_ref(&e.username);
                    let d = self.acl_checker.check_subscribe(t, client_id, u, filter);
                    assert(call_ensures(
                        C::check_subscribe,
                        (&self.acl_checker, t, client_id, u, filter),
                        d,
                    ));
                    d
                } else {
                    AclDecision::Deny
                },
                None => AclDecision::Deny,
            };
            decisions.push(decision);
            i += 1;
        }
        decisions
    }

    /// Sends a client the retained messages for filters that it was just granted.
    pub fn replay_retained_for_subscribe(
        &mut self,
        tenant: &Option<TenantId>,
        client_id: &Arc<str>,
        granted: &[(Arc<str>, QoS)],
    )
        ensures
            final(self).hooks() == old(self).hooks(),
            replays(
                old(self)@,
                final(self)@,
                (text::opt_chars(*tenant), (**client_id)@),
                tree::targets(granted@),
            ),
    {
        let key: ScopedName = (clone_opt(tenant), client_id.clone());
        let ghost k = keyed::key_of(key);
        let ghost m = self@;
        let ghost all = tree::targets(granted@);
        proof {
            broker::lemma_entries_remove(self.sessions@, k);
        }
        let id: u64 = match self.sessions.get(&key) {
            Some(e) => e.channel,
            None => {
                return;
            },
        };
        let (messages, lists) = self.retained_for(tenant, granted);
        let max_inflight: usize = self.broker_safety.max_inflight_messages();
        let policy: SlowConsumerPolicy = self.broker_safety.slow_consumer_policy();
        match self.channels.remove(id) {
            None => {
                assert(self.channels@ =~= m.channels);
                assert(self@ =~= m);
            },
            Some(channel) => {
                let mut channel = channel;
                offer_all(&mut channel, messages, max_inflight, policy);
                self.channels.insert(id, channel);
                proof {
                    assert(lists_all_retained(lists@, m.retained, k.0, all));
                    assert(self@.channels =~= m.channels.insert(id, channel@));
                    assert(self@ =~= (broker::BrokerModel {
                        channels: m.channels.insert(
                            id,
                            offered_all(
                                m.channels[id],
                                replay_messages(lists@, all, all.len()),
                                broker::inflight_cap(m),
                                broker::policy_of(m),
                            ),
                        ),
                        ..m
                    }));
                }
            },
        }
    }

    /// The retained messages for filters, as they are sent.
    fn retained_for(&self, tenant: &Option<TenantId>, granted: &[(Arc<str>, QoS)]) -> (r: (
        Vec<PublishPacket>,
        Ghost<Seq<Seq<(Seq<char>, traits::Kept)>>>,
    ))
        ensures
            lists_all_retained(
                r.1@,
                self@.retained,
                text::opt_chars(*tenant),
                tree::targets(granted@),
            ),
            messages_of(r.0@) == replay_messages(r.1@, tree::targets(granted@), granted@.len()),
    {
        let ghost all = tree::targets(granted@);
        let mut messages: Vec<PublishPacket> = Vec::new();
        let mut lists: Ghost<Seq<Seq<(Seq<char>, traits::Kept)>>> = Ghost(Seq::empty());
        let mut i: usize = 0;
        assert(messages_of(messages@) =~= Seq::<packet::PublishModel>::empty());
        while i < granted.len()
            invariant
                i <= granted@.len(),
                all == tree::targets(granted@),
                lists@.len() == i,
                forall|a: int|
                    0 <= a < i ==> traits::lists_retained(
                        #[trigger] lists@[a],
                        self@.retained,
                        text::opt_chars(*tenant),
                        all[a].0,
                    ),
                messages_of(messages@) == replay_messages(lists@, all, i as nat),
            decreases granted@.len() - i,
        {
            let found: Vec<RetainedEntry> = self.retained_store.matching(
                opt_as_ref(tenant),
                &granted[i].0,
            );
            let ghost list = traits::entries_of(found@);
            let ghost lists_before = lists@;
            let ghost start = messages_of(messages@);
            let ghost tail = Seq::new(list.len(), |j: int| replayed(list[j], all[i as int].1));
            let mut j: usize = 0;
            assert(start + tail.take(0) =~= start);
            while j < found.len()
                invariant
                    i < granted@.len(),
                    all == tree::targets(granted@),
                    j <= found@.len(),
                    list == traits::entries_of(found@),
                    tail == Seq::new(list.len(), |j: int| replayed(list[j], all[i as int].1)),
                    messages_of(messages@) == start + tail.take(j as int),
                decreases found@.len() - j,
            {
                let e = &found[j];
                let p = PublishPacket {
                    topic: e.topic.clone(),
                    payload: e.payload.clone(),
                    dup: false,
                    qos: e.qos.lower(granted[i].1),
                    retain: true,
                    packet_id: None,
                    properties: Properties::default(),
                };
                proof {
                    assert(list[j as int] == e@);
                    assert(p@ =~= tail[j as int]);
                }
                let ghost was = messages@;
                messages.push(p);
                proof {
                    assert(messages_of(messages@) =~= messages_of(was).push(p@));
                    assert(tail.take(j + 1) =~= tail.take(j as int).push(tail[j as int]));
                    assert(start + tail.take(j + 1) =~= (start + tail.take(j as int)).push(
                        tail[j as int],
                    ));
                }
                j += 1;
            }
            proof {
                lists@ = lists@.push(list);
                assert(tail.take(j as int) =~= tail);
                lemma_replay_prefix(lists_before, lists@, all, i as nat);
                assert(lists@[i as int] == list);
            }
            i += 1;
        }
        (messages, lists)
    }

    /// Unsubscribes a client from filters.
    pub fn unsubscribe(
        &mut self,
        tenant: &Option<TenantId>,
        client_id: &Arc<str>,
        topics: &[Arc<str>],
    )
        ensures
            final(self).hooks() == old(self).hooks(),
            final(self)@ == unsubscribed(
                old(self)@,
                (text::opt_chars(*tenant), (**client_id)@),
                packet::names_of(topics@),
            ),
    {
        let key: ScopedName = (clone_opt(tenant), client_id.clone());
        let ghost k = keyed::key_of(key);
        let ghost m = self@;
        let ghost all = packet::names_of(topics@);
        proof {
            broker::lemma_entries_remove(self.sessions@, k);
        }
        if self.sessions.get(&key).is_none() {
            return;
        }
        let mut i: usize = 0;
        while i < topics.len()
            invariant
                self.hooks() == old(self).hooks(),
                i <= topics@.len(),
                k == keyed::key_of(key),
                k == (text::opt_chars(*tenant), (**client_id)@),
                all == packet::names_of(topics@),
                self@.sessions.contains_key(k),
                self@ == unsubscribe_steps(m, k, all, i as nat),
            decreases topics@.len() - i,
        {
            let name: ScopedName = (clone_opt(tenant), topics[i].clone());
            let ghost before = self@;
            proof {
                broker::lemma_entries_remove(self.sessions@, k);
                assert(all[i as int] == (*topics@[i as int])@);
            }
            match self.sessions.remove(&key) {
                Some(entry) => {
                    let mut entry = entry;
                    let ghost e = entry@;
                    let _old = entry.filters.remove(&name);
                    proof {
                        assert(e == before.sessions[k]);
                        broker::lemma_entries_insert(self.sessions@, k, entry);
                    }
                    let _none = self.sessions.insert(clone_key(&key), entry);
                    proof {
                        assert(self@.sessions =~= before.sessions.insert(
                            k,
                            broker::EntryModel {
                                filters: e.filters.remove((k.0, all[i as int])),
                                ..e
                            },
                        ));
                    }
                },
                None => {},
            }
            self.subscriptions.unsubscribe(tenant, client_id, &topics[i]);
            assert(self@ =~= unsubscribe_steps(m, k, all, (i + 1) as nat));
            i += 1;
        }
    }

    /// Settles the acknowledgement of a message by a subscriber.
    pub fn ack_outbound(
        &mut self,
        tenant: &Option<TenantId>,
        client_id: &Arc<str>,
        packet_id: PacketId,
    )
        ensures
            final(self).hooks() == old(self).hooks(),
            final(self)@ == acknowledged(
                old(self)@,
                (text::opt_chars(*tenant), (**client_id)@),
                packet_id,
            ),
    {
        let key: ScopedName = (clone_opt(tenant), client_id.clone());
        proof {
            broker::lemma_entries_remove(self.sessions@, keyed::key_of(key));
        }
        match self.sessions.get(&key) {
            Some(e) => {
                let id: u64 = e.channel;
                match self.channels.remove(id) {
                    Some(channel) => {
                        let mut channel = channel;
                        let _waiter = channel.session.discharge_outbound_puback(packet_id);
                        self.channels.insert(id, channel);
                    },
                    None => {},
                }
                assert(self@ =~= acknowledged(
                    old(self)@,
                    (text::opt_chars(*tenant), (**client_id)@),
                    packet_id,
                ));
            },
            None => {},
        }
    }
}

/// Messages as texts and bytes.
pub open spec fn messages_of(v: Seq<PublishPacket>) -> Seq<packet::PublishModel> {
    Seq::new(v.len(), |i: int| v[i]@)
}

/// Lists behind the first `n` do not matter to the messages for the first `n`.
proof fn lemma_replay_prefix(
    a: Seq<Seq<(Seq<char>, traits::Kept)>>,
    b: Seq<Seq<(Seq<char>, traits::Kept)>>,
    granted: Seq<(Seq<char>, QoS)>,
    n: nat,
)
    requires
        n <= a.len() <= b.len(),
        forall|i: int| 0 <= i < n ==> a[i] == b[i],
    ensures
        replay_messages(a, granted, n) == replay_messages(b, granted, n),
    decreases n,
{
    if n > 0 {
        lemma_replay_prefix(a, b, granted, (n - 1) as nat);
    }
}

/// Offers messages one by one, up to the first one that closes the connection.
fn offer_all(
    channel: &mut MqttChannel,
    messages: Vec<PublishPacket>,
    max_inflight: usize,
    policy: SlowConsumerPolicy,
)
    ensures
        final(channel)@ == offered_all(
            old(channel)@,
            messages_of(messages@),
            max_inflight,
            policy,
        ),
{
    let ghost all = messages_of(messages@);
    let mut i: usize = 0;
    assert(all.skip(0) =~= all);
    while i < messages.len()
        invariant
            i <= messages@.len(),
            all == messages_of(messages@),
            offered_all(old(channel)@, all, max_inflight, policy) == offered_all(
                channel@,
                all.skip(i as int),
                max_inflight,
                policy,
            ),
        decreases messages@.len() - i,
    {
        proof {
            assert(all.skip(i as int)[0] == all[i as int]);
            assert(all.skip(i as int).drop_first() =~= all.skip(i + 1));
        }
        if offer(channel, messages[i].clone(), max_inflight, policy) {
            return;
        }
        i += 1;
    }
}

} // verus!
