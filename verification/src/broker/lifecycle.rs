//! Making a broker, admitting connections to it and shutting it down.
use crate::broker::broker;
use crate::broker::broker::{Broker, SubscriberEntry};
use crate::broker::defaults::{
    AcceptAllAuthenticator, AllowAllAclChecker, DefaultRetainedStore, DefaultSessionStore,
    DenyAllAuthenticator, SingleTenantResolver,
};
use crate::broker::delivery;
use crate::broker::delivery::ChannelTable;
use crate::broker::safety::BrokerSafety;
use crate::broker::traits::{
    AclChecker, AuthResult, Authenticator, RetainedStore, SessionStore, TenantId, TenantResolver,
};
use crate::broker::tree::SubscriptionTree;
use crate::channel;
use crate::channel::SocketAddress;
use crate::keyed;
use crate::keyed::KeyedStore;
use crate::packet::ConnectPacket;
use crate::safety::MqttSafety;
use vstd::prelude::*;

verus! {

fn build<A, C, T, R: RetainedStore, S: SessionStore>(
    authenticator: A,
    acl_checker: C,
    tenant_resolver: T,
    retained_store: R,
    session_store: S,
) -> (r: Broker<A, C, T, R, S>)
    ensures
        r.authenticator == authenticator,
        r.acl_checker == acl_checker,
        r.tenant_resolver == tenant_resolver,
        r@ == (broker::BrokerModel {
            retained: retained_store.kept(),
            saved: session_store.saved(),
            ..broker::fresh_broker()
        }),
{
    let r = Broker {
        authenticator,
        acl_checker,
        tenant_resolver,
        sessions: KeyedStore::new(),
        channels: ChannelTable::new(),
        subscriptions: SubscriptionTree::new(),
        retained_store,
        session_store,
        sys_initialized: false,
        safety: MqttSafety::new(),
        broker_safety: BrokerSafety::new(),
        active_connections: 0,
        next_connection_id: 0,
    };
    assert(broker::entries_of(r.sessions@) =~= Map::<keyed::KeyModel, broker::EntryModel>::empty());
    assert(r@ =~= (broker::BrokerModel {
        retained: retained_store.kept(),
        saved: session_store.saved(),
        ..broker::fresh_broker()
    }));
    r
}

/// A broker with the hooks that it starts with: nobody is let in until an
/// authenticator is chosen.
pub type SecureBroker = Broker<
    DenyAllAuthenticator,
    AllowAllAclChecker,
    SingleTenantResolver,
    DefaultRetainedStore,
    DefaultSessionStore,
>;

/// A broker that lets everybody in.
pub type OpenBroker = Broker<
    AcceptAllAuthenticator,
    AllowAllAclChecker,
    SingleTenantResolver,
    DefaultRetainedStore,
    DefaultSessionStore,
>;

impl SecureBroker {
    /// A broker that refuses every client until an authenticator is chosen.
    pub fn new() -> (r: SecureBroker)
        ensures
            r@ == broker::fresh_broker(),
    {
        let r = build(
            DenyAllAuthenticator,
            AllowAllAclChecker,
            SingleTenantResolver,
            DefaultRetainedStore::new(),
            DefaultSessionStore::new(),
        );
        assert(r@ =~= broker::fresh_broker());
        r
    }
}

impl Default for SecureBroker {
    fn default() -> (r: SecureBroker)
        ensures
            r@ == broker::fresh_broker(),
    {
        SecureBroker::new()
    }
}

impl OpenBroker {
    /// A broker that accepts every client and allows everything. Not for a network
    /// that others can reach.
    pub fn insecure() -> (r: OpenBroker)
        ensures
            r@ == broker::fresh_broker(),
    {
        let r = build(
            AcceptAllAuthenticator,
            AllowAllAclChecker,
            SingleTenantResolver,
            DefaultRetainedStore::new(),
            DefaultSessionStore::new(),
        );
        assert(r@ =~= broker::fresh_broker());
        r
    }
}

impl<A: Authenticator> Broker<
    A,
    AllowAllAclChecker,
    SingleTenantResolver,
    DefaultRetainedStore,
    DefaultSessionStore,
> {
    /// A broker with this authenticator.
    pub fn with_authenticator(auth: A) -> (r: Broker<
        A,
        AllowAllAclChecker,
        SingleTenantResolver,
        DefaultRetainedStore,
        DefaultSessionStore,
    >)
        ensures
            r.authenticator == auth,
            r@ == broker::fresh_broker(),
    {
        let r = build(
            auth,
            AllowAllAclChecker,
            SingleTenantResolver,
            DefaultRetainedStore::new(),
            DefaultSessionStore::new(),
        );
        assert(r@ =~= broker::fresh_broker());
        r
    }
}

/// The connections of the registered clients closed, and all others as they are.
pub open spec fn all_closed(m: broker::BrokerModel) -> delivery::ChannelsModel {
    m.channels.map_entries(
        |id: u64, c: channel::ChannelModel|
            if registered(m.sessions, id) {
                channel::closed(c)
            } else {
                c
            },
    )
}

/// Whether a client is registered on this connection.
pub open spec fn registered(sessions: broker::EntriesModel, id: u64) -> bool {
    exists|k: keyed::KeyModel| #[trigger] sessions.contains_key(k) && sessions[k].channel == id
}

/// Whether one of the first `n` entries is on this connection.
spec fn listed(list: Seq<(keyed::ScopedName, SubscriberEntry)>, n: int, id: u64) -> bool {
    exists|i: int| 0 <= i < n && (#[trigger] list[i]).1.channel == id
}

spec fn closed_first(
    channels: delivery::ChannelsModel,
    list: Seq<(keyed::ScopedName, SubscriberEntry)>,
    n: int,
) -> delivery::ChannelsModel {
    channels.map_entries(
        |id: u64, c: channel::ChannelModel|
            if listed(list, n, id) {
                channel::closed(c)
            } else {
                c
            },
    )
}

impl<
    A: Authenticator,
    C: AclChecker,
    T: TenantResolver,
    R: RetainedStore,
    S: SessionStore,
> Broker<A, C, T, R, S> {
    pub fn with_safety(self, safety: MqttSafety) -> (r: Broker<A, C, T, R, S>)
        ensures
            r@ == (broker::BrokerModel { safety: safety@, ..self@ }),
            r.authenticator == self.authenticator,
            r.acl_checker == self.acl_checker,
            r.tenant_resolver == self.tenant_resolver,
            r.retained_store == self.retained_store,
            r.session_store == self.session_store,
    {
        let mut b = self;
        b.safety = safety;
        b
    }

    pub fn with_broker_safety(self, broker_safety: BrokerSafety) -> (r: Broker<A, C, T, R, S>)
        ensures
            r@ == (broker::BrokerModel { broker_safety: broker_safety@, ..self@ }),
            r.authenticator == self.authenticator,
            r.acl_checker == self.acl_checker,
            r.tenant_resolver == self.tenant_resolver,
            r.retained_store == self.retained_store,
            r.session_store == self.session_store,
    {
        let mut b = self;
        b.broker_safety = broker_safety;
        b
    }

    pub fn with_acl_checker<D: AclChecker>(self, acl: D) -> (r: Broker<A, D, T, R, S>)
        ensures
            r@ == self@,
            r.authenticator == self.authenticator,
            r.acl_checker == acl,
            r.tenant_resolver == self.tenant_resolver,
            r.retained_store == self.retained_store,
            r.session_store == self.session_store,
    {
        Broker {
            authenticator: self.authenticator,
            acl_checker: acl,
            tenant_resolver: self.tenant_resolver,
            sessions: self.sessions,
            channels: self.channels,
            subscriptions: self.subscriptions,
            retained_store: self.retained_store,
            session_store: self.session_store,
            sys_initialized: self.sys_initialized,
            safety: self.safety,
            broker_safety: self.broker_safety,
            active_connections: self.active_connections,
            next_connection_id: self.next_connection_id,
        }
    }

    pub fn with_tenant_resolver<U: TenantResolver>(self, resolver: U) -> (r: Broker<A, C, U, R, S>)
        ensures
            r@ == self@,
            r.authenticator == self.authenticator,
            r.acl_checker == self.acl_checker,
            r.tenant_resolver == resolver,
            r.retained_store == self.retained_store,
            r.session_store == self.session_store,
    {
        Broker {
            authenticator: self.authenticator,
            acl_checker: self.acl_checker,
            tenant_resolver: resolver,
            sessions: self.sessions,
            channels: self.channels,
            subscriptions: self.subscriptions,
            retained_store: self.retained_store,
            session_store: self.session_store,
            sys_initialized: self.sys_initialized,
            safety: self.safety,
            broker_safety: self.broker_safety,
            active_connections: self.active_connections,
            next_connection_id: self.next_connection_id,
        }
    }

    pub fn with_retained_store<Q: RetainedStore>(self, store: Q) -> (r: Broker<A, C, T, Q, S>)
        ensures
            r@ == (broker::BrokerModel { retained: store.kept(), ..self@ }),
            r.authenticator == self.authenticator,
            r.acl_checker == self.acl_checker,
            r.tenant_resolver == self.tenant_resolver,
            r.retained_store == store,
            r.session_store == self.session_store,
    {
        Broker {
            authenticator: self.authenticator,
            acl_checker: self.acl_checker,
            tenant_resolver: self.tenant_resolver,
            sessions: self.sessions,
            channels: self.channels,
            subscriptions: self.subscriptions,
            retained_store: store,
            session_store: self.session_store,
            sys_initialized: self.sys_initialized,
            safety: self.safety,
            broker_safety: self.broker_safety,
            active_connections: self.active_connections,
            next_connection_id: self.next_connection_id,
        }
    }

    pub fn with_session_store<Q: SessionStore>(self, store: Q) -> (r: Broker<A, C, T, R, Q>)
        ensures
            r@ == (broker::BrokerModel { saved: store.saved(), ..self@ }),
            r.authenticator == self.authenticator,
            r.acl_checker == self.acl_checker,
            r.tenant_resolver == self.tenant_resolver,
            r.retained_store == self.retained_store,
            r.session_store == store,
    {
        Broker {
            authenticator: self.authenticator,
            acl_checker: self.acl_checker,
            tenant_resolver: self.tenant_resolver,
            sessions: self.sessions,
            channels: self.channels,
            subscriptions: self.subscriptions,
            retained_store: self.retained_store,
            session_store: store,
            sys_initialized: self.sys_initialized,
            safety: self.safety,
            broker_safety: self.broker_safety,
            active_connections: self.active_connections,
            next_connection_id: self.next_connection_id,
        }
    }

    pub fn session_store(&self) -> (r: &S)
        ensures
            *r == self.session_store,
    {
        &self.session_store
    }

    pub fn safety(&self) -> (r: &MqttSafety)
        ensures
            r@ == self@.safety,
    {
        &self.safety
    }

    pub fn broker_safety(&self) -> (r: &BrokerSafety)
        ensures
            r@ == self@.broker_safety,
    {
        &self.broker_safety
    }

    /// Which tenant the resolver puts a client in.
    pub fn resolve_tenant(
        &self,
        connect: &ConnectPacket,
        remote_addr: Option<SocketAddress>,
    ) -> (r: Option<TenantId>)
        ensures
            call_ensures(T::resolve, (&self.tenant_resolver, connect, remote_addr), r),
    {
        self.tenant_resolver.resolve(connect, remote_addr)
    }

    /// What the authenticator says to a client.
    pub fn authenticate(
        &self,
        tenant: Option<&TenantId>,
        connect: &ConnectPacket,
        remote_addr: Option<SocketAddress>,
    ) -> (r: AuthResult)
        ensures
            call_ensures(A::authenticate, (&self.authenticator, tenant, connect, remote_addr), r),
    {
        self.authenticator.authenticate(tenant, connect, remote_addr)
    }

    /// Takes a connection on, unless there are as many as may be.
    pub fn try_admit_connection(&mut self) -> (r: bool)
        ensures
            final(self).hooks() == old(self).hooks(),
            r == (old(self)@.active_connections < broker::connection_cap(old(self)@)),
            r ==> final(self)@ == (broker::BrokerModel {
                active_connections: (old(self)@.active_connections + 1) as usize,
                ..old(self)@
            }),
            !r ==> final(self)@ == old(self)@,
            old(self)@.active_connections <= broker::connection_cap(old(self)@)
                ==> final(self)@.active_connections <= broker::connection_cap(old(self)@),
            final(self).session_store == old(self).session_store,
            final(self).retained_store == old(self).retained_store,
    {
        if self.active_connections >= self.broker_safety.max_connections() {
            false
        } else {
            self.active_connections = self.active_connections + 1;
            true
        }
    }

    /// Lets a connection go that was taken on.
    pub fn release_connection(&mut self)
        requires
            old(self)@.active_connections > 0,
        ensures
            final(self).hooks() == old(self).hooks(),
            final(self)@ == (broker::BrokerModel {
                active_connections: (old(self)@.active_connections - 1) as usize,
                ..old(self)@
            }),
    {
        self.active_connections = self.active_connections - 1;
    }

    pub fn active_connection_count(&self) -> (r: usize)
        ensures
            r == self@.active_connections,
    {
        self.active_connections
    }

    /// Begins a shutdown: the connections of all registered clients are closed.
    /// Returns how many connections there are.
    pub fn begin_shutdown(&mut self) -> (r: usize)
        ensures
            final(self).hooks() == old(self).hooks(),
            r == old(self)@.active_connections,
            final(self)@ == (broker::BrokerModel { channels: all_closed(old(self)@), ..old(self)@ }),
    {
        let ghost m = self@;
        let entries = self.sessions.entries();
        let ghost list = entries@;
        let mut i: usize = 0;
        assert(closed_first(m.channels, list, 0) =~= m.channels);
        while i < entries.len()
            invariant
                i <= entries@.len(),
                list == entries@,
                self.hooks() == old(self).hooks(),
                self@ == (broker::BrokerModel { channels: self.channels@, ..m }),
                self.channels@ == closed_first(m.channels, list, i as int),
            decreases entries@.len() - i,
        {
            let id: u64 = entries[i].1.channel;
            let ghost before = self.channels@;
            proof {
                assert forall|x: u64|
                    #[trigger] listed(list, i + 1, x) <==> listed(list, i as int, x) || x == id by {
                    if listed(list, i + 1, x) {
                        let j = choose|j: int| 0 <= j < i + 1 && (#[trigger] list[j]).1.channel == x;
                        if j < i {
                            assert(listed(list, i as int, x));
                        }
                    }
                    if listed(list, i as int, x) {
                        let j = choose|j: int| 0 <= j < i && (#[trigger] list[j]).1.channel == x;
                        assert(0 <= j < i + 1);
                    }
                    if x == id {
                        assert(list[i as int].1.channel == x);
                    }
                }
            }
            match self.channels.remove(id) {
                Some(channel) => {
                    let mut channel = channel;
                    let _waiters = channel.close();
                    self.channels.insert(id, channel);
                    proof {
                        channel::law_close_idempotent(m.channels[id]);
                        assert(self.channels@ =~= before.insert(id, channel@));
                    }
                },
                None => {
                    assert(self.channels@ =~= before);
                },
            }
            assert(self.channels@ =~= closed_first(m.channels, list, i + 1));
            i += 1;
        }
        proof {
            assert forall|x: u64| registered(m.sessions, x) <==> listed(list, list.len() as int, x) by {
                if registered(m.sessions, x) {
                    let k = choose|k: keyed::KeyModel| #[trigger]
                        m.sessions.contains_key(k) && m.sessions[k].channel == x;
                    broker::lemma_entries_remove(self.sessions@, k);
                    keyed::lemma_key(list, k);
                    assert(list[keyed::place_of(list, k)].1.channel == x);
                }
                if listed(list, list.len() as int, x) {
                    let j = choose|j: int|
                        0 <= j < list.len() && (#[trigger] list[j]).1.channel == x;
                    keyed::lemma_entry(list, j);
                    broker::lemma_entries_remove(self.sessions@, keyed::key_of(list[j].0));
                    assert(m.sessions.contains_key(keyed::key_of(list[j].0)));
                }
            }
            assert(self.channels@ =~= all_closed(m));
            assert(self@ =~= (broker::BrokerModel { channels: all_closed(m), ..m }));
        }
        self.active_connections
    }
}

/// No connection of a registered client is open once a shutdown began.
pub proof fn law_shutdown_closes_all(m: broker::BrokerModel, key: keyed::KeyModel)
    requires
        m.sessions.contains_key(key),
        m.channels.contains_key(m.sessions[key].channel),
    ensures
        !all_closed(m)[m.sessions[key].channel].open,
{
    assert(registered(m.sessions, m.sessions[key].channel));
}

} // verus!
