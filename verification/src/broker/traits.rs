//! The policy hooks of the broker.
//!
//! A deployment supplies its own authenticator, access rules and tenant
//! directory. The broker's own functions take what a hook decided as an
//! argument, so that they hold whatever the hook is; a hook may be asked by
//! whoever drives the broker, or by the functions here that take one.
use crate::auth::value;
use crate::auth::value::empty_document;
use crate::buffer;
use crate::channel::SocketAddress;
use crate::error::MqttError;
use crate::keyed;
use crate::packet::{ConnackReturnCode, ConnectPacket};
use crate::request::{IncomingPublish, QoS, SubackCode};
use crate::session;
use crate::session::MqttSession;
use crate::text;
use crate::topic;
use bytes::Bytes;
use hotaru_core::Value;
use std::sync::Arc;
use vstd::prelude::*;

verus! {

/// A tenant. None where there is only one.
pub type TenantId = Arc<str>;

/// The outcome of an authentication.
#[derive(Debug, Clone, Copy, PartialEq, Eq, Structural)]
pub struct AuthResult {
    pub accepted: bool,
    pub return_code: ConnackReturnCode,
}

impl AuthResult {
    pub fn accept() -> (r: AuthResult)
        ensures
            r == (AuthResult { accepted: true, return_code: ConnackReturnCode::Accepted }),
    {
        AuthResult { accepted: true, return_code: ConnackReturnCode::Accepted }
    }

    pub fn reject(code: ConnackReturnCode) -> (r: AuthResult)
        ensures
            r == (AuthResult { accepted: false, return_code: code }),
    {
        AuthResult { accepted: false, return_code: code }
    }
}

/// The outcome of an access check.
#[derive(Debug, Clone, Copy, PartialEq, Eq, Structural)]
pub enum AclDecision {
    Allow,
    Deny,
}

/// Decides whether a client may connect. `remote_addr` is where the client connects
/// from, as far as that is known.
pub trait Authenticator {
    fn authenticate(
        &self,
        tenant: Option<&TenantId>,
        connect: &ConnectPacket,
        remote_addr: Option<SocketAddress>,
    ) -> AuthResult;
}

/// Decides whether a client may subscribe or publish.
pub trait AclChecker {
    fn check_subscribe(
        &self,
        tenant: Option<&TenantId>,
        client_id: &Arc<str>,
        username: Option<&Arc<str>>,
        filter: &str,
    ) -> AclDecision;

    fn check_publish(
        &self,
        tenant: Option<&TenantId>,
        client_id: &Arc<str>,
        username: Option<&Arc<str>>,
        topic: &str,
    ) -> AclDecision;
}

/// Whether the access rules can answer this to a client that wants to publish to a
/// topic.
pub open spec fn says_publish<C: AclChecker>(
    acl: C,
    tenant: Option<Seq<char>>,
    client: Seq<char>,
    username: Option<Seq<char>>,
    topic: Seq<char>,
    d: AclDecision,
) -> bool {
    exists|t: Option<&TenantId>, c: &Arc<str>, u: Option<&Arc<str>>, name: &str|
        {
            &&& #[trigger] call_ensures(C::check_publish, (&acl, t, c, u, name), d)
            &&& text::opt_ref_chars(t) == tenant
            &&& (**c)@ == client
            &&& text::opt_ref_chars(u) == username
            &&& name@ == topic
        }
}

/// Whether the access rules can answer this to a client that wants to subscribe to a
/// filter.
pub open spec fn says_subscribe<C: AclChecker>(
    acl: C,
    tenant: Option<Seq<char>>,
    client: Seq<char>,
    username: Option<Seq<char>>,
    filter: Seq<char>,
    d: AclDecision,
) -> bool {
    exists|t: Option<&TenantId>, c: &Arc<str>, u: Option<&Arc<str>>, name: &str|
        {
            &&& #[trigger] call_ensures(C::check_subscribe, (&acl, t, c, u, name), d)
            &&& text::opt_ref_chars(t) == tenant
            &&& (**c)@ == client
            &&& text::opt_ref_chars(u) == username
            &&& name@ == filter
        }
}

/// Decides which tenant a client belongs to. `remote_addr` is where the client
/// connects from, as far as that is known.
pub trait TenantResolver {
    fn resolve(
        &self,
        connect: &ConnectPacket,
        remote_addr: Option<SocketAddress>,
    ) -> Option<TenantId>;
}

/// A retained message.
#[derive(Debug)]
pub struct RetainedEntry {
    pub topic: Arc<str>,
    pub payload: Bytes,
    pub qos: QoS,
}

/// What is kept under a topic.
#[verifier::ext_equal]
pub struct Kept {
    pub payload: Seq<u8>,
    pub qos: QoS,
}

impl View for RetainedEntry {
    type V = (Seq<char>, Kept);

    open spec fn view(&self) -> (Seq<char>, Kept) {
        ((*self.topic)@, Kept { payload: buffer::bytes_of(self.payload), qos: self.qos })
    }
}

/// Retained messages by tenant and topic.
pub type RetainedModel = Map<keyed::KeyModel, Kept>;

pub open spec fn entries_of(v: Seq<RetainedEntry>) -> Seq<(Seq<char>, Kept)> {
    Seq::new(v.len(), |i: int| v[i]@)
}

/// Whether a list holds, once each and in some order, the messages of a tenant
/// whose topics a filter matches.
pub open spec fn lists_retained(
    v: Seq<(Seq<char>, Kept)>,
    kept: RetainedModel,
    tenant: Option<Seq<char>>,
    filter: Seq<char>,
) -> bool {
    &&& forall|i: int, j: int| 0 <= i < j < v.len() ==> (#[trigger] v[i]).0 != (#[trigger] v[j]).0
    &&& forall|i: int|
        #![trigger v[i]]
        0 <= i < v.len() ==> kept.contains_key((tenant, v[i].0)) && kept[(tenant, v[i].0)] == v[i].1
            && topic::matches(filter, v[i].0)
    &&& forall|name: Seq<char>| #[trigger]
        kept.contains_key((tenant, name)) && topic::matches(filter, name) ==> exists|i: int|
            0 <= i < v.len() && (#[trigger] v[i]).0 == name
}

/// A store of retained messages.
///
/// A filter whose first level is a wildcard finds no topic that starts with `$`.
pub trait RetainedStore: Sized {
    /// The messages that are kept.
    spec fn kept(&self) -> RetainedModel;

    /// The payload bytes that the store reports for a tenant. A store that does
    /// not count them reports 0.
    spec fn reported(&self, tenant: Option<Seq<char>>) -> usize;

    /// Keeps a message, in place of the one that its topic has.
    fn store(&mut self, tenant: Option<&TenantId>, topic: Arc<str>, payload: Bytes, qos: QoS)
        ensures
            final(self).kept() == old(self).kept().insert(
                (text::opt_ref_chars(tenant), (*topic)@),
                (Kept { payload: buffer::bytes_of(payload), qos }),
            ),
    ;

    /// Drops the message of a topic.
    fn remove(&mut self, tenant: Option<&TenantId>, topic: &str)
        ensures
            final(self).kept() == old(self).kept().remove((text::opt_ref_chars(tenant), topic@)),
    ;

    /// The messages of a tenant whose topics the filter matches.
    fn matching(&self, tenant: Option<&TenantId>, filter: &str) -> (r: Vec<RetainedEntry>)
        ensures
            lists_retained(entries_of(r@), self.kept(), text::opt_ref_chars(tenant), filter@),
    ;

    /// The number of messages of a tenant.
    fn count(&self, tenant: Option<&TenantId>) -> (r: usize)
        ensures
            r == keyed::scoped_keys(self.kept(), text::opt_ref_chars(tenant)).len(),
    ;

    /// The number of payload bytes of a tenant.
    fn bytes(&self, tenant: Option<&TenantId>) -> (r: usize)
        ensures
            r == self.reported(text::opt_ref_chars(tenant)),
    ;

    /// What the store holds of a tenant, as a document. An empty one where a store
    /// does not say otherwise.
    fn snapshot(&self, tenant: Option<&TenantId>) -> (r: Value)
        default_ensures
            value::dict_of(r) == Some(Map::<Seq<char>, Value>::empty()),
    {
        empty_document()
    }

    /// Takes up what a document holds of a tenant. A store that does not say
    /// otherwise takes up nothing.
    fn restore(&mut self, tenant: Option<&TenantId>, snapshot: Value) -> (r: Result<(), MqttError>)
        default_ensures
            r is Ok,
            *final(self) == *old(self),
    {
        Ok(())
    }
}

/// Sessions that outlive their connection, by tenant and client.
pub type SavedModel = Map<keyed::KeyModel, session::SessionModel>;

/// A store of sessions that outlive their connection.
pub trait SessionStore: Sized {
    /// The sessions that are stored.
    spec fn saved(&self) -> SavedModel;

    /// The number of sessions that the store reports for a tenant. A store that
    /// does not count them reports 0.
    spec fn counted(&self, tenant: Option<Seq<char>>) -> usize;

    /// Takes a session out.
    fn load(&mut self, tenant: Option<&TenantId>, client_id: &str) -> (r: Option<MqttSession>)
        ensures
            final(self).saved() == old(self).saved().remove((text::opt_ref_chars(tenant), client_id@)),
            r is Some <==> old(self).saved().contains_key((text::opt_ref_chars(tenant), client_id@)),
            r matches Some(s) ==> s@ == old(self).saved()[(text::opt_ref_chars(tenant), client_id@)],
    ;

    /// Stores a session, in place of the one that its client has.
    fn save(&mut self, tenant: Option<&TenantId>, client_id: Arc<str>, session: MqttSession)
        ensures
            final(self).saved() == old(self).saved().insert(
                (text::opt_ref_chars(tenant), (*client_id)@),
                session@,
            ),
    ;

    /// Drops a session.
    fn destroy(&mut self, tenant: Option<&TenantId>, client_id: &str)
        ensures
            final(self).saved() == old(self).saved().remove((text::opt_ref_chars(tenant), client_id@)),
    ;

    /// The number of sessions of a tenant.
    fn count(&self, tenant: Option<&TenantId>) -> (r: usize)
        ensures
            r == self.counted(text::opt_ref_chars(tenant)),
    ;

    /// What the store holds of a tenant, as a document. An empty one where a store
    /// does not say otherwise.
    fn snapshot(&self, tenant: Option<&TenantId>) -> (r: Value)
        default_ensures
            value::dict_of(r) == Some(Map::<Seq<char>, Value>::empty()),
    {
        empty_document()
    }

    /// Takes up what a document holds of a tenant. A store that does not say
    /// otherwise takes up nothing.
    fn restore(&mut self, tenant: Option<&TenantId>, snapshot: Value) -> (r: Result<(), MqttError>)
        default_ensures
            r is Ok,
            *final(self) == *old(self),
    {
        Ok(())
    }
}

/// A message as it is shown to whoever handles it.
pub type IncomingPublishView = IncomingPublish;

/// The answer to one filter of a SUBSCRIBE.
pub type Suback = SubackCode;

} // verus!
