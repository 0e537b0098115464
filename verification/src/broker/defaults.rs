//! The hooks and stores that a broker starts with.
//!
//! The hooks that accept or allow everything are for development. The stores are
//! in memory and do not outlive the process.
use crate::broker::traits;
use crate::broker::traits::{
    AclChecker, AclDecision, AuthResult, Authenticator, RetainedEntry, RetainedStore, SessionStore,
    TenantId, TenantResolver,
};
use crate::buffer;
use crate::buffer::bytes_slice;
use crate::channel::SocketAddress;
use crate::keyed;
use crate::keyed::{KeyedStore, ScopedName};
use crate::packet::{ConnackReturnCode, ConnectPacket};
use crate::request::QoS;
use crate::session;
use crate::session::MqttSession;
use crate::text;
use crate::text::{cloned_opt, shared, split_ascii};
use crate::topic;
use crate::topic::{filter_matches, is_dollar_prefixed_first_segment};
use bytes::Bytes;
use std::sync::Arc;
use vstd::prelude::*;

verus! {

/// Accepts every client. Not for production.
pub struct AcceptAllAuthenticator;

impl Authenticator for AcceptAllAuthenticator {
    fn authenticate(
        &self,
        _tenant: Option<&TenantId>,
        _connect: &ConnectPacket,
        _remote_addr: Option<SocketAddress>,
    ) -> (r: AuthResult)
        ensures
            r == (AuthResult { accepted: true, return_code: ConnackReturnCode::Accepted }),
    {
        AuthResult::accept()
    }
}

/// Refuses every client. A broker starts with this one, so that a broker for
/// which none was chosen lets nobody in.
pub struct DenyAllAuthenticator;

impl Authenticator for DenyAllAuthenticator {
    fn authenticate(
        &self,
        _tenant: Option<&TenantId>,
        _connect: &ConnectPacket,
        _remote_addr: Option<SocketAddress>,
    ) -> (r: AuthResult)
        ensures
            r == (AuthResult { accepted: false, return_code: ConnackReturnCode::NotAuthorized }),
    {
        AuthResult::reject(ConnackReturnCode::NotAuthorized)
    }
}

/// Allows every subscription and every message. Not for production.
pub struct AllowAllAclChecker;

impl AclChecker for AllowAllAclChecker {
    fn check_subscribe(
        &self,
        _tenant: Option<&TenantId>,
        _client_id: &Arc<str>,
        _username: Option<&Arc<str>>,
        _filter: &str,
    ) -> (r: AclDecision)
        ensures
            r == AclDecision::Allow,
    {
        AclDecision::Allow
    }

    fn check_publish(
        &self,
        _tenant: Option<&TenantId>,
        _client_id: &Arc<str>,
        _username: Option<&Arc<str>>,
        _topic: &str,
    ) -> (r: AclDecision)
        ensures
            r == AclDecision::Allow,
    {
        AclDecision::Allow
    }
}

/// Puts every client in the one tenant without a name.
pub struct SingleTenantResolver;

impl TenantResolver for SingleTenantResolver {
    fn resolve(
        &self,
        _connect: &ConnectPacket,
        _remote_addr: Option<SocketAddress>,
    ) -> (r: Option<TenantId>)
        ensures
            r is None,
    {
        None
    }
}

/// Whether a client may not publish to this topic: it starts with `$`.
pub fn is_dollar_topic(topic: &str) -> (r: bool)
    ensures
        r == topic::is_dollar(topic@),
{
    is_dollar_prefixed_first_segment(topic)
}

// ----------------------------------------------------------------------------
// Retained messages
// ----------------------------------------------------------------------------

/// The payload bytes of all messages of a finite map.
pub open spec fn payload_bytes(m: traits::RetainedModel) -> nat
    decreases m.dom().len(),
{
    if !m.dom().finite() || m.dom().is_empty() {
        0
    } else {
        let k = m.dom().choose();
        m[k].payload.len() + payload_bytes(m.remove(k))
    }
}

/// Any one message can be counted first.
proof fn lemma_payload_bytes(m: traits::RetainedModel, k: keyed::KeyModel)
    requires
        m.dom().finite(),
        m.contains_key(k),
    ensures
        payload_bytes(m) == m[k].payload.len() + payload_bytes(m.remove(k)),
    decreases m.dom().len(),
{
    let c = m.dom().choose();
    assert(m.dom().contains(c));
    if c != k {
        lemma_payload_bytes(m.remove(c), k);
        lemma_payload_bytes(m.remove(k), c);
        assert(m.remove(c).remove(k) =~= m.remove(k).remove(c));
    }
}

/// The messages of one tenant.
pub open spec fn tenant_part(m: traits::RetainedModel, tenant: Option<Seq<char>>) -> traits::RetainedModel {
    m.restrict(keyed::scoped_keys(m, tenant))
}

/// The number of values that a counter has.
pub open spec fn counter_size() -> int {
    usize::MAX + 1
}

struct RetainedRecord {
    payload: Bytes,
    qos: QoS,
}

impl View for RetainedRecord {
    type V = traits::Kept;

    closed spec fn view(&self) -> traits::Kept {
        traits::Kept { payload: buffer::bytes_of(self.payload), qos: self.qos }
    }
}

spec fn records(m: Map<keyed::KeyModel, RetainedRecord>) -> traits::RetainedModel {
    m.map_values(|r: RetainedRecord| r@)
}

/// The messages of one tenant, and a running count of their payload bytes.
struct TenantBucket {
    tenant: Option<TenantId>,
    entries: KeyedStore<RetainedRecord>,
    bytes: usize,
}

impl TenantBucket {
    #[verifier::type_invariant]
    spec fn accounted(&self) -> bool {
        &&& self.entries@.dom().finite()
        &&& forall|k: keyed::KeyModel| #[trigger]
            self.entries@.contains_key(k) ==> k.0 == text::opt_chars(self.tenant)
        &&& self.bytes == payload_bytes(records(self.entries@)) as int % counter_size()
    }

    fn new(tenant: Option<TenantId>) -> (r: TenantBucket)
        ensures
            r.tenant == tenant,
            r.entries@ == Map::<keyed::KeyModel, RetainedRecord>::empty(),
    {
        let entries = KeyedStore::new();
        proof {
            assert(records(entries@).dom() =~= Set::<keyed::KeyModel>::empty());
            lemma_zero();
        }
        TenantBucket { tenant, entries, bytes: 0 }
    }
}

/// Retained messages in memory, tenant by tenant.
pub struct DefaultRetainedStore {
    tenants: KeyedStore<TenantBucket>,
}

spec fn tenant_key(tenant: Option<Seq<char>>) -> keyed::KeyModel {
    (tenant, Seq::empty())
}

spec fn kept_in(tenants: Map<keyed::KeyModel, TenantBucket>) -> traits::RetainedModel {
    Map::new(
        |k: keyed::KeyModel|
            tenants.contains_key(tenant_key(k.0)) && tenants[tenant_key(k.0)].entries@.contains_key(k),
        |k: keyed::KeyModel| tenants[tenant_key(k.0)].entries@[k]@,
    )
}

spec fn keyed_by_tenant(tenants: Map<keyed::KeyModel, TenantBucket>) -> bool {
    forall|k: keyed::KeyModel| #[trigger]
        tenants.contains_key(k) ==> text::opt_chars(tenants[k].tenant) == k.0
}

/// The part of a tenant is what its bucket holds.
proof fn lemma_part(tenants: Map<keyed::KeyModel, TenantBucket>, tenant: Option<Seq<char>>)
    ensures
        !tenants.contains_key(tenant_key(tenant)) ==> tenant_part(kept_in(tenants), tenant)
            == Map::<keyed::KeyModel, traits::Kept>::empty(),
        tenants.contains_key(tenant_key(tenant)) && (forall|k: keyed::KeyModel| #[trigger]
            tenants[tenant_key(tenant)].entries@.contains_key(k) ==> k.0 == tenant) ==> tenant_part(
            kept_in(tenants),
            tenant,
        ) == records(tenants[tenant_key(tenant)].entries@),
        tenant_part(kept_in(tenants), tenant).dom() == keyed::scoped_keys(kept_in(tenants), tenant),
{
    let part = tenant_part(kept_in(tenants), tenant);
    assert(part.dom() =~= keyed::scoped_keys(kept_in(tenants), tenant));
    if !tenants.contains_key(tenant_key(tenant)) {
        assert(part =~= Map::<keyed::KeyModel, traits::Kept>::empty());
    } else if forall|k: keyed::KeyModel| #[trigger]
        tenants[tenant_key(tenant)].entries@.contains_key(k) ==> k.0 == tenant {
        assert(part =~= records(tenants[tenant_key(tenant)].entries@));
    }
}

fn empty_name() -> (r: Arc<str>)
    ensures
        (*r)@ == Seq::<char>::empty(),
{
    let s = "";
    proof {
        reveal_strlit("");
        assert(s@ =~= Seq::<char>::empty());
    }
    shared(s)
}

impl DefaultRetainedStore {
    #[verifier::type_invariant]
    spec fn by_tenant(&self) -> bool {
        keyed_by_tenant(self.tenants@)
    }

    pub fn new() -> (r: DefaultRetainedStore)
        ensures
            r.kept() == Map::<keyed::KeyModel, traits::Kept>::empty(),
    {
        let r = DefaultRetainedStore { tenants: KeyedStore::new() };
        assert(r.kept() =~= Map::<keyed::KeyModel, traits::Kept>::empty());
        r
    }

    /// The bucket of a tenant.
    fn try_tenant_map(&self, tenant: Option<&TenantId>) -> (r: Option<&TenantBucket>)
        ensures
            r is Some <==> self.tenants@.contains_key(tenant_key(text::opt_ref_chars(tenant))),
            r matches Some(b) ==> *b == self.tenants@[tenant_key(text::opt_ref_chars(tenant))]
                && text::opt_chars(b.tenant) == text::opt_ref_chars(tenant),
    {
        proof {
            use_type_invariant(self);
        }
        let key: ScopedName = (cloned_opt(tenant), empty_name());
        self.tenants.get(&key)
    }
}

impl Default for DefaultRetainedStore {
    fn default() -> (r: DefaultRetainedStore)
        ensures
            r.kept() == Map::<keyed::KeyModel, traits::Kept>::empty(),
    {
        DefaultRetainedStore::new()
    }
}

/// The payload bytes that are counted for a tenant: all of them, as far as the
/// counter goes.
pub open spec fn counted_bytes(m: traits::RetainedModel, tenant: Option<Seq<char>>) -> usize {
    (payload_bytes(tenant_part(m, tenant)) as int % counter_size()) as usize
}

/// A counter that is moved by the difference of two lengths.
fn moved(bytes: usize, old_len: usize, new_len: usize, Ghost(rest): Ghost<nat>) -> (r: usize)
    requires
        bytes == (old_len + rest) % counter_size(),
    ensures
        r == (new_len + rest) % counter_size(),
{
    let m = Ghost(counter_size());
    if new_len >= old_len {
        let d: usize = new_len - old_len;
        let r: usize = bytes.wrapping_add(d);
        proof {
            let q = (old_len + rest) / m@;
            assert(old_len + rest == m@ * q + bytes) by (nonlinear_arith)
                requires
                    m@ > 0,
                    q == (old_len + rest) / m@,
                    bytes == (old_len + rest) % m@,
            ;
            if bytes + d < m@ {
                assert(r == bytes + d);
                lemma_remainder(new_len + rest, q, bytes + d);
            } else {
                assert(r == bytes + d - m@);
                assert(new_len + rest == m@ * (q + 1) + r) by (nonlinear_arith)
                    requires
                        old_len + rest == m@ * q + bytes,
                        r == bytes + d - m@,
                        d == new_len - old_len,
                ;
                lemma_remainder(new_len + rest, q + 1, r as int);
            }
        }
        r
    } else {
        let d: usize = old_len - new_len;
        let r: usize = bytes.wrapping_sub(d);
        proof {
            let q = (old_len + rest) / m@;
            assert(old_len + rest == m@ * q + bytes) by (nonlinear_arith)
                requires
                    m@ > 0,
                    q == (old_len + rest) / m@,
                    bytes == (old_len + rest) % m@,
            ;
            if bytes >= d {
                assert(r == bytes - d);
                lemma_remainder(new_len + rest, q, bytes - d);
            } else {
                assert(r == bytes - d + m@);
                assert(new_len + rest == m@ * (q - 1) + r) by (nonlinear_arith)
                    requires
                        old_len + rest == m@ * q + bytes,
                        r == bytes - d + m@,
                        d == old_len - new_len,
                ;
                lemma_remainder(new_len + rest, q - 1, r as int);
            }
        }
        r
    }
}

proof fn lemma_remainder(x: int, q: int, r: int)
    requires
        x == counter_size() * q + r,
        0 <= r < counter_size(),
    ensures
        x % counter_size() == r,
{
    assert(counter_size() * q == q * counter_size()) by (nonlinear_arith);
    vstd::arithmetic::div_mod::lemma_fundamental_div_mod_converse_mod(x, counter_size(), q, r);
}

proof fn lemma_zero()
    ensures
        0int % counter_size() == 0,
{
    assert(counter_size() * 0 == 0) by (nonlinear_arith);
    lemma_remainder(0, 0, 0);
}

impl RetainedStore for DefaultRetainedStore {
    closed spec fn kept(&self) -> traits::RetainedModel {
        kept_in(self.tenants@)
    }

    open spec fn reported(&self, tenant: Option<Seq<char>>) -> usize {
        counted_bytes(self.kept(), tenant)
    }

    fn store(&mut self, tenant: Option<&TenantId>, topic: Arc<str>, payload: Bytes, qos: QoS) {
        proof {
            use_type_invariant(&*self);
        }
        let ghost t = text::opt_ref_chars(tenant);
        let ghost before = self.tenants@;
        let mut taken = DefaultRetainedStore { tenants: KeyedStore::new() };
        std::mem::swap(self, &mut taken);
        let DefaultRetainedStore { mut tenants } = taken;
        let outer: ScopedName = (cloned_opt(tenant), empty_name());
        let inner: ScopedName = (cloned_opt(tenant), topic);
        let ghost k = keyed::key_of(inner);
        assert(keyed::key_of(outer) == tenant_key(t));
        let bucket = match tenants.remove(&outer) {
            Some(b) => b,
            None => TenantBucket::new(cloned_opt(tenant)),
        };
        proof {
            use_type_invariant(&bucket);
        }
        let TenantBucket { tenant: owner, mut entries, bytes } = bucket;
        let ghost had = entries@;
        let new_len: usize = bytes_slice(&payload).len();
        let ghost record = RetainedRecord { payload, qos };
        let old_len: usize = match entries.insert(inner, RetainedRecord { payload, qos }) {
            Some(r) => bytes_slice(&r.payload).len(),
            None => 0,
        };
        proof {
            let rest = records(had).remove(k);
            assert(records(had).dom() =~= had.dom());
            assert(records(entries@) =~= records(had).insert(k, record@));
            assert(records(entries@).remove(k) =~= rest);
            if had.contains_key(k) {
                lemma_payload_bytes(records(had), k);
            } else {
                assert(rest =~= records(had));
            }
            lemma_payload_bytes(records(entries@), k);
        }
        let bytes: usize = moved(bytes, old_len, new_len, Ghost(payload_bytes(records(had).remove(k))));
        let bucket = TenantBucket { tenant: owner, entries, bytes };
        let _none = tenants.insert(outer, bucket);
        proof {
            assert(kept_in(tenants@) =~= kept_in(before).insert(k, record@)) by {
                assert forall|x: keyed::KeyModel|
                    kept_in(tenants@).contains_key(x) <==> kept_in(before).insert(
                        k,
                        record@,
                    ).contains_key(x) by {}
            }
        }
        *self = DefaultRetainedStore { tenants };
    }

    fn remove(&mut self, tenant: Option<&TenantId>, topic: &str) {
        proof {
            use_type_invariant(&*self);
        }
        let ghost t = text::opt_ref_chars(tenant);
        let ghost before = self.tenants@;
        let mut taken = DefaultRetainedStore { tenants: KeyedStore::new() };
        std::mem::swap(self, &mut taken);
        let DefaultRetainedStore { mut tenants } = taken;
        let outer: ScopedName = (cloned_opt(tenant), empty_name());
        let inner: ScopedName = (cloned_opt(tenant), shared(topic));
        let ghost k = keyed::key_of(inner);
        assert(keyed::key_of(outer) == tenant_key(t));
        match tenants.remove(&outer) {
            None => {
                assert(tenants@ =~= before);
                assert(kept_in(before) =~= kept_in(before).remove(k));
            },
            Some(bucket) => {
                proof {
                    use_type_invariant(&bucket);
                }
                let TenantBucket { tenant: owner, mut entries, bytes } = bucket;
                let ghost had = entries@;
                let old_len: usize = match entries.remove(&inner) {
                    Some(r) => bytes_slice(&r.payload).len(),
                    None => 0,
                };
                proof {
                    assert(records(had).dom() =~= had.dom());
                    assert(records(entries@) =~= records(had).remove(k));
                    if had.contains_key(k) {
                        lemma_payload_bytes(records(had), k);
                    } else {
                        assert(records(entries@) =~= records(had));
                    }
                }
                let bytes: usize = moved(bytes, old_len, 0, Ghost(payload_bytes(records(entries@))));
                let bucket = TenantBucket { tenant: owner, entries, bytes };
                let _none = tenants.insert(outer, bucket);
                assert(kept_in(tenants@) =~= kept_in(before).remove(k));
            },
        }
        *self = DefaultRetainedStore { tenants };
    }

    fn matching(&self, tenant: Option<&TenantId>, filter: &str) -> (r: Vec<RetainedEntry>) {
        let ghost t = text::opt_ref_chars(tenant);
        let ghost kept = self.kept();
        let mut out: Vec<RetainedEntry> = Vec::new();
        match self.try_tenant_map(tenant) {
            None => {
                assert forall|name: Seq<char>| !#[trigger] kept.contains_key((t, name)) by {}
            },
            Some(bucket) => {
                proof {
                    use_type_invariant(bucket);
                }
                let entries = bucket.entries.entries();
                let ghost m = bucket.entries@;
                let mut from: Ghost<Seq<int>> = Ghost(Seq::empty());
                let mut i: usize = 0;
                while i < entries.len()
                    invariant
                        i <= entries@.len(),
                        entries@ == bucket.entries.list(),
                        m == bucket.entries@,
                        kept == self.kept(),
                        *bucket == self.tenants@[tenant_key(t)],
                        self.tenants@.contains_key(tenant_key(t)),
                        keyed::distinct_keys(entries@),
                        forall|k: keyed::KeyModel| #[trigger] m.contains_key(k) ==> k.0 == t,
                        from@.len() == out@.len(),
                        forall|a: int, b: int|
                            0 <= a < b < from@.len() ==> #[trigger] from@[a] < #[trigger] from@[b],
                        forall|a: int|
                            #![trigger out@[a]]
                            #![trigger from@[a]]
                            0 <= a < out@.len() ==> {
                                &&& 0 <= from@[a] < i
                                &&& keyed::key_of(entries@[from@[a]].0) == (t, out@[a]@.0)
                                &&& entries@[from@[a]].1@ == out@[a]@.1
                                &&& topic::matches(filter@, out@[a]@.0)
                            },
                        forall|j: int|
                            0 <= j < i && topic::matches(
                                filter@,
                                keyed::key_of((#[trigger] entries@[j]).0).1,
                            ) ==> from@.contains(j),
                    decreases entries@.len() - i,
                {
                    let name = &entries[i].0.1;
                    let segs: Vec<&str> = split_ascii(name, 0x2F);
                    let ghost from_before = from@;
                    let ghost out_before = out@;
                    proof {
                        keyed::lemma_entry(entries@, i as int);
                    }
                    if filter_matches(filter, segs.as_slice()) {
                        out.push(
                            RetainedEntry {
                                topic: name.clone(),
                                payload: entries[i].1.payload.clone(),
                                qos: entries[i].1.qos,
                            },
                        );
                        proof {
                            from@ = from@.push(i as int);
                            assert forall|a: int| 0 <= a < out_before.len() implies #[trigger] from@[a]
                                == from_before[a] && out@[a] == out_before[a] by {}
                            assert(from@[from@.len() - 1] == i);
                            assert forall|j: int| from_before.contains(j) implies from@.contains(
                                j,
                            ) by {
                                let a = choose|a: int|
                                    0 <= a < from_before.len() && from_before[a] == j;
                                assert(from@[a] == j);
                            }
                        }
                    }
                    i += 1;
                }
                proof {
                    let v = traits::entries_of(out@);
                    assert forall|a: int, b: int| 0 <= a < b < v.len() implies (#[trigger] v[a]).0
                        != (#[trigger] v[b]).0 by {
                        assert(from@[a] < from@[b]);
                        assert(keyed::key_of(entries@[from@[a]].0) != keyed::key_of(
                            entries@[from@[b]].0,
                        ));
                    }
                    assert forall|a: int|
                        #![trigger v[a]]
                        0 <= a < v.len() implies kept.contains_key((t, v[a].0)) && kept[(t, v[a].0)]
                        == v[a].1 && topic::matches(filter@, v[a].0) by {
                        assert(0 <= from@[a] < entries@.len());
                        keyed::lemma_entry(entries@, from@[a]);
                    }
                    assert forall|name: Seq<char>| #[trigger]
                        kept.contains_key((t, name)) && topic::matches(
                            filter@,
                            name,
                        ) implies exists|a: int| 0 <= a < v.len() && (#[trigger] v[a]).0 == name by {
                        assert(m.contains_key((t, name)));
                        keyed::lemma_key(entries@, (t, name));
                        let j = keyed::place_of(entries@, (t, name));
                        assert(from@.contains(j));
                        let a = choose|a: int| 0 <= a < from@.len() && from@[a] == j;
                        assert(v[a].0 == name);
                    }
                }
            },
        }
        out
    }

    fn count(&self, tenant: Option<&TenantId>) -> (r: usize) {
        let ghost t = text::opt_ref_chars(tenant);
        proof {
            lemma_part(self.tenants@, t);
        }
        match self.try_tenant_map(tenant) {
            None => {
                assert(keyed::scoped_keys(self.kept(), t) =~= Set::<keyed::KeyModel>::empty());
                0
            },
            Some(b) => {
                proof {
                    use_type_invariant(b);
                    assert(records(b.entries@).dom() =~= b.entries@.dom());
                }
                b.entries.len()
            },
        }
    }

    fn bytes(&self, tenant: Option<&TenantId>) -> (r: usize) {
        let ghost t = text::opt_ref_chars(tenant);
        proof {
            lemma_part(self.tenants@, t);
        }
        match self.try_tenant_map(tenant) {
            None => {
                proof {
                    assert(payload_bytes(Map::<keyed::KeyModel, traits::Kept>::empty()) == 0);
                    lemma_zero();
                }
                0
            },
            Some(b) => {
                proof {
                    use_type_invariant(b);
                }
                b.bytes
            },
        }
    }
}

// ----------------------------------------------------------------------------
// Sessions
// ----------------------------------------------------------------------------

/// Sessions in memory.
pub struct DefaultSessionStore {
    store: KeyedStore<MqttSession>,
}

spec fn sessions_of(m: Map<keyed::KeyModel, MqttSession>) -> traits::SavedModel {
    m.map_values(|s: MqttSession| s@)
}

impl DefaultSessionStore {
    pub fn new() -> (r: DefaultSessionStore)
        ensures
            r.saved() == Map::<keyed::KeyModel, session::SessionModel>::empty(),
    {
        let r = DefaultSessionStore { store: KeyedStore::new() };
        assert(r.saved() =~= Map::<keyed::KeyModel, session::SessionModel>::empty());
        r
    }
}

impl Default for DefaultSessionStore {
    fn default() -> (r: DefaultSessionStore)
        ensures
            r.saved() == Map::<keyed::KeyModel, session::SessionModel>::empty(),
    {
        DefaultSessionStore::new()
    }
}

impl SessionStore for DefaultSessionStore {
    closed spec fn saved(&self) -> traits::SavedModel {
        sessions_of(self.store@)
    }

    open spec fn counted(&self, tenant: Option<Seq<char>>) -> usize {
        keyed::scoped_keys(self.saved(), tenant).len() as usize
    }

    fn load(&mut self, tenant: Option<&TenantId>, client_id: &str) -> (r: Option<MqttSession>) {
        let key: ScopedName = (cloned_opt(tenant), shared(client_id));
        let ghost k = keyed::key_of(key);
        let r = self.store.remove(&key);
        proof {
            assert(sessions_of(self.store@) =~= sessions_of(old(self).store@).remove(k));
            assert(sessions_of(old(self).store@).contains_key(k) <==> old(
                self,
            ).store@.contains_key(k));
        }
        r
    }

    fn save(&mut self, tenant: Option<&TenantId>, client_id: Arc<str>, session: MqttSession) {
        let key: ScopedName = (cloned_opt(tenant), client_id);
        let ghost k = keyed::key_of(key);
        let _r = self.store.insert(key, session);
        assert(sessions_of(self.store@) =~= sessions_of(old(self).store@).insert(k, session@));
    }

    fn destroy(&mut self, tenant: Option<&TenantId>, client_id: &str) {
        let _r = self.load(tenant, client_id);
    }

    fn count(&self, tenant: Option<&TenantId>) -> (r: usize) {
        let scope: Option<Arc<str>> = cloned_opt(tenant);
        proof {
            assert(keyed::scoped_keys(self.saved(), text::opt_ref_chars(tenant)) =~= keyed::scoped_keys(
                self.store@,
                text::opt_ref_chars(tenant),
            ));
        }
        self.store.count_scope(&scope)
    }
}

// ----------------------------------------------------------------------------
// Laws
// ----------------------------------------------------------------------------

/// What a tenant finds depends on what that tenant keeps.
proof fn lemma_lists_retained(
    a: traits::RetainedModel,
    b: traits::RetainedModel,
    tenant: Option<Seq<char>>,
    filter: Seq<char>,
    v: Seq<(Seq<char>, traits::Kept)>,
)
    requires
        forall|name: Seq<char>| #[trigger]
            a.contains_key((tenant, name)) <==> b.contains_key((tenant, name)),
        forall|name: Seq<char>| #[trigger]
            a.contains_key((tenant, name)) ==> a[(tenant, name)] == b[(tenant, name)],
        traits::lists_retained(v, a, tenant, filter),
    ensures
        traits::lists_retained(v, b, tenant, filter),
{
    assert forall|i: int|
        #![trigger v[i]]
        0 <= i < v.len() implies b.contains_key((tenant, v[i].0)) && b[(tenant, v[i].0)] == v[i].1
        && topic::matches(filter, v[i].0) by {
        assert(a.contains_key((tenant, v[i].0)));
    }
    assert forall|name: Seq<char>| #[trigger]
        b.contains_key((tenant, name)) && topic::matches(filter, name) implies exists|i: int|
        0 <= i < v.len() && (#[trigger] v[i]).0 == name by {
        assert(a.contains_key((tenant, name)));
    }
}

/// What one tenant keeps does not show in what another finds.
pub proof fn law_retained_tenants_isolated(
    kept: traits::RetainedModel,
    key: keyed::KeyModel,
    message: traits::Kept,
    other: Option<Seq<char>>,
    filter: Seq<char>,
    v: Seq<(Seq<char>, traits::Kept)>,
)
    requires
        key.0 != other,
    ensures
        traits::lists_retained(v, kept.insert(key, message), other, filter)
            <==> traits::lists_retained(v, kept, other, filter),
        traits::lists_retained(v, kept.remove(key), other, filter) <==> traits::lists_retained(
            v,
            kept,
            other,
            filter,
        ),
        tenant_part(kept.insert(key, message), other) == tenant_part(kept, other),
        tenant_part(kept.remove(key), other) == tenant_part(kept, other),
{
    let a = kept.insert(key, message);
    let b = kept.remove(key);
    if traits::lists_retained(v, a, other, filter) {
        lemma_lists_retained(a, kept, other, filter, v);
    }
    if traits::lists_retained(v, b, other, filter) {
        lemma_lists_retained(b, kept, other, filter, v);
    }
    if traits::lists_retained(v, kept, other, filter) {
        lemma_lists_retained(kept, a, other, filter, v);
        lemma_lists_retained(kept, b, other, filter, v);
    }
    assert(tenant_part(a, other) =~= tenant_part(kept, other));
    assert(tenant_part(b, other) =~= tenant_part(kept, other));
}

/// The bytes of a tenant are the sum of its payload lengths: a message that is
/// kept counts with its own length only, whatever it replaces, and one that is
/// dropped counts no more.
pub proof fn law_retained_bytes(
    kept: traits::RetainedModel,
    key: keyed::KeyModel,
    message: traits::Kept,
)
    requires
        keyed::scoped_keys(kept, key.0).finite(),
    ensures
        payload_bytes(tenant_part(kept.insert(key, message), key.0)) == message.payload.len()
            + payload_bytes(tenant_part(kept.remove(key), key.0)),
        kept.contains_key(key) ==> payload_bytes(tenant_part(kept, key.0))
            == kept[key].payload.len() + payload_bytes(tenant_part(kept.remove(key), key.0)),
        !kept.contains_key(key) ==> payload_bytes(tenant_part(kept, key.0)) == payload_bytes(
            tenant_part(kept.remove(key), key.0),
        ),
{
    let a = tenant_part(kept.insert(key, message), key.0);
    let b = tenant_part(kept, key.0);
    let c = tenant_part(kept.remove(key), key.0);
    assert(b.dom() =~= keyed::scoped_keys(kept, key.0));
    assert(a.dom() =~= b.dom().insert(key));
    assert(a.remove(key) =~= c);
    lemma_payload_bytes(a, key);
    if kept.contains_key(key) {
        assert(b.remove(key) =~= c);
        lemma_payload_bytes(b, key);
    } else {
        assert(b =~= c);
    }
}

/// A call that changes what is kept.
pub enum StoreDeed {
    Store { key: keyed::KeyModel, message: traits::Kept },
    Remove { key: keyed::KeyModel },
}

pub open spec fn deed_tenant(d: StoreDeed) -> Option<Seq<char>> {
    match d {
        StoreDeed::Store { key, .. } => key.0,
        StoreDeed::Remove { key } => key.0,
    }
}

/// What is kept after these calls on a store that kept nothing.
pub open spec fn kept_after(deeds: Seq<StoreDeed>) -> traits::RetainedModel
    decreases deeds.len(),
{
    if deeds.len() == 0 {
        Map::empty()
    } else {
        let before = kept_after(deeds.drop_last());
        match deeds.last() {
            StoreDeed::Store { key, message } => before.insert(key, message),
            StoreDeed::Remove { key } => before.remove(key),
        }
    }
}

/// What was last stored under a key, unless it was removed since.
pub open spec fn last_stored(deeds: Seq<StoreDeed>, key: keyed::KeyModel) -> Option<traits::Kept>
    decreases deeds.len(),
{
    if deeds.len() == 0 {
        None
    } else {
        match deeds.last() {
            StoreDeed::Store { key: k, message } => if k == key {
                Some(message)
            } else {
                last_stored(deeds.drop_last(), key)
            },
            StoreDeed::Remove { key: k } => if k == key {
                None
            } else {
                last_stored(deeds.drop_last(), key)
            },
        }
    }
}

/// Through any calls, each topic of a tenant keeps one message at most: what was last
/// stored there, unless it was removed since.
pub proof fn law_last_stored_is_kept(deeds: Seq<StoreDeed>, key: keyed::KeyModel)
    ensures
        kept_after(deeds).contains_key(key) <==> last_stored(deeds, key) is Some,
        last_stored(deeds, key) matches Some(message) ==> kept_after(deeds)[key] == message,
    decreases deeds.len(),
{
    if deeds.len() > 0 {
        law_last_stored_is_kept(deeds.drop_last(), key);
    }
}

/// The payload length of what is kept under a key, or 0.
pub open spec fn length_under(kept: traits::RetainedModel, key: keyed::KeyModel) -> nat {
    if kept.contains_key(key) {
        kept[key].payload.len()
    } else {
        0
    }
}

/// The bytes of a tenant, counted up and down call by call: what is kept anew comes to
/// them, and what it replaces, or what is removed, goes.
pub open spec fn bytes_after(deeds: Seq<StoreDeed>, tenant: Option<Seq<char>>) -> int
    decreases deeds.len(),
{
    if deeds.len() == 0 {
        0
    } else {
        let front = deeds.drop_last();
        let before = bytes_after(front, tenant);
        match deeds.last() {
            StoreDeed::Store { key, message } => if key.0 == tenant {
                before - length_under(kept_after(front), key) + message.payload.len()
            } else {
                before
            },
            StoreDeed::Remove { key } => if key.0 == tenant {
                before - length_under(kept_after(front), key)
            } else {
                before
            },
        }
    }
}

proof fn lemma_kept_finite(deeds: Seq<StoreDeed>)
    ensures
        kept_after(deeds).dom().finite(),
    decreases deeds.len(),
{
    if deeds.len() > 0 {
        lemma_kept_finite(deeds.drop_last());
    }
}

/// Through any calls, the bytes of a tenant are the sum of the payload lengths of what
/// it keeps: counting each call up and down never drifts away from it, and what the
/// store reports is that sum, for as long as it fits. Calls for other tenants change
/// neither the sum nor the number of messages.
pub proof fn law_retained_bytes_through_calls(deeds: Seq<StoreDeed>, tenant: Option<Seq<char>>)
    ensures
        payload_bytes(tenant_part(kept_after(deeds), tenant)) == bytes_after(deeds, tenant),
        bytes_after(deeds, tenant) <= usize::MAX ==> counted_bytes(kept_after(deeds), tenant)
            == bytes_after(deeds, tenant),
        deeds.len() > 0 && deed_tenant(deeds.last()) != tenant ==> {
            &&& bytes_after(deeds, tenant) == bytes_after(deeds.drop_last(), tenant)
            &&& keyed::scoped_keys(kept_after(deeds), tenant) == keyed::scoped_keys(
                kept_after(deeds.drop_last()),
                tenant,
            )
        },
    decreases deeds.len(),
{
    if deeds.len() == 0 {
        assert(tenant_part(kept_after(deeds), tenant) =~= Map::<
            keyed::KeyModel,
            traits::Kept,
        >::empty());
    } else {
        let front = deeds.drop_last();
        let before = kept_after(front);
        law_retained_bytes_through_calls(front, tenant);
        lemma_kept_finite(front);
        let (key, message) = match deeds.last() {
            StoreDeed::Store { key, message } => (key, message),
            StoreDeed::Remove { key } => (key, traits::Kept {
                payload: Seq::empty(),
                qos: QoS::AtMostOnce,
            }),
        };
        assert(keyed::scoped_keys(before, key.0).subset_of(before.dom()));
        vstd::set_lib::lemma_set_subset_finite(before.dom(), keyed::scoped_keys(before, key.0));
        law_retained_bytes(before, key, message);
        if key.0 != tenant {
            assert(tenant_part(kept_after(deeds), tenant) =~= tenant_part(before, tenant));
            assert(keyed::scoped_keys(kept_after(deeds), tenant) =~= keyed::scoped_keys(
                before,
                tenant,
            ));
        }
    }
    let sum = bytes_after(deeds, tenant);
    if sum <= usize::MAX {
        vstd::arithmetic::div_mod::lemma_small_mod(sum as nat, counter_size() as nat);
    }
}

/// A message that was kept is found, and what a removed topic had is not.
pub proof fn law_retained_round_trip(
    kept: traits::RetainedModel,
    tenant: Option<Seq<char>>,
    name: Seq<char>,
    message: traits::Kept,
    v: Seq<(Seq<char>, traits::Kept)>,
    w: Seq<(Seq<char>, traits::Kept)>,
)
    requires
        !topic::has_wildcard(name),
        traits::lists_retained(v, kept.insert((tenant, name), message), tenant, name),
        traits::lists_retained(w, kept.remove((tenant, name)), tenant, name),
    ensures
        v == seq![(name, message)],
        w.len() == 0,
{
    topic::law_literal_filter(name, name);
    let a = kept.insert((tenant, name), message);
    assert(a.contains_key((tenant, name)));
    let i = choose|i: int| 0 <= i < v.len() && (#[trigger] v[i]).0 == name;
    assert forall|j: int| 0 <= j < v.len() implies (#[trigger] v[j]).0 == name by {
        topic::law_literal_filter(name, v[j].0);
    }
    assert(v.len() == 1) by {
        if v.len() > 1 {
            assert(v[0].0 != v[1].0);
        }
    }
    assert(v =~= seq![(name, message)]);
    if w.len() > 0 {
        topic::law_literal_filter(name, w[0].0);
        assert(!kept.remove((tenant, name)).contains_key((tenant, w[0].0)));
    }
}

} // verus!
