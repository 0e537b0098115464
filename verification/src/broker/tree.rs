//! Who is subscribed to what.
use crate::broker::traits::TenantId;
use crate::keyed;
use crate::keyed::{clone_key, KeyedStore, ScopedName};
use crate::request::QoS;
use crate::text;
use crate::text::{clone_opt, opt_str_eq, shared, split_ascii};
use crate::topic;
use crate::topic::filter_matches;
use std::sync::Arc;
use vstd::prelude::*;

verus! {

/// The subscriptions: for each filter of a tenant, the clients of that tenant
/// with the level that each was granted.
pub struct SubscriptionTree {
    subs: KeyedStore<KeyedStore<QoS>>,
}

/// The subscriptions by tenant and filter, and then by tenant and client.
pub type TreeModel = Map<keyed::KeyModel, Map<keyed::KeyModel, QoS>>;

impl View for SubscriptionTree {
    type V = TreeModel;

    closed spec fn view(&self) -> TreeModel {
        buckets(self.subs@)
    }
}

spec fn buckets(m: Map<keyed::KeyModel, KeyedStore<QoS>>) -> TreeModel {
    m.map_values(|b: KeyedStore<QoS>| b@)
}

/// The subscriptions with one more, or with another level.
pub open spec fn with_subscription(
    m: TreeModel,
    filter: keyed::KeyModel,
    client: keyed::KeyModel,
    qos: QoS,
) -> TreeModel {
    let b = if m.contains_key(filter) {
        m[filter]
    } else {
        Map::empty()
    };
    m.insert(filter, b.insert(client, qos))
}

/// The subscriptions without one. A filter without clients goes too.
pub open spec fn without_subscription(
    m: TreeModel,
    filter: keyed::KeyModel,
    client: keyed::KeyModel,
) -> TreeModel {
    if !m.contains_key(filter) {
        m
    } else if m[filter].remove(client).is_empty() {
        m.remove(filter)
    } else {
        m.insert(filter, m[filter].remove(client))
    }
}

/// The subscriptions without those of one client of a tenant. A filter of that
/// tenant without clients goes too.
pub open spec fn without_client(m: TreeModel, tenant: Option<Seq<char>>, client: Seq<char>) -> TreeModel {
    Map::new(
        |k: keyed::KeyModel|
            m.contains_key(k) && (k.0 != tenant || !m[k].remove((tenant, client)).is_empty()),
        |k: keyed::KeyModel|
            if k.0 == tenant {
                m[k].remove((tenant, client))
            } else {
                m[k]
            },
    )
}

/// The filters that one client is subscribed under, with the levels it was granted.
pub open spec fn client_filters(m: TreeModel, client: keyed::KeyModel) -> Map<keyed::KeyModel, QoS> {
    Map::new(
        |k: keyed::KeyModel| k.0 == client.0 && m.contains_key(k) && m[k].contains_key(client),
        |k: keyed::KeyModel| m[k][client],
    )
}

/// A filter and a client under it.
pub type Hit = (keyed::KeyModel, keyed::KeyModel);

/// Whether a client of this tenant is subscribed under a filter that matches the
/// topic.
pub open spec fn is_hit(m: TreeModel, tenant: Option<Seq<char>>, name: Seq<char>, h: Hit) -> bool {
    &&& m.contains_key(h.0)
    &&& h.0.0 == tenant
    &&& topic::matches(h.0.1, name)
    &&& m[h.0].contains_key(h.1)
}

/// Whether a list holds every hit once, in some order.
pub open spec fn lists_hits(
    l: Seq<Hit>,
    m: TreeModel,
    tenant: Option<Seq<char>>,
    name: Seq<char>,
) -> bool {
    &&& l.no_duplicates()
    &&& forall|h: Hit| #[trigger] l.contains(h) <==> is_hit(m, tenant, name, h)
}

/// The clients and levels of a list of hits.
pub open spec fn read_hits(l: Seq<Hit>, m: TreeModel) -> Seq<(Seq<char>, QoS)> {
    Seq::new(l.len(), |i: int| (l[i].1.1, m[l[i].0][l[i].1]))
}

/// Clients and levels as texts.
pub open spec fn targets(v: Seq<(Arc<str>, QoS)>) -> Seq<(Seq<char>, QoS)> {
    Seq::new(v.len(), |i: int| ((*v[i].0)@, v[i].1))
}

/// Whether a list of clients and levels is that of the hits, in some order.
pub open spec fn lists_targets(
    v: Seq<(Seq<char>, QoS)>,
    m: TreeModel,
    tenant: Option<Seq<char>>,
    name: Seq<char>,
) -> bool {
    exists|l: Seq<Hit>| #[trigger] lists_hits(l, m, tenant, name) && v == read_hits(l, m)
}

/// Whether no filter is without clients.
pub open spec fn no_empty_filter(m: TreeModel) -> bool {
    forall|k: keyed::KeyModel| #[trigger] m.contains_key(k) ==> !m[k].is_empty()
}

impl SubscriptionTree {
    pub fn new() -> (r: SubscriptionTree)
        ensures
            r@ == Map::<keyed::KeyModel, Map<keyed::KeyModel, QoS>>::empty(),
    {
        let r = SubscriptionTree { subs: KeyedStore::new() };
        assert(r@ =~= Map::<keyed::KeyModel, Map<keyed::KeyModel, QoS>>::empty());
        r
    }

    /// Subscribes a client to a filter.
    pub fn subscribe(
        &mut self,
        tenant: Option<TenantId>,
        client_id: Arc<str>,
        filter: Arc<str>,
        qos: QoS,
    )
        ensures
            final(self)@ == with_subscription(
                old(self)@,
                (text::opt_chars(tenant), (*filter)@),
                (text::opt_chars(tenant), (*client_id)@),
                qos,
            ),
    {
        let client: ScopedName = (clone_opt(&tenant), client_id);
        let key: ScopedName = (tenant, filter);
        let ghost k = keyed::key_of(key);
        let ghost before = self.subs@;
        let mut set = match self.subs.remove(&key) {
            Some(s) => s,
            None => KeyedStore::new(),
        };
        let _old = set.insert(client, qos);
        let _none = self.subs.insert(key, set);
        proof {
            assert(before.contains_key(k) <==> buckets(before).contains_key(k));
            assert(buckets(self.subs@) =~= with_subscription(
                buckets(before),
                k,
                keyed::key_of(client),
                qos,
            ));
        }
    }

    /// Unsubscribes a client from a filter.
    pub fn unsubscribe(&mut self, tenant: &Option<TenantId>, client_id: &Arc<str>, filter: &str)
        ensures
            final(self)@ == without_subscription(
                old(self)@,
                (text::opt_chars(*tenant), filter@),
                (text::opt_chars(*tenant), (**client_id)@),
            ),
    {
        let key: ScopedName = (clone_opt(tenant), shared(filter));
        let client: ScopedName = (clone_opt(tenant), client_id.clone());
        let ghost k = keyed::key_of(key);
        let ghost c = keyed::key_of(client);
        let ghost before = self.subs@;
        proof {
            assert(before.contains_key(k) <==> buckets(before).contains_key(k));
        }
        match self.subs.remove(&key) {
            None => {
                assert(self.subs@ =~= before);
            },
            Some(s) => {
                let mut set = s;
                let _old = set.remove(&client);
                let n: usize = set.len();
                proof {
                    lemma_empty(set@);
                }
                if n > 0 {
                    let _none = self.subs.insert(key, set);
                }
                assert(buckets(self.subs@) =~= without_subscription(buckets(before), k, c));
            },
        }
    }

    /// Drops every subscription of a client of a tenant.
    pub fn remove_client(&mut self, tenant: &Option<TenantId>, client_id: &Arc<str>)
        ensures
            final(self)@ == without_client(
                old(self)@,
                text::opt_chars(*tenant),
                (**client_id)@,
            ),
    {
        let client: ScopedName = (clone_opt(tenant), client_id.clone());
        let ghost c = keyed::key_of(client);
        let ghost t = text::opt_chars(*tenant);
        let ghost before = self.subs@;
        let keys: Vec<ScopedName> = self.filters_of(tenant);
        let mut i: usize = 0;
        proof {
            assert(without_first(buckets(before), keys@, 0, c) =~= buckets(before));
        }
        while i < keys.len()
            invariant
                i <= keys@.len(),
                c == keyed::key_of(client),
                keyed::key_of(client).0 == t,
                forall|a: int, b: int|
                    0 <= a < b < keys@.len() ==> keyed::key_of(#[trigger] keys@[a])
                        != keyed::key_of(#[trigger] keys@[b]),
                forall|a: int|
                    0 <= a < keys@.len() ==> before.contains_key(keyed::key_of(#[trigger] keys@[a])),
                buckets(self.subs@) == without_first(buckets(before), keys@, i as int, c),
            decreases keys@.len() - i,
        {
            let key = &keys[i];
            let ghost k = keyed::key_of(*key);
            let ghost mid = self.subs@;
            proof {
                assert(!done(keys@, i as int, k)) by {
                    if done(keys@, i as int, k) {
                        let a = choose|a: int| 0 <= a < i && keyed::key_of(#[trigger] keys@[a]) == k;
                        assert(keyed::key_of(keys@[a]) != keyed::key_of(keys@[i as int]));
                    }
                }
                assert(before.contains_key(k));
                assert(buckets(before).contains_key(k));
                assert(buckets(mid).contains_key(k));
                assert(buckets(mid)[k] == buckets(before)[k]);
                lemma_done_step(keys@, i as int);
            }
            match self.subs.remove(key) {
                None => {},
                Some(s) => {
                    let mut set = s;
                    let _old = set.remove(&client);
                    let n: usize = set.len();
                    proof {
                        lemma_empty(set@);
                        assert(s@ == buckets(mid)[k]);
                        assert(set@ == buckets(before)[k].remove(c));
                        assert(buckets(mid.remove(k)) =~= buckets(mid).remove(k));
                    }
                    if n > 0 {
                        let _none = self.subs.insert(clone_key(key), set);
                        assert(buckets(self.subs@) =~= buckets(mid).remove(k).insert(k, set@));
                    }
                    assert(buckets(self.subs@) =~= without_first(
                        buckets(before),
                        keys@,
                        i + 1,
                        c,
                    )) by {
                        let next = without_first(buckets(before), keys@, i + 1, c);
                        assert forall|x: keyed::KeyModel| x != k implies (buckets(
                            self.subs@,
                        ).contains_key(x) <==> next.contains_key(x)) && (next.contains_key(x)
                            ==> buckets(self.subs@)[x] == next[x]) by {
                            assert(done(keys@, i + 1, x) <==> done(keys@, i as int, x));
                            assert(buckets(self.subs@).contains_key(x) <==> buckets(mid).contains_key(x));
                        }
                        assert(done(keys@, i + 1, k));
                    }
                },
            }
            i += 1;
        }
        proof {
            assert forall|k: keyed::KeyModel|
                before.contains_key(k) && k.0 == t implies done(keys@, keys@.len() as int, k) by {}
            assert forall|k: keyed::KeyModel| done(keys@, keys@.len() as int, k) implies k.0 == t by {
                let a = choose|a: int|
                    0 <= a < keys@.len() && keyed::key_of(#[trigger] keys@[a]) == k;
            }
            assert(buckets(self.subs@) =~= without_client(buckets(before), t, (**client_id)@));
        }
    }

    /// The filters that a client of a tenant is subscribed under.
    pub fn client_filters(&self, tenant: &Option<TenantId>, client_id: &Arc<str>) -> (r: KeyedStore<
        QoS,
    >)
        ensures
            r@ == client_filters(self@, (text::opt_chars(*tenant), (**client_id)@)),
    {
        let client: ScopedName = (clone_opt(tenant), client_id.clone());
        let ghost c = keyed::key_of(client);
        let ghost m = self@;
        let keys: Vec<ScopedName> = self.filters_of(tenant);
        let mut out: KeyedStore<QoS> = KeyedStore::new();
        let mut i: usize = 0;
        assert(out@ =~= client_filters(m, c).restrict(first_keys(keys@, 0)));
        while i < keys.len()
            invariant
                i <= keys@.len(),
                m == self@,
                c == keyed::key_of(client),
                c.0 == text::opt_chars(*tenant),
                forall|a: int|
                    0 <= a < keys@.len() ==> self.subs@.contains_key(
                        keyed::key_of(#[trigger] keys@[a]),
                    ) && keyed::key_of(keys@[a]).0 == text::opt_chars(*tenant),
                out@ == client_filters(m, c).restrict(first_keys(keys@, i as int)),
            decreases keys@.len() - i,
        {
            let key = &keys[i];
            let ghost k = keyed::key_of(*key);
            let ghost before = out@;
            proof {
                assert(self.subs@.contains_key(k));
                assert(m.contains_key(k));
                lemma_done_step(keys@, i as int);
                assert(first_keys(keys@, i + 1) =~= first_keys(keys@, i as int).insert(k));
            }
            match self.subs.get(key) {
                Some(set) => {
                    assert(set@ == m[k]);
                    match set.get(&client) {
                        Some(qos) => {
                            let _old = out.insert(clone_key(key), *qos);
                            assert(out@ =~= before.insert(k, m[k][c]));
                        },
                        None => {},
                    }
                },
                None => {},
            }
            assert(out@ =~= client_filters(m, c).restrict(first_keys(keys@, i + 1)));
            i += 1;
        }
        proof {
            assert forall|k: keyed::KeyModel| client_filters(m, c).contains_key(k) implies first_keys(
                keys@,
                keys@.len() as int,
            ).contains(k) by {
                assert(self.subs@.contains_key(k));
            }
            assert(out@ =~= client_filters(m, c));
        }
        out
    }

    /// The filters of a tenant, each once.
    fn filters_of(&self, tenant: &Option<TenantId>) -> (r: Vec<ScopedName>)
        ensures
            forall|a: int, b: int|
                0 <= a < b < r@.len() ==> keyed::key_of(#[trigger] r@[a]) != keyed::key_of(
                    #[trigger] r@[b],
                ),
            forall|a: int|
                0 <= a < r@.len() ==> self.subs@.contains_key(keyed::key_of(#[trigger] r@[a]))
                    && keyed::key_of(r@[a]).0 == text::opt_chars(*tenant),
            forall|k: keyed::KeyModel| #[trigger]
                self.subs@.contains_key(k) && k.0 == text::opt_chars(*tenant) ==> done(
                    r@,
                    r@.len() as int,
                    k,
                ),
    {
        let entries = self.subs.entries();
        let ghost t = text::opt_chars(*tenant);
        let mut out: Vec<ScopedName> = Vec::new();
        let mut from: Ghost<Seq<int>> = Ghost(Seq::empty());
        let mut i: usize = 0;
        while i < entries.len()
            invariant
                i <= entries@.len(),
                entries@ == self.subs.list(),
                keyed::distinct_keys(entries@),
                t == text::opt_chars(*tenant),
                from@.len() == out@.len(),
                forall|a: int|
                    #![trigger out@[a]]
                    #![trigger from@[a]]
                    0 <= a < out@.len() ==> 0 <= from@[a] < i && out@[a] == entries@[from@[a]].0
                        && keyed::key_of(out@[a]).0 == t,
                forall|a: int, b: int|
                    0 <= a < b < from@.len() ==> #[trigger] from@[a] < #[trigger] from@[b],
                forall|j: int|
                    0 <= j < i && keyed::key_of((#[trigger] entries@[j]).0).0 == t ==> done(
                        out@,
                        out@.len() as int,
                        keyed::key_of(entries@[j].0),
                    ),
            decreases entries@.len() - i,
        {
            let key = &entries[i].0;
            let ghost before = out@;
            let ghost from_before = from@;
            if opt_str_eq(&key.0, tenant) {
                out.push(clone_key(key));
                proof {
                    from@ = from@.push(i as int);
                    assert forall|a: int| 0 <= a < before.len() implies #[trigger] from@[a]
                        == from_before[a] && out@[a] == before[a] by {}
                    assert forall|k: keyed::KeyModel|
                        done(before, before.len() as int, k) implies done(
                        out@,
                        out@.len() as int,
                        k,
                    ) by {
                        let a = choose|a: int|
                            0 <= a < before.len() && keyed::key_of(#[trigger] before[a]) == k;
                        assert(keyed::key_of(out@[a]) == k);
                    }
                    assert(keyed::key_of(out@[out@.len() - 1]) == keyed::key_of(
                        entries@[i as int].0,
                    ));
                }
            }
            i += 1;
        }
        proof {
            assert forall|a: int, b: int| 0 <= a < b < out@.len() implies keyed::key_of(
                #[trigger] out@[a],
            ) != keyed::key_of(#[trigger] out@[b]) by {
                assert(from@[a] < from@[b]);
            }
            assert forall|a: int| 0 <= a < out@.len() implies self.subs@.contains_key(
                keyed::key_of(#[trigger] out@[a]),
            ) by {
                assert(0 <= from@[a] < entries@.len());
                keyed::lemma_entry(entries@, from@[a]);
            }
            assert forall|k: keyed::KeyModel| #[trigger]
                self.subs@.contains_key(k) && k.0 == t implies done(out@, out@.len() as int, k) by {
                keyed::lemma_key(entries@, k);
                assert(keyed::key_of(entries@[keyed::place_of(entries@, k)].0) == k);
            }
        }
        out
    }

    /// The clients of a tenant that are subscribed under a filter that matches the
    /// topic, once for each such filter, in no particular order.
    pub fn matching(&self, tenant: &Option<TenantId>, topic: &str) -> (r: Vec<(Arc<str>, QoS)>)
        ensures
            lists_targets(targets(r@), self@, text::opt_chars(*tenant), topic@),
    {
        let topic_segs: Vec<&str> = split_ascii(topic, 0x2F);
        let ghost t = text::opt_chars(*tenant);
        let ghost m = self@;
        let entries = self.subs.entries();
        let mut out: Vec<(Arc<str>, QoS)> = Vec::new();
        let mut hits: Ghost<Seq<Hit>> = Ghost(Seq::empty());
        let mut i: usize = 0;
        while i < entries.len()
            invariant
                i <= entries@.len(),
                entries@ == self.subs.list(),
                keyed::distinct_keys(entries@),
                m == self@,
                t == text::opt_chars(*tenant),
                text::all_chars(topic_segs@) == text::levels(topic@),
                hits@.no_duplicates(),
                targets(out@) == read_hits(hits@, m),
                forall|h: Hit| #[trigger]
                    hits@.contains(h) <==> is_hit(m, t, topic@, h) && keyed::place_of(
                        entries@,
                        h.0,
                    ) < i,
            decreases entries@.len() - i,
        {
            let key = &entries[i].0;
            let set = &entries[i].1;
            let ghost k = keyed::key_of(*key);
            let ghost before = hits@;
            proof {
                keyed::lemma_entry(entries@, i as int);
                assert(self.subs@.contains_key(k) && self.subs@[k] == *set);
                assert(m.contains_key(k) && m[k] == set@);
                assert forall|h: Hit|
                    is_hit(m, t, topic@, h) && keyed::place_of(entries@, h.0) == i implies h.0
                    == k by {
                    assert(self.subs@.contains_key(h.0));
                    keyed::lemma_key(entries@, h.0);
                }
            }
            if opt_str_eq(&key.0, tenant) && filter_matches(&key.1, topic_segs.as_slice()) {
                let inner = set.entries();
                let mut j: usize = 0;
                while j < inner.len()
                    invariant
                        j <= inner@.len(),
                        inner@ == set.list(),
                        keyed::distinct_keys(inner@),
                        m.contains_key(k) && m[k] == set@,
                        k.0 == t,
                        topic::matches(k.1, topic@),
                        hits@.no_duplicates(),
                        targets(out@) == read_hits(hits@, m),
                        forall|h: Hit| #[trigger]
                            hits@.contains(h) <==> before.contains(h) || (h.0 == k
                                && set@.contains_key(h.1) && keyed::place_of(inner@, h.1) < j),
                        forall|h: Hit| #[trigger] before.contains(h) ==> h.0 != k,
                    decreases inner@.len() - j,
                {
                    let client = &inner[j].0;
                    let qos: QoS = inner[j].1;
                    let ghost h: Hit = (k, keyed::key_of(*client));
                    let ghost mid = hits@;
                    let ghost mid_out = targets(out@);
                    proof {
                        keyed::lemma_entry(inner@, j as int);
                        assert(set@[h.1] == qos);
                        assert(!mid.contains(h));
                        hits@ = hits@.push(h);
                        assert forall|x: Hit| #[trigger] hits@.contains(x) <==> mid.contains(x) || x
                            == h by {
                            if mid.contains(x) {
                                let a = choose|a: int| 0 <= a < mid.len() && mid[a] == x;
                                assert(hits@[a] == x);
                            }
                            if x == h {
                                assert(hits@[hits@.len() - 1] == x);
                            }
                        }
                        assert forall|x: Hit|
                            x.0 == k && set@.contains_key(x.1) && keyed::place_of(inner@, x.1)
                                == j implies x == h by {
                            keyed::lemma_key(inner@, x.1);
                        }
                    }
                    out.push((client.1.clone(), qos));
                    proof {
                        assert(targets(out@) =~= mid_out.push((h.1.1, qos)));
                        assert(read_hits(hits@, m) =~= read_hits(mid, m).push((h.1.1, qos)));
                    }
                    j += 1;
                }
                proof {
                    assert forall|h: Hit| set@.contains_key(h.1) implies keyed::place_of(
                        inner@,
                        h.1,
                    ) < inner@.len() by {
                        keyed::lemma_key(inner@, h.1);
                    }
                }
            }
            i += 1;
        }
        proof {
            assert forall|h: Hit| #[trigger] hits@.contains(h) <==> is_hit(m, t, topic@, h) by {
                if is_hit(m, t, topic@, h) {
                    assert(self.subs@.contains_key(h.0));
                    keyed::lemma_key(entries@, h.0);
                }
            }
            assert(lists_hits(hits@, m, t, topic@));
        }
        out
    }

    /// The number of filters that have clients.
    pub fn filter_bucket_count(&self) -> (r: usize)
        ensures
            r == self@.len(),
    {
        assert(buckets(self.subs@).dom() =~= self.subs@.dom());
        self.subs.len()
    }
}

spec fn done(keys: Seq<ScopedName>, n: int, k: keyed::KeyModel) -> bool {
    exists|a: int| 0 <= a < n && keyed::key_of(#[trigger] keys[a]) == k
}

/// The first `n` of the keys.
spec fn first_keys(keys: Seq<ScopedName>, n: int) -> Set<keyed::KeyModel> {
    Set::new(|k: keyed::KeyModel| done(keys, n, k))
}

proof fn lemma_done_step(keys: Seq<ScopedName>, i: int)
    requires
        0 <= i < keys.len(),
    ensures
        forall|k: keyed::KeyModel| #[trigger]
            done(keys, i + 1, k) <==> done(keys, i, k) || k == keyed::key_of(keys[i]),
{
    assert forall|k: keyed::KeyModel| #[trigger] done(keys, i + 1, k) <==> done(keys, i, k) || k
        == keyed::key_of(keys[i]) by {
        if done(keys, i + 1, k) {
            let a = choose|a: int| 0 <= a < i + 1 && keyed::key_of(#[trigger] keys[a]) == k;
            if a < i {
                assert(done(keys, i, k));
            }
        }
        if done(keys, i, k) {
            let a = choose|a: int| 0 <= a < i && keyed::key_of(#[trigger] keys[a]) == k;
            assert(0 <= a < i + 1);
        }
        if k == keyed::key_of(keys[i]) {
            assert(keyed::key_of(keys[i]) == k);
        }
    }
}

/// The subscriptions without the client under the first `n` filters.
spec fn without_first(m: TreeModel, keys: Seq<ScopedName>, n: int, c: keyed::KeyModel) -> TreeModel {
    Map::new(
        |k: keyed::KeyModel|
            m.contains_key(k) && (!done(keys, n, k) || !m[k].remove(c).is_empty()),
        |k: keyed::KeyModel|
            if done(keys, n, k) {
                m[k].remove(c)
            } else {
                m[k]
            },
    )
}

proof fn lemma_empty(m: Map<keyed::KeyModel, QoS>)
    requires
        m.dom().finite(),
    ensures
        m.len() == 0 <==> m.is_empty(),
{
    if m.len() == 0 {
        assert(m.dom() =~= Set::<keyed::KeyModel>::empty());
        assert(m =~= Map::<keyed::KeyModel, QoS>::empty());
    }
}

// ----------------------------------------------------------------------------
// Laws
// ----------------------------------------------------------------------------

/// No operation leaves a filter without clients behind.
pub proof fn law_no_empty_filter(
    m: TreeModel,
    filter: keyed::KeyModel,
    client: keyed::KeyModel,
    qos: QoS,
)
    requires
        no_empty_filter(m),
    ensures
        no_empty_filter(with_subscription(m, filter, client, qos)),
        no_empty_filter(without_subscription(m, filter, client)),
        no_empty_filter(without_client(m, client.0, client.1)),
{
    let a = with_subscription(m, filter, client, qos);
    assert forall|k: keyed::KeyModel| #[trigger] a.contains_key(k) implies !a[k].is_empty() by {
        if k == filter {
            assert(a[k].contains_key(client));
        } else {
            assert(m.contains_key(k));
        }
    }
    let b = without_subscription(m, filter, client);
    assert forall|k: keyed::KeyModel| #[trigger] b.contains_key(k) implies !b[k].is_empty() by {
        assert(m.contains_key(k));
    }
    let d = without_client(m, client.0, client.1);
    assert forall|k: keyed::KeyModel| #[trigger] d.contains_key(k) implies !d[k].is_empty() by {
        assert(m.contains_key(k));
    }
}

/// What is subscribed and unsubscribed again leaves no trace, where it was not
/// there before.
pub proof fn law_unsubscribe_undoes_subscribe(
    m: TreeModel,
    filter: keyed::KeyModel,
    client: keyed::KeyModel,
    qos: QoS,
)
    requires
        no_empty_filter(m),
        m.contains_key(filter) ==> !m[filter].contains_key(client),
    ensures
        without_subscription(with_subscription(m, filter, client, qos), filter, client) == m,
{
    let a = with_subscription(m, filter, client, qos);
    let b = without_subscription(a, filter, client);
    if m.contains_key(filter) {
        assert(a[filter].remove(client) =~= m[filter]);
    } else {
        assert(a[filter].remove(client) =~= Map::<keyed::KeyModel, QoS>::empty());
    }
    assert(b =~= m);
}

/// A client has a filter more, or one less, or none at all, after each operation on
/// its own subscriptions, and every other client has the same ones as before.
pub proof fn law_client_filters(
    m: TreeModel,
    filter: keyed::KeyModel,
    client: keyed::KeyModel,
    qos: QoS,
    other: keyed::KeyModel,
)
    requires
        filter.0 == client.0,
    ensures
        client_filters(with_subscription(m, filter, client, qos), client) == client_filters(
            m,
            client,
        ).insert(filter, qos),
        client_filters(without_subscription(m, filter, client), client) == client_filters(
            m,
            client,
        ).remove(filter),
        client_filters(without_client(m, client.0, client.1), client) == Map::<
            keyed::KeyModel,
            QoS,
        >::empty(),
        other != client ==> {
            &&& client_filters(with_subscription(m, filter, client, qos), other)
                == client_filters(m, other)
            &&& client_filters(without_subscription(m, filter, client), other)
                == client_filters(m, other)
            &&& client_filters(without_client(m, client.0, client.1), other)
                == client_filters(m, other)
        },
{
    let a = with_subscription(m, filter, client, qos);
    let b = without_subscription(m, filter, client);
    let d = without_client(m, client.0, client.1);
    assert(client_filters(a, client) =~= client_filters(m, client).insert(filter, qos));
    assert(client_filters(b, client) =~= client_filters(m, client).remove(filter));
    assert(client_filters(d, client) =~= Map::<keyed::KeyModel, QoS>::empty());
    if other != client {
        assert(client_filters(a, other) =~= client_filters(m, other));
        assert forall|k: keyed::KeyModel| #[trigger]
            m.contains_key(k) && m[k].contains_key(other) implies !m[k].remove(client).is_empty() by {
            assert(m[k].remove(client).contains_key(other));
        }
        assert(client_filters(b, other) =~= client_filters(m, other));
        assert(client_filters(d, other) =~= client_filters(m, other));
    }
}

/// Whoever is reached belongs to the tenant: subscriptions of other tenants do
/// not change who is reached.
pub proof fn law_tenants_isolated(
    a: TreeModel,
    b: TreeModel,
    tenant: Option<Seq<char>>,
    name: Seq<char>,
    h: Hit,
)
    requires
        forall|k: keyed::KeyModel|
            k.0 == tenant ==> (#[trigger] a.contains_key(k) <==> b.contains_key(k)),
        forall|k: keyed::KeyModel|
            k.0 == tenant && #[trigger] a.contains_key(k) ==> a[k] == b[k],
    ensures
        is_hit(a, tenant, name, h) <==> is_hit(b, tenant, name, h),
{
    assert(h.0.0 == tenant ==> (a.contains_key(h.0) <==> b.contains_key(h.0)));
}

/// Removing a client leaves other tenants and other clients as they are, and
/// reaches that client no more.
pub proof fn law_remove_client(
    m: TreeModel,
    tenant: Option<Seq<char>>,
    client: Seq<char>,
    other: Option<Seq<char>>,
    name: Seq<char>,
    h: Hit,
)
    ensures
        is_hit(without_client(m, tenant, client), other, name, h) <==> is_hit(m, other, name, h) && !(
        other == tenant && h.1 == (tenant, client)),
{
    if m.contains_key(h.0) && h.0.0 == tenant && m[h.0].contains_key(h.1) && h.1 != (
        tenant,
        client,
    ) {
        assert(m[h.0].remove((tenant, client)).contains_key(h.1));
    }
}

/// A wildcard in the first level of a filter never reaches a topic that starts
/// with `$`.
pub proof fn law_dollar_topics_guarded(
    m: TreeModel,
    tenant: Option<Seq<char>>,
    name: Seq<char>,
    h: Hit,
)
    requires
        topic::is_dollar(name),
        is_hit(m, tenant, name, h),
    ensures
        text::levels(h.0.1)[0] != topic::plus(),
        text::levels(h.0.1)[0] != topic::hash(),
{
    if text::levels(h.0.1)[0] == topic::plus() || text::levels(h.0.1)[0] == topic::hash() {
        topic::law_dollar_guard(h.0.1, name);
    }
}

} // verus!
