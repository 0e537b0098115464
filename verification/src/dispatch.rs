//! Inbound messages on their way to their handlers.
//!
//! Each endpoint that a message matches has a queue of its own, which its worker
//! empties from the front. Messages that no endpoint matches go to the queue of the
//! default handler, where there is one.
use crate::packet;
use crate::request::IncomingPublish;
use crate::topic;
use crate::topic::is_dollar_prefixed_first_segment;
use std::collections::BTreeMap;
use vstd::prelude::*;
use vstd::std_specs::btree::*;

verus! {

/// The queue of the default handler.
#[derive(Debug)]
pub enum Fallback {
    /// There is no default handler.
    Absent,
    /// Nothing was given to the handler yet.
    Unused,
    /// The messages that the handler's worker has not taken, oldest first.
    Running(Vec<IncomingPublish>),
    /// The worker was idle for too long and ended; no other takes its place.
    Stopped,
}

/// The queues of one connection.
pub struct EndpointDispatcher {
    queues: BTreeMap<u64, Vec<IncomingPublish>>,
    fallback: Fallback,
    capacity: usize,
}

pub enum FallbackModel {
    Absent,
    Unused,
    Running(Seq<packet::PublishModel>),
    Stopped,
}

pub struct DispatchModel {
    /// The queues by endpoint. An endpoint without one has no worker.
    pub queues: Map<u64, Seq<packet::PublishModel>>,
    pub fallback: FallbackModel,
    /// How many messages a queue holds.
    pub capacity: usize,
}

pub open spec fn messages(v: Seq<IncomingPublish>) -> Seq<packet::PublishModel> {
    v.map_values(|p: IncomingPublish| p@)
}

spec fn queues_of(m: Map<u64, Vec<IncomingPublish>>) -> Map<u64, Seq<packet::PublishModel>> {
    m.map_values(|q: Vec<IncomingPublish>| messages(q@))
}

impl View for Fallback {
    type V = FallbackModel;

    open spec fn view(&self) -> FallbackModel {
        match self {
            Fallback::Absent => FallbackModel::Absent,
            Fallback::Unused => FallbackModel::Unused,
            Fallback::Running(q) => FallbackModel::Running(messages(q@)),
            Fallback::Stopped => FallbackModel::Stopped,
        }
    }
}

impl View for EndpointDispatcher {
    type V = DispatchModel;

    closed spec fn view(&self) -> DispatchModel {
        DispatchModel {
            queues: queues_of(self.queues@),
            fallback: self.fallback@,
            capacity: self.capacity,
        }
    }
}

/// A queue after a message came: a full one stays as it is, and the message is lost.
pub open spec fn queued(
    q: Seq<packet::PublishModel>,
    p: packet::PublishModel,
    capacity: usize,
) -> Seq<packet::PublishModel> {
    if q.len() < capacity {
        q.push(p)
    } else {
        q
    }
}

/// The queue of an endpoint: empty where it has none.
pub open spec fn queue_at(d: DispatchModel, key: u64) -> Seq<packet::PublishModel> {
    if d.queues.contains_key(key) {
        d.queues[key]
    } else {
        Seq::empty()
    }
}

/// The queues after a message came for one endpoint.
pub open spec fn to_endpoint(
    d: DispatchModel,
    key: u64,
    p: packet::PublishModel,
) -> DispatchModel {
    DispatchModel {
        queues: d.queues.insert(key, queued(queue_at(d, key), p, d.capacity)),
        ..d
    }
}

/// The queues after a message came for several endpoints.
pub open spec fn to_endpoints(
    d: DispatchModel,
    keys: Seq<u64>,
    p: packet::PublishModel,
) -> DispatchModel
    decreases keys.len(),
{
    if keys.len() == 0 {
        d
    } else {
        to_endpoint(to_endpoints(d, keys.drop_last(), p), keys.last(), p)
    }
}

/// The queues after a message came for the default handler.
pub open spec fn to_fallback(d: DispatchModel, p: packet::PublishModel) -> DispatchModel {
    DispatchModel {
        fallback: match d.fallback {
            FallbackModel::Absent => FallbackModel::Absent,
            FallbackModel::Unused => FallbackModel::Running(queued(Seq::empty(), p, d.capacity)),
            FallbackModel::Running(q) => FallbackModel::Running(queued(q, p, d.capacity)),
            FallbackModel::Stopped => FallbackModel::Stopped,
        },
        ..d
    }
}

/// The queues after a message came that matches these endpoints.
pub open spec fn dispatched(
    d: DispatchModel,
    keys: Seq<u64>,
    p: packet::PublishModel,
) -> DispatchModel {
    if keys.len() == 0 {
        to_fallback(d, p)
    } else {
        to_endpoints(d, keys, p)
    }
}

/// Puts a message at the end of a queue that is not full.
fn enqueue(q: &mut Vec<IncomingPublish>, incoming: IncomingPublish, capacity: usize)
    ensures
        messages(final(q)@) == queued(messages(old(q)@), incoming@, capacity),
{
    if q.len() < capacity {
        q.push(incoming);
        assert(messages(q@) =~= messages(old(q)@).push(incoming@));
    }
}

/// Takes the oldest message of a queue.
fn dequeue(q: &mut Vec<IncomingPublish>) -> (r: Option<IncomingPublish>)
    ensures
        messages(old(q)@).len() == 0 ==> r is None && *final(q) == *old(q),
        messages(old(q)@).len() > 0 ==> (r matches Some(p) && p@ == messages(old(q)@)[0])
            && messages(final(q)@) == messages(old(q)@).drop_first(),
{
    if q.len() == 0 {
        return None;
    }
    let p = q.remove(0);
    assert(messages(q@) =~= messages(old(q)@).drop_first());
    Some(p)
}

impl EndpointDispatcher {
    /// No queue yet. A queue holds `capacity` messages, but at least one.
    pub fn new(has_default_handler: bool, capacity: usize) -> (r: EndpointDispatcher)
        ensures
            r@ == (DispatchModel {
                queues: Map::empty(),
                fallback: if has_default_handler {
                    FallbackModel::Unused
                } else {
                    FallbackModel::Absent
                },
                capacity: if capacity == 0 {
                    1
                } else {
                    capacity
                },
            }),
    {
        let r = EndpointDispatcher {
            queues: BTreeMap::new(),
            fallback: if has_default_handler {
                Fallback::Unused
            } else {
                Fallback::Absent
            },
            capacity: if capacity == 0 {
                1
            } else {
                capacity
            },
        };
        assert(r@.queues =~= Map::<u64, Seq<packet::PublishModel>>::empty());
        r
    }

    /// Hands a message to an endpoint. Whether the endpoint needs a worker now.
    pub fn dispatch_endpoint(&mut self, key: u64, incoming: IncomingPublish) -> (r: bool)
        ensures
            final(self)@ == to_endpoint(old(self)@, key, incoming@),
            r == !old(self)@.queues.contains_key(key),
    {
        proof {
            assert(old(self)@.queues.contains_key(key) <==> old(self).queues@.contains_key(key));
        }
        let (mut q, fresh): (Vec<IncomingPublish>, bool) = match self.queues.remove(&key) {
            Some(q) => (q, false),
            None => (Vec::new(), true),
        };
        assert(messages(q@) =~= queue_at(old(self)@, key));
        enqueue(&mut q, incoming, self.capacity);
        let _old = self.queues.insert(key, q);
        assert(self@.queues =~= to_endpoint(old(self)@, key, incoming@).queues);
        fresh
    }

    /// Hands a message to the default handler. Whether the handler needs a worker
    /// now.
    pub fn dispatch_fallback(&mut self, incoming: IncomingPublish) -> (r: bool)
        ensures
            final(self)@ == to_fallback(old(self)@, incoming@),
            r == (old(self)@.fallback is Unused),
    {
        let mut fresh: bool = false;
        let mut fallback = Fallback::Absent;
        core::mem::swap(&mut fallback, &mut self.fallback);
        self.fallback = match fallback {
            Fallback::Absent => Fallback::Absent,
            Fallback::Stopped => Fallback::Stopped,
            Fallback::Unused => {
                fresh = true;
                let mut q: Vec<IncomingPublish> = Vec::new();
                assert(messages(q@) =~= Seq::<packet::PublishModel>::empty());
                enqueue(&mut q, incoming, self.capacity);
                Fallback::Running(q)
            },
            Fallback::Running(held) => {
                let mut q = held;
                enqueue(&mut q, incoming, self.capacity);
                Fallback::Running(q)
            },
        };
        fresh
    }

    /// The next message for an endpoint's worker.
    pub fn take_endpoint(&mut self, key: u64) -> (r: Option<IncomingPublish>)
        ensures
            queue_at(old(self)@, key).len() == 0 ==> r is None && final(self)@ == old(self)@,
            queue_at(old(self)@, key).len() > 0 ==> (r matches Some(p) && p@ == queue_at(
                old(self)@,
                key,
            )[0]) && final(self)@ == (DispatchModel {
                queues: old(self)@.queues.insert(key, queue_at(old(self)@, key).drop_first()),
                ..old(self)@
            }),
    {
        proof {
            assert(old(self)@.queues.contains_key(key) <==> old(self).queues@.contains_key(key));
        }
        match self.queues.remove(&key) {
            None => {
                assert(self@.queues =~= old(self)@.queues);
                None
            },
            Some(held) => {
                let mut q = held;
                assert(messages(q@) == queue_at(old(self)@, key));
                let p = dequeue(&mut q);
                let ghost rest = messages(q@);
                let _old = self.queues.insert(key, q);
                assert(self@.queues =~= old(self)@.queues.insert(key, rest));
                assert(queue_at(old(self)@, key).len() == 0 ==> self@.queues =~= old(self)@.queues);
                p
            },
        }
    }

    /// The next message for the default handler's worker.
    pub fn take_fallback(&mut self) -> (r: Option<IncomingPublish>)
        ensures
            match old(self)@.fallback {
                FallbackModel::Running(q) => if q.len() == 0 {
                    r is None && final(self)@ == old(self)@
                } else {
                    (r matches Some(p) && p@ == q[0]) && final(self)@ == (DispatchModel {
                        fallback: FallbackModel::Running(q.drop_first()),
                        ..old(self)@
                    })
                },
                _ => r is None && final(self)@ == old(self)@,
            },
    {
        let mut fallback = Fallback::Absent;
        core::mem::swap(&mut fallback, &mut self.fallback);
        match fallback {
            Fallback::Running(held) => {
                let mut q = held;
                let p = dequeue(&mut q);
                self.fallback = Fallback::Running(q);
                p
            },
            other => {
                self.fallback = other;
                None
            },
        }
    }

    /// The worker of an endpoint was idle for too long and ends. The next message
    /// for the endpoint starts another.
    pub fn endpoint_idle(&mut self, key: u64)
        ensures
            final(self)@ == (DispatchModel {
                queues: old(self)@.queues.remove(key),
                ..old(self)@
            }),
    {
        let _old = self.queues.remove(&key);
        assert(self@.queues =~= old(self)@.queues.remove(key));
    }

    /// The worker of the default handler was idle for too long and ends. Messages
    /// that come for it afterwards are lost.
    pub fn fallback_idle(&mut self)
        ensures
            final(self)@ == (DispatchModel {
                fallback: match old(self)@.fallback {
                    FallbackModel::Running(_) => FallbackModel::Stopped,
                    other => other,
                },
                ..old(self)@
            }),
    {
        if let Fallback::Running(_) = &self.fallback {
            self.fallback = Fallback::Stopped;
        }
    }
}

/// The workers that a message needs and that are not there.
#[derive(Debug)]
pub struct Workers {
    pub endpoints: Vec<u64>,
    pub fallback: bool,
}

/// Those of the endpoints that have no queue when the message comes to them.
pub open spec fn without_worker(
    d: DispatchModel,
    keys: Seq<u64>,
    p: packet::PublishModel,
) -> Seq<u64>
    decreases keys.len(),
{
    if keys.len() == 0 {
        Seq::empty()
    } else {
        let before = without_worker(d, keys.drop_last(), p);
        if to_endpoints(d, keys.drop_last(), p).queues.contains_key(keys.last()) {
            before
        } else {
            before.push(keys.last())
        }
    }
}

/// An endpoint whose path matches a topic level by level.
#[derive(Debug, Clone, Copy)]
pub struct MatchedEndpoint {
    pub key: u64,
    /// Whether the first level of the path is a wildcard.
    pub wild: bool,
}

/// The endpoints that a message is for: a wildcard in the first level does not stand
/// for a name that starts with `$`.
pub open spec fn meant_for(matched: Seq<MatchedEndpoint>, name: Seq<char>) -> Seq<u64>
    decreases matched.len(),
{
    if matched.len() == 0 {
        Seq::empty()
    } else {
        let front = meant_for(matched.drop_last(), name);
        if matched.last().wild && topic::is_dollar(name) {
            front
        } else {
            front.push(matched.last().key)
        }
    }
}

fn endpoints_for(matched: &[MatchedEndpoint], name: &str) -> (r: Vec<u64>)
    ensures
        r@ == meant_for(matched@, name@),
{
    let guarded: bool = is_dollar_prefixed_first_segment(name);
    let ghost all = matched@;
    let mut keys: Vec<u64> = Vec::new();
    let mut i: usize = 0;
    assert(all.take(0) =~= Seq::<MatchedEndpoint>::empty());
    while i < matched.len()
        invariant
            i <= matched@.len(),
            all == matched@,
            guarded == topic::is_dollar(name@),
            keys@ == meant_for(all.take(i as int), name@),
        decreases matched@.len() - i,
    {
        assert(all.take(i + 1).drop_last() =~= all.take(i as int));
        assert(all.take(i + 1).last() == all[i as int]);
        if !(matched[i].wild && guarded) {
            keys.push(matched[i].key);
        }
        i += 1;
    }
    assert(all.take(i as int) =~= all);
    keys
}

/// Hands a message to every endpoint that it is for, to the default handler where
/// there is none, and says which workers are to be started.
pub fn dispatch_incoming(
    dispatcher: &mut EndpointDispatcher,
    matched: &[MatchedEndpoint],
    incoming: IncomingPublish,
) -> (r: Workers)
    ensures
        ({
            let keys = meant_for(matched@, incoming@.topic);
            &&& final(dispatcher)@ == dispatched(old(dispatcher)@, keys, incoming@)
            &&& r.endpoints@ == without_worker(old(dispatcher)@, keys, incoming@)
            &&& r.fallback == (keys.len() == 0 && old(dispatcher)@.fallback is Unused)
        }),
{
    let matched: Vec<u64> = endpoints_for(matched, &incoming.topic);
    if matched.len() == 0 {
        let fallback = dispatcher.dispatch_fallback(incoming);
        return Workers { endpoints: Vec::new(), fallback };
    }
    let ghost all = matched@;
    let mut endpoints: Vec<u64> = Vec::new();
    let mut i: usize = 0;
    assert(all.take(0) =~= Seq::<u64>::empty());
    while i < matched.len()
        invariant
            i <= matched@.len(),
            all == matched@,
            dispatcher@ == to_endpoints(old(dispatcher)@, all.take(i as int), incoming@),
            endpoints@ == without_worker(old(dispatcher)@, all.take(i as int), incoming@),
        decreases matched@.len() - i,
    {
        if dispatcher.dispatch_endpoint(matched[i], incoming.clone()) {
            endpoints.push(matched[i]);
        }
        assert(all.take(i + 1).drop_last() =~= all.take(i as int));
        assert(all.take(i + 1).last() == all[i as int]);
        i += 1;
    }
    assert(all.take(i as int) =~= all);
    Workers { endpoints, fallback: false }
}

// ----------------------------------------------------------------------------
// Laws
// ----------------------------------------------------------------------------

/// Whether no queue is fuller than it may be.
pub open spec fn within_capacity(d: DispatchModel) -> bool {
    &&& forall|key: u64| #[trigger]
        d.queues.contains_key(key) ==> d.queues[key].len() <= d.capacity
    &&& (d.fallback matches FallbackModel::Running(q) ==> q.len() <= d.capacity)
}

/// Whatever comes, no queue holds more messages than it may: a peer that floods
/// this side cannot take up more memory than the queues hold.
pub proof fn law_dispatch_bounded(d: DispatchModel, keys: Seq<u64>, p: packet::PublishModel)
    requires
        within_capacity(d),
    ensures
        within_capacity(dispatched(d, keys, p)),
        dispatched(d, keys, p).capacity == d.capacity,
{
    lemma_endpoints_bounded(d, keys, p);
}

proof fn lemma_endpoints_bounded(d: DispatchModel, keys: Seq<u64>, p: packet::PublishModel)
    requires
        within_capacity(d),
    ensures
        within_capacity(to_endpoints(d, keys, p)),
        to_endpoints(d, keys, p).capacity == d.capacity,
    decreases keys.len(),
{
    if keys.len() > 0 {
        lemma_endpoints_bounded(d, keys.drop_last(), p);
    }
}

/// A message goes only where it matches: the queue of an endpoint that it does not
/// match is as it was, and so is the default handler's where it matches some.
pub proof fn law_dispatch_only_matching(
    d: DispatchModel,
    keys: Seq<u64>,
    p: packet::PublishModel,
    other: u64,
)
    requires
        !keys.contains(other),
    ensures
        queue_at(dispatched(d, keys, p), other) == queue_at(d, other),
        keys.len() > 0 ==> dispatched(d, keys, p).fallback == d.fallback,
        keys.len() == 0 ==> dispatched(d, keys, p).queues == d.queues,
    decreases keys.len(),
{
    if keys.len() > 0 {
        let front = keys.drop_last();
        assert(keys.last() == keys[keys.len() - 1]);
        assert forall|i: int| 0 <= i < front.len() implies front[i] != other by {
            assert(front[i] == keys[i]);
        }
        if front.len() > 0 {
            law_dispatch_only_matching(d, front, p, other);
        }
    }
}

/// A message whose topic starts with `$` is for no endpoint whose path starts with a
/// wildcard; any other message is for every endpoint that it matches.
pub proof fn law_dollar_messages_guarded(
    matched: Seq<MatchedEndpoint>,
    name: Seq<char>,
    key: u64,
)
    ensures
        meant_for(matched, name).contains(key) <==> exists|i: int|
            #![trigger matched[i]]
            0 <= i < matched.len() && matched[i].key == key && !(matched[i].wild
                && topic::is_dollar(name)),
    decreases matched.len(),
{
    if matched.len() > 0 {
        let front = matched.drop_last();
        let keys = meant_for(matched, name);
        let before = meant_for(front, name);
        law_dollar_messages_guarded(front, name, key);
        if keys.contains(key) {
            let j = choose|j: int| 0 <= j < keys.len() && keys[j] == key;
            if j < before.len() {
                assert(before[j] == key);
                assert(before.contains(key));
                let i = choose|i: int|
                    #![trigger front[i]]
                    0 <= i < front.len() && front[i].key == key && !(front[i].wild
                        && topic::is_dollar(name));
                assert(matched[i] == front[i]);
            } else {
                assert(matched[matched.len() - 1].key == key);
            }
        }
        if exists|i: int|
            #![trigger matched[i]]
            0 <= i < matched.len() && matched[i].key == key && !(matched[i].wild
                && topic::is_dollar(name)) {
            let i = choose|i: int|
                #![trigger matched[i]]
                0 <= i < matched.len() && matched[i].key == key && !(matched[i].wild
                    && topic::is_dollar(name));
            if i < front.len() {
                assert(front[i] == matched[i]);
                assert(before.contains(key));
                let j = choose|j: int| 0 <= j < before.len() && before[j] == key;
                assert(keys[j] == key);
            } else {
                assert(keys[keys.len() - 1] == key);
            }
        }
    }
}

/// An endpoint that a message matches gets it behind everything that waits there
/// already, if its queue has room. Different endpoints do not hold each other up.
pub proof fn law_dispatch_in_order(
    d: DispatchModel,
    keys: Seq<u64>,
    p: packet::PublishModel,
    i: int,
)
    requires
        keys.no_duplicates(),
        0 <= i < keys.len(),
    ensures
        queue_at(dispatched(d, keys, p), keys[i]) == queued(queue_at(d, keys[i]), p, d.capacity),
    decreases keys.len(),
{
    let front = keys.drop_last();
    assert(front.no_duplicates());
    lemma_endpoints_capacity(d, front, p);
    if i < front.len() {
        assert(front[i] == keys[i]);
        assert(keys.last() != keys[i]);
        law_dispatch_in_order(d, front, p, i);
    } else {
        assert forall|j: int| 0 <= j < front.len() implies front[j] != keys[i] by {
            assert(front[j] == keys[j]);
        }
        if front.len() > 0 {
            law_dispatch_only_matching(d, front, p, keys[i]);
        }
    }
}

proof fn lemma_endpoints_capacity(d: DispatchModel, keys: Seq<u64>, p: packet::PublishModel)
    ensures
        to_endpoints(d, keys, p).capacity == d.capacity,
    decreases keys.len(),
{
    if keys.len() > 0 {
        lemma_endpoints_capacity(d, keys.drop_last(), p);
    }
}

/// An endpoint that a message matches gets it as its last one while its queue has room;
/// a full queue keeps what it has, and the message is dropped.
pub proof fn law_endpoint_gets_the_message(
    d: DispatchModel,
    keys: Seq<u64>,
    p: packet::PublishModel,
    i: int,
)
    requires
        keys.no_duplicates(),
        0 <= i < keys.len(),
    ensures
        dispatched(d, keys, p).queues.contains_key(keys[i]),
        ({
            let before = if d.queues.contains_key(keys[i]) {
                d.queues[keys[i]]
            } else {
                Seq::empty()
            };
            let after = dispatched(d, keys, p).queues[keys[i]];
            &&& before.len() < d.capacity ==> after == before.push(p)
            &&& before.len() >= d.capacity ==> after == before
        }),
{
    law_dispatch_in_order(d, keys, p, i);
    lemma_endpoints_there(d, keys, p, i);
}

proof fn lemma_endpoints_there(d: DispatchModel, keys: Seq<u64>, p: packet::PublishModel, i: int)
    requires
        0 <= i < keys.len(),
    ensures
        to_endpoints(d, keys, p).queues.contains_key(keys[i]),
    decreases keys.len(),
{
    if i < keys.len() - 1 {
        assert(keys.drop_last()[i] == keys[i]);
        lemma_endpoints_there(d, keys.drop_last(), p, i);
    }
}

/// A message that matches no endpoint goes to the default handler, as its last one
/// while there is room; one that is not there or has stopped gets nothing.
pub proof fn law_default_handler_gets_the_rest(d: DispatchModel, p: packet::PublishModel)
    ensures
        ({
            let after = dispatched(d, Seq::empty(), p);
            &&& after.queues == d.queues
            &&& after.capacity == d.capacity
            &&& d.fallback is Absent ==> after.fallback is Absent
            &&& d.fallback is Stopped ==> after.fallback is Stopped
            &&& d.fallback is Unused && d.capacity > 0 ==> after.fallback == FallbackModel::Running(
                seq![p],
            )
            &&& d.fallback matches FallbackModel::Running(q) ==> {
                &&& q.len() < d.capacity ==> after.fallback == FallbackModel::Running(q.push(p))
                &&& q.len() >= d.capacity ==> after.fallback == d.fallback
            }
        }),
{
    assert(Seq::<packet::PublishModel>::empty().push(p) =~= seq![p]);
}

/// The endpoints that need a worker are those the message is for that had none, each
/// once.
pub proof fn law_workers_are_started(
    d: DispatchModel,
    keys: Seq<u64>,
    p: packet::PublishModel,
    key: u64,
)
    requires
        keys.no_duplicates(),
    ensures
        without_worker(d, keys, p).contains(key) <==> keys.contains(key) && !d.queues.contains_key(
            key,
        ),
        without_worker(d, keys, p).no_duplicates(),
    decreases keys.len(),
{
    if keys.len() > 0 {
        let front = keys.drop_last();
        let last = keys.last();
        law_workers_are_started(d, front, p, key);
        law_workers_are_started(d, front, p, last);
        assert(!front.contains(last)) by {
            if front.contains(last) {
                let i = choose|i: int| 0 <= i < front.len() && front[i] == last;
                assert(keys[i] == keys[keys.len() - 1]);
            }
        }
        lemma_untouched(d, front, p, last);
        assert(keys.contains(key) <==> front.contains(key) || key == last) by {
            assert(keys =~= front.push(last));
            if front.contains(key) {
                let i = choose|i: int| 0 <= i < front.len() && front[i] == key;
                assert(keys[i] == key);
            }
            if key == last {
                assert(keys[keys.len() - 1] == key);
            }
            if keys.contains(key) {
                let i = choose|i: int| 0 <= i < keys.len() && keys[i] == key;
                if i < front.len() {
                    assert(front[i] == key);
                }
            }
        }
        let before = without_worker(d, front, p);
        let after = without_worker(d, keys, p);
        if !d.queues.contains_key(last) {
            assert(after == before.push(last));
            if before.contains(key) {
                let i = choose|i: int| 0 <= i < before.len() && before[i] == key;
                assert(after[i] == key);
            }
            if key == last {
                assert(after[after.len() - 1] == key);
            }
            if after.contains(key) {
                let i = choose|i: int| 0 <= i < after.len() && after[i] == key;
                if i < before.len() {
                    assert(before[i] == key);
                }
            }
            assert(!before.contains(last));
            assert(after.no_duplicates());
        }
    }
}

proof fn lemma_untouched(d: DispatchModel, keys: Seq<u64>, p: packet::PublishModel, other: u64)
    requires
        !keys.contains(other),
    ensures
        to_endpoints(d, keys, p).queues.contains_key(other) <==> d.queues.contains_key(other),
    decreases keys.len(),
{
    if keys.len() > 0 {
        let front = keys.drop_last();
        assert(keys[keys.len() - 1] != other);
        assert(!front.contains(other)) by {
            if front.contains(other) {
                let i = choose|i: int| 0 <= i < front.len() && front[i] == other;
                assert(keys[i] == other);
            }
        }
        lemma_untouched(d, front, p, other);
    }
}

} // verus!
