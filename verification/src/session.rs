//! The state of a logical session, apart from the connection that carries it.
//!
//! A session outlives its connection where the client asked for that: what was
//! sent and not acknowledged, and what was received and not released, is then
//! carried over to the next connection.
use crate::error::MqttError;
use crate::packet;
use crate::packet::PublishPacket;
use crate::pmap;
use crate::pmap::PMap;
use crate::request::{IncomingPublish, PacketId};
use crate::safety::DEFAULT_MAX_INFLIGHT_MESSAGES;
use crate::text;
use std::sync::Arc;
use vstd::prelude::*;

verus! {

/// Whoever waits for an acknowledgement. The transport gives the numbers out and
/// wakes the waiter that an acknowledgement names.
pub type Waiter = u64;

/// Which acknowledgement is awaited, and by whom.
#[derive(Debug, Clone, Copy, PartialEq, Eq, Structural)]
pub enum AckSlot {
    Puback(Waiter),
    Pubrec(Waiter),
    Pubcomp(Waiter),
    Suback(Waiter),
    Unsuback(Waiter),
}

/// What a connection agreed on. Set once.
#[derive(Debug)]
pub struct BindInfo {
    pub client_id: Arc<str>,
    pub keep_alive: u16,
}

/// The client identifier and the keep-alive.
pub type BindModel = (Seq<char>, u16);

impl View for BindInfo {
    type V = BindModel;

    open spec fn view(&self) -> BindModel {
        ((*self.client_id)@, self.keep_alive)
    }
}

impl Clone for BindInfo {
    fn clone(&self) -> (r: BindInfo)
        ensures
            r == *self,
    {
        BindInfo { client_id: self.client_id.clone(), keep_alive: self.keep_alive }
    }
}

/// A `BindInfo` that can be set once.
pub struct OnceLockBindInfo {
    inner: Option<BindInfo>,
}

impl View for OnceLockBindInfo {
    type V = Option<BindInfo>;

    closed spec fn view(&self) -> Option<BindInfo> {
        self.inner
    }
}

impl OnceLockBindInfo {
    pub fn new() -> (r: OnceLockBindInfo)
        ensures
            r@ is None,
    {
        OnceLockBindInfo { inner: None }
    }

    /// Sets the value; a second value is handed back.
    pub fn set(&mut self, info: BindInfo) -> (r: Result<(), BindInfo>)
        ensures
            old(self)@ is None ==> r is Ok && final(self)@ == Some(info),
            old(self)@ is Some ==> r == Err::<(), BindInfo>(info) && final(self)@ == old(self)@,
    {
        if self.inner.is_some() {
            return Err(info);
        }
        self.inner = Some(info);
        Ok(())
    }

    pub fn get(&self) -> (r: Option<&BindInfo>)
        ensures
            r is Some <==> self@ is Some,
            r matches Some(b) ==> *b == self@->0,
    {
        self.inner.as_ref()
    }

    pub fn client_id(&self) -> (r: Option<Arc<str>>)
        ensures
            r == (match self@ {
                Some(b) => Some(b.client_id),
                None => None,
            }),
    {
        match &self.inner {
            Some(b) => Some(b.client_id.clone()),
            None => None,
        }
    }

    pub fn keep_alive(&self) -> (r: Option<u16>)
        ensures
            r == (match self@ {
                Some(b) => Some(b.keep_alive),
                None => None,
            }),
    {
        match &self.inner {
            Some(b) => Some(b.keep_alive),
            None => None,
        }
    }
}

impl Default for OnceLockBindInfo {
    fn default() -> (r: OnceLockBindInfo)
        ensures
            r@ is None,
    {
        OnceLockBindInfo::new()
    }
}

/// The state of a logical session.
pub struct MqttSession {
    /// The last packet identifier that was tried.
    pub pkt_counter: u16,
    pub bind: OnceLockBindInfo,
    /// Inbound QoS 2 messages that await their release.
    qos2_recv: PMap<IncomingPublish>,
    /// Outbound operations that await their acknowledgement.
    pending_acks: PMap<AckSlot>,
    /// Outbound messages above QoS 0 that were not acknowledged.
    outbound_inflight: PMap<PublishPacket>,
    max_inflight: usize,
}

// ----------------------------------------------------------------------------
// Model
// ----------------------------------------------------------------------------

#[verifier::ext_equal]
pub struct SessionModel {
    pub pkt_counter: u16,
    pub bind: Option<BindModel>,
    pub qos2_recv: Map<u16, packet::PublishModel>,
    pub pending_acks: Map<u16, AckSlot>,
    pub outbound_inflight: Map<u16, packet::PublishModel>,
    pub max_inflight: usize,
}

pub open spec fn bind_model(b: Option<BindInfo>) -> Option<BindModel> {
    match b {
        Some(i) => Some(i@),
        None => None,
    }
}

spec fn received(m: Map<u16, IncomingPublish>) -> Map<u16, packet::PublishModel> {
    m.map_values(|p: IncomingPublish| p@)
}

spec fn inflight(m: Map<u16, PublishPacket>) -> Map<u16, packet::PublishModel> {
    m.map_values(|p: PublishPacket| p@)
}

impl View for MqttSession {
    type V = SessionModel;

    closed spec fn view(&self) -> SessionModel {
        SessionModel {
            pkt_counter: self.pkt_counter,
            bind: bind_model(self.bind@),
            qos2_recv: received(self.qos2_recv@),
            pending_acks: self.pending_acks@,
            outbound_inflight: inflight(self.outbound_inflight@),
            max_inflight: self.max_inflight,
        }
    }
}

/// A session in which nothing has happened.
pub open spec fn fresh_session() -> SessionModel {
    SessionModel {
        pkt_counter: 0,
        bind: None,
        qos2_recv: Map::empty(),
        pending_acks: Map::empty(),
        outbound_inflight: Map::empty(),
        max_inflight: DEFAULT_MAX_INFLIGHT_MESSAGES,
    }
}

/// Whether a packet identifier is in use.
pub open spec fn in_use(s: SessionModel, id: u16) -> bool {
    s.outbound_inflight.contains_key(id) || s.pending_acks.contains_key(id)
}

/// The counter's next value: one more, and 0 behind the largest.
pub open spec fn next_count(c: u16) -> u16 {
    if c == u16::MAX {
        0
    } else {
        (c + 1) as u16
    }
}

/// The identifier for a counter value: never 0.
pub open spec fn id_for(c: u16) -> u16 {
    if c == 0 {
        1
    } else {
        c
    }
}

/// The first identifier behind the counter that is not in use, within `left`
/// steps, and where the counter then stands.
pub open spec fn find_free(s: SessionModel, c: u16, left: nat) -> (Option<u16>, u16)
    decreases left,
{
    if left == 0 {
        (None, c)
    } else {
        let n = next_count(c);
        if !in_use(s, id_for(n)) {
            (Some(id_for(n)), n)
        } else {
            find_free(s, n, (left - 1) as nat)
        }
    }
}

/// An allocation: once round the whole space.
pub open spec fn allocation(s: SessionModel) -> (Option<u16>, u16) {
    find_free(s, s.pkt_counter, 65536)
}

/// The session after an allocation.
pub open spec fn after_allocation(s: SessionModel) -> SessionModel {
    SessionModel { pkt_counter: allocation(s).1, ..s }
}

pub open spec fn stash_outbound(s: SessionModel, id: u16, p: packet::PublishModel) -> SessionModel {
    SessionModel { outbound_inflight: s.outbound_inflight.insert(id, p), ..s }
}

pub open spec fn forget_outbound(s: SessionModel, id: u16) -> SessionModel {
    SessionModel { outbound_inflight: s.outbound_inflight.remove(id), ..s }
}

pub open spec fn drop_slot(s: SessionModel, id: u16) -> SessionModel {
    SessionModel { pending_acks: s.pending_acks.remove(id), ..s }
}

/// The session without its waiters.
pub open spec fn abandoned(s: SessionModel) -> SessionModel {
    SessionModel { pending_acks: Map::empty(), ..s }
}

/// The session without anything to resume.
pub open spec fn wiped(s: SessionModel) -> SessionModel {
    SessionModel {
        pending_acks: Map::empty(),
        qos2_recv: Map::empty(),
        outbound_inflight: Map::empty(),
        ..s
    }
}

/// A session that has taken over what another one left to resume.
pub open spec fn resumed(s: SessionModel, from: SessionModel) -> SessionModel {
    SessionModel {
        pkt_counter: from.pkt_counter,
        qos2_recv: s.qos2_recv.union_prefer_right(from.qos2_recv),
        outbound_inflight: s.outbound_inflight.union_prefer_right(from.outbound_inflight),
        ..s
    }
}

/// The session that was left behind.
pub open spec fn left_behind(from: SessionModel) -> SessionModel {
    SessionModel { qos2_recv: Map::empty(), outbound_inflight: Map::empty(), ..from }
}

// ----------------------------------------------------------------------------
// Laws
// ----------------------------------------------------------------------------

proof fn lemma_find_free(s: SessionModel, c: u16, left: nat)
    ensures
        find_free(s, c, left).0 matches Some(id) ==> id != 0 && !in_use(s, id),
        find_free(s, c, left).0 is None ==> forall|k: int|
            1 <= k <= left ==> in_use(s, id_for(#[trigger] ((c + k) % 65536) as u16)),
    decreases left,
{
    if left > 0 {
        let n = next_count(c);
        lemma_find_free(s, n, (left - 1) as nat);
        assert(n == (c + 1) % 65536);
        if find_free(s, c, left).0 is None {
            assert forall|k: int| 1 <= k <= left implies in_use(
                s,
                id_for(#[trigger] ((c + k) % 65536) as u16),
            ) by {
                if k > 1 {
                    assert((n + (k - 1)) % 65536 == (c + k) % 65536);
                    assert(in_use(s, id_for(((n + (k - 1)) % 65536) as u16)));
                }
            }
        }
    }
}

/// An allocated packet identifier is not 0 and not in use; and none is allocated
/// only where all 65 535 are in use.
pub proof fn law_allocation(s: SessionModel)
    ensures
        allocation(s).0 matches Some(id) ==> id != 0 && !in_use(s, id),
        allocation(s).0 is None <==> forall|id: u16| id != 0 ==> #[trigger] in_use(s, id),
{
    let c = s.pkt_counter;
    lemma_find_free(s, c, 65536);
    if allocation(s).0 is None {
        assert forall|id: u16| id != 0 implies #[trigger] in_use(s, id) by {
            let k: int = if id > c {
                id - c
            } else {
                id - c + 65536
            };
            assert((c + k) % 65536 == id);
            assert(in_use(s, id_for(((c + k) % 65536) as u16)));
        }
    }
}

/// Two identifiers that are allocated one behind the other, with the first in use
/// by then, are different.
pub proof fn law_allocations_differ(s: SessionModel, p: packet::PublishModel)
    requires
        allocation(s).0 is Some,
    ensures
        ({
            let id = allocation(s).0->0;
            let t = stash_outbound(after_allocation(s), id, p);
            allocation(t).0 != Some(id)
        }),
{
    let id = allocation(s).0->0;
    let t = stash_outbound(after_allocation(s), id, p);
    law_allocation(t);
    assert(in_use(t, id));
}

/// A session that is wiped after it was abandoned is the session wiped at once,
/// and wiping twice is wiping once.
pub proof fn law_teardown_idempotent(s: SessionModel)
    ensures
        abandoned(abandoned(s)) == abandoned(s),
        wiped(abandoned(s)) == wiped(s),
        wiped(wiped(s)) == wiped(s),
{
}

/// A fresh session that takes over what another one left to resume holds exactly
/// that, under the same packet identifiers; the other one holds nothing of it.
pub proof fn law_resume_moves_state(from: SessionModel)
    ensures
        ({
            let s = resumed(fresh_session(), from);
            &&& s.outbound_inflight == from.outbound_inflight
            &&& s.qos2_recv == from.qos2_recv
            &&& s.pkt_counter == from.pkt_counter
            &&& s.pending_acks == fresh_session().pending_acks
            &&& left_behind(from).outbound_inflight.is_empty()
            &&& left_behind(from).qos2_recv.is_empty()
        }),
{
    let s = resumed(fresh_session(), from);
    assert(s.outbound_inflight =~= from.outbound_inflight);
    assert(s.qos2_recv =~= from.qos2_recv);
}

/// What is left of a session: without its waiters it has everything else as it was;
/// wiped it also has nothing in flight and nothing half received, but is still bound,
/// counts on where it was and has its limit.
pub proof fn law_what_teardown_leaves(s: SessionModel)
    ensures
        abandoned(s).pending_acks == Map::<u16, AckSlot>::empty(),
        abandoned(s).outbound_inflight == s.outbound_inflight,
        abandoned(s).qos2_recv == s.qos2_recv,
        abandoned(s).pkt_counter == s.pkt_counter,
        abandoned(s).bind == s.bind,
        abandoned(s).max_inflight == s.max_inflight,
        wiped(s).pending_acks == Map::<u16, AckSlot>::empty(),
        wiped(s).outbound_inflight == Map::<u16, packet::PublishModel>::empty(),
        wiped(s).qos2_recv == Map::<u16, packet::PublishModel>::empty(),
        wiped(s).pkt_counter == s.pkt_counter,
        wiped(s).bind == s.bind,
        wiped(s).max_inflight == s.max_inflight,
        left_behind(s).pending_acks == s.pending_acks,
        left_behind(s).bind == s.bind,
        left_behind(s).pkt_counter == s.pkt_counter,
{
}

/// A session starts with nothing: no identifier was used, nobody waits, nothing is in
/// flight or half received, and it is bound to no client.
pub proof fn law_fresh_session_is_empty()
    ensures
        fresh_session().pkt_counter == 0,
        fresh_session().bind is None,
        fresh_session().pending_acks == Map::<u16, AckSlot>::empty(),
        fresh_session().outbound_inflight == Map::<u16, packet::PublishModel>::empty(),
        fresh_session().qos2_recv == Map::<u16, packet::PublishModel>::empty(),
        fresh_session().max_inflight == 20,
{
}

/// A session that takes over another one's state keeps what it has itself, but for
/// what stands under the same identifier in the other; who waits, to whom it is bound
/// and its limit are its own.
pub proof fn law_resume_merges(s: SessionModel, from: SessionModel, id: u16)
    ensures
        ({
            let t = resumed(s, from);
            &&& t.outbound_inflight.contains_key(id) <==> s.outbound_inflight.contains_key(id)
                || from.outbound_inflight.contains_key(id)
            &&& from.outbound_inflight.contains_key(id) ==> t.outbound_inflight[id]
                == from.outbound_inflight[id]
            &&& s.outbound_inflight.contains_key(id) && !from.outbound_inflight.contains_key(id)
                ==> t.outbound_inflight[id] == s.outbound_inflight[id]
            &&& t.qos2_recv.contains_key(id) <==> s.qos2_recv.contains_key(id)
                || from.qos2_recv.contains_key(id)
            &&& from.qos2_recv.contains_key(id) ==> t.qos2_recv[id] == from.qos2_recv[id]
            &&& s.qos2_recv.contains_key(id) && !from.qos2_recv.contains_key(id)
                ==> t.qos2_recv[id] == s.qos2_recv[id]
            &&& t.pkt_counter == from.pkt_counter
            &&& t.pending_acks == s.pending_acks
            &&& t.bind == s.bind
            &&& t.max_inflight == s.max_inflight
        }),
{
}

/// What an outbound message does to a session, kept and forgotten: it stands under its
/// identifier and then no longer, and every other one is untouched.
pub proof fn law_stash_and_forget(s: SessionModel, id: u16, p: packet::PublishModel, other: u16)
    ensures
        stash_outbound(s, id, p).outbound_inflight.contains_key(id),
        stash_outbound(s, id, p).outbound_inflight[id] == p,
        !forget_outbound(s, id).outbound_inflight.contains_key(id),
        !drop_slot(s, id).pending_acks.contains_key(id),
        other != id ==> {
            &&& stash_outbound(s, id, p).outbound_inflight.contains_key(other)
                <==> s.outbound_inflight.contains_key(other)
            &&& forget_outbound(s, id).outbound_inflight.contains_key(other)
                <==> s.outbound_inflight.contains_key(other)
            &&& drop_slot(s, id).pending_acks.contains_key(other)
                <==> s.pending_acks.contains_key(other)
            &&& s.outbound_inflight.contains_key(other) ==> {
                &&& stash_outbound(s, id, p).outbound_inflight[other] == s.outbound_inflight[other]
                &&& forget_outbound(s, id).outbound_inflight[other] == s.outbound_inflight[other]
            }
            &&& s.pending_acks.contains_key(other) ==> drop_slot(s, id).pending_acks[other]
                == s.pending_acks[other]
        },
        stash_outbound(s, id, p).pending_acks == s.pending_acks,
        forget_outbound(s, id).pending_acks == s.pending_acks,
        drop_slot(s, id).outbound_inflight == s.outbound_inflight,
        stash_outbound(s, id, p).qos2_recv == s.qos2_recv,
        forget_outbound(s, id).qos2_recv == s.qos2_recv,
        drop_slot(s, id).qos2_recv == s.qos2_recv,
        stash_outbound(s, id, p).pkt_counter == s.pkt_counter,
        forget_outbound(s, id).pkt_counter == s.pkt_counter,
        drop_slot(s, id).pkt_counter == s.pkt_counter,
{
}

/// The identifier `k` steps behind a counter that goes round the numbers from 0 to
/// 65 535; in the place of 0 stands 1.
pub open spec fn id_behind(counter: u16, k: int) -> int {
    if (counter + k) % 65536 == 0 {
        1
    } else {
        (counter + k) % 65536
    }
}

/// Whether an identifier waits for an acknowledgement or names what is in flight.
pub open spec fn taken(s: SessionModel, id: int) -> bool {
    0 <= id < 65536 && (s.outbound_inflight.contains_key(id as u16) || s.pending_acks.contains_key(
        id as u16,
    ))
}

proof fn lemma_find_next(s: SessionModel, c: u16, left: nat) -> (k: int)
    ensures
        find_free(s, c, left).0 is Some ==> {
            &&& 1 <= k <= left
            &&& find_free(s, c, left).0->0 == id_behind(c, k)
            &&& !taken(s, id_behind(c, k))
            &&& find_free(s, c, left).1 == (c + k) % 65536
            &&& forall|j: int| 1 <= j < k ==> #[trigger] taken(s, id_behind(c, j))
        },
    decreases left,
{
    if left == 0 {
        0
    } else {
        let n = next_count(c);
        assert(n == (c + 1) % 65536);
        if !in_use(s, id_for(n)) {
            1
        } else {
            let k = lemma_find_next(s, n, (left - 1) as nat);
            assert forall|j: int| find_free(s, c, left).0 is Some && 1 <= j
                < k + 1 implies #[trigger] taken(s, id_behind(c, j)) by {
                if j > 1 {
                    assert((n + (j - 1)) % 65536 == (c + j) % 65536);
                    assert(taken(s, id_behind(n, j - 1)));
                }
            }
            assert((n + k) % 65536 == (c + (k + 1)) % 65536);
            k + 1
        }
    }
}

/// Identifiers are given out in turn: an allocation takes the first one behind the
/// counter that is not taken, and the counter then stands there. Nothing else of the
/// session changes.
pub proof fn law_allocation_in_turn(s: SessionModel)
    requires
        allocation(s).0 is Some,
    ensures
        exists|k: int|
            1 <= k <= 65536 && allocation(s).0->0 == #[trigger] id_behind(s.pkt_counter, k) && !taken(
                s,
                id_behind(s.pkt_counter, k),
            ) && after_allocation(s).pkt_counter == (s.pkt_counter + k) % 65536 && forall|j: int|
                1 <= j < k ==> #[trigger] taken(s, id_behind(s.pkt_counter, j)),
        after_allocation(s).outbound_inflight == s.outbound_inflight,
        after_allocation(s).pending_acks == s.pending_acks,
        after_allocation(s).qos2_recv == s.qos2_recv,
        after_allocation(s).bind == s.bind,
        after_allocation(s).max_inflight == s.max_inflight,
{
    let k = lemma_find_next(s, s.pkt_counter, 65536);
    assert(allocation(s).0->0 == id_behind(s.pkt_counter, k));
}

/// What is sent again is what is in flight, with the duplicate flag set and everything
/// else as it was.
pub proof fn law_duplicates_are_marked(m: Map<u16, packet::PublishModel>, id: u16)
    ensures
        as_duplicates(m).contains_key(id) <==> m.contains_key(id),
        m.contains_key(id) ==> {
            &&& as_duplicates(m)[id].dup
            &&& as_duplicates(m)[id].topic == m[id].topic
            &&& as_duplicates(m)[id].payload == m[id].payload
            &&& as_duplicates(m)[id].qos == m[id].qos
            &&& as_duplicates(m)[id].retain == m[id].retain
            &&& as_duplicates(m)[id].packet_id == m[id].packet_id
            &&& as_duplicates(m)[id].properties == m[id].properties
        },
{
}

// ----------------------------------------------------------------------------
// Executable functions
// ----------------------------------------------------------------------------

/// The slots with their identifiers, in ascending order of the identifiers.
pub open spec fn lists_slots(r: Seq<(PacketId, AckSlot)>, m: Map<u16, AckSlot>) -> bool {
    &&& forall|i: int, j: int|
        0 <= i < j < r.len() ==> (#[trigger] r[i]).0 < (#[trigger] r[j]).0
    &&& forall|i: int|
        0 <= i < r.len() ==> m.contains_key((#[trigger] r[i]).0) && m[r[i].0] == r[i].1
    &&& forall|id: u16| #[trigger]
        m.contains_key(id) ==> exists|i: int| 0 <= i < r.len() && (#[trigger] r[i]).0 == id
}

/// The messages with their identifiers, in ascending order of the identifiers.
pub open spec fn lists_messages(
    r: Seq<(PacketId, PublishPacket)>,
    m: Map<u16, packet::PublishModel>,
) -> bool {
    &&& forall|i: int, j: int|
        0 <= i < j < r.len() ==> (#[trigger] r[i]).0 < (#[trigger] r[j]).0
    &&& forall|i: int|
        0 <= i < r.len() ==> m.contains_key((#[trigger] r[i]).0) && r[i].1@ == m[r[i].0]
    &&& forall|id: u16| #[trigger]
        m.contains_key(id) ==> exists|i: int| 0 <= i < r.len() && (#[trigger] r[i]).0 == id
}

/// The messages as they are sent again: marked as duplicates.
pub open spec fn as_duplicates(m: Map<u16, packet::PublishModel>) -> Map<
    u16,
    packet::PublishModel,
> {
    m.map_values(|p: packet::PublishModel| packet::PublishModel { dup: true, ..p })
}

impl MqttSession {
    pub fn new() -> (r: MqttSession)
        ensures
            r@ == fresh_session(),
    {
        let r = MqttSession {
            pkt_counter: 0,
            bind: OnceLockBindInfo::new(),
            qos2_recv: PMap::new(),
            pending_acks: PMap::new(),
            outbound_inflight: PMap::new(),
            max_inflight: DEFAULT_MAX_INFLIGHT_MESSAGES,
        };
        assert(r@ =~= fresh_session());
        r
    }

    /// Sets what the connection agreed on, where that was not set before.
    pub fn bind_once(&mut self, info: BindInfo)
        ensures
            old(self)@.bind is None ==> final(self)@ == (SessionModel {
                bind: Some(info@),
                ..old(self)@
            }),
            old(self)@.bind is Some ==> final(self)@ == old(self)@,
    {
        let _r = self.bind.set(info);
    }

    /// Allocates the next packet identifier: neither 0 nor one in use.
    pub fn try_allocate_packet_id(&mut self) -> (r: Option<u16>)
        ensures
            r == allocation(old(self)@).0,
            final(self)@ == after_allocation(old(self)@),
    {
        let ghost s = self@;
        let mut step: u32 = 0;
        while step < 65536
            invariant
                step <= 65536,
                self@ == (SessionModel { pkt_counter: self.pkt_counter, ..s }),
                s == old(self)@,
                allocation(s) == find_free(s, self.pkt_counter, (65536 - step) as nat),
            decreases 65536 - step,
        {
            let n: u16 = if self.pkt_counter == u16::MAX {
                0
            } else {
                self.pkt_counter + 1
            };
            let id: u16 = if n == 0 {
                1
            } else {
                n
            };
            self.pkt_counter = n;
            proof {
                assert(s.outbound_inflight.contains_key(id) <==> self.outbound_inflight@.contains_key(
                    id,
                ));
            }
            if !self.outbound_inflight.contains_key(id) && !self.pending_acks.contains_key(id) {
                return Some(id);
            }
            step += 1;
        }
        None
    }

    /// Allocates a packet identifier for an outbound operation of a client, where
    /// fewer operations than allowed await their acknowledgement.
    pub fn allocate_client_packet_id(&mut self) -> (r: Result<u16, MqttError>)
        ensures
            ({
                let s = old(self)@;
                let full = MqttError::TooManyInflight { limit: s.max_inflight };
                if s.pending_acks.len() >= s.max_inflight {
                    r == Err::<u16, MqttError>(full) && final(self)@ == s
                } else {
                    &&& final(self)@ == after_allocation(s)
                    &&& r == (match allocation(s).0 {
                        Some(id) => Ok(id),
                        None => Err(full),
                    })
                }
            }),
    {
        let limit: usize = self.max_inflight();
        if self.outstanding_ack_count() >= limit {
            return Err(MqttError::TooManyInflight { limit });
        }
        match self.try_allocate_packet_id() {
            Some(id) => Ok(id),
            None => Err(MqttError::TooManyInflight { limit }),
        }
    }

    /// The number of outbound operations that await their acknowledgement.
    pub fn outstanding_ack_count(&self) -> (r: usize)
        ensures
            r == self@.pending_acks.len(),
    {
        self.pending_acks.len()
    }

    /// Sets the most outbound operations that may await their acknowledgement; at
    /// least one always may.
    pub fn set_max_inflight(&mut self, n: usize)
        ensures
            final(self)@ == (SessionModel {
                max_inflight: if n == 0 {
                    1
                } else {
                    n
                },
                ..old(self)@
            }),
    {
        self.max_inflight = if n == 0 {
            1
        } else {
            n
        };
    }

    pub fn max_inflight(&self) -> (r: usize)
        ensures
            r == self@.max_inflight,
    {
        self.max_inflight
    }

    /// Allocates a packet identifier where one is free.
    pub fn allocate_packet_id(&mut self) -> (r: u16)
        requires
            exists|id: u16| id != 0 && !#[trigger] in_use(old(self)@, id),
        ensures
            allocation(old(self)@).0 == Some(r),
            r != 0,
            !in_use(old(self)@, r),
            final(self)@ == after_allocation(old(self)@),
    {
        proof {
            law_allocation(self@);
        }
        self.try_allocate_packet_id().unwrap()
    }

    /// Drops every waiter, as the end of a connection does, and returns them. What
    /// is left to resume stays.
    pub fn abandon(&mut self) -> (r: Vec<(PacketId, AckSlot)>)
        ensures
            lists_slots(r@, old(self)@.pending_acks),
            final(self)@ == abandoned(old(self)@),
    {
        let ids: Vec<u16> = self.pending_acks.keys();
        let ghost all = self.pending_acks@;
        let mut out: Vec<(PacketId, AckSlot)> = Vec::new();
        let mut i: usize = 0;
        while i < ids.len()
            invariant
                i <= ids@.len(),
                all == self.pending_acks@,
                self@ == old(self)@,
                pmap::lists_keys(ids@, all),
                out@.len() == i,
                forall|k: int|
                    0 <= k < i ==> (#[trigger] out@[k]).0 == ids@[k] && all.contains_key(ids@[k])
                        && out@[k].1 == all[ids@[k]],
            decreases ids@.len() - i,
        {
            let id: u16 = ids[i];
            assert(ids@.contains(id));
            assert(all.contains_key(id));
            match self.pending_acks.get(id) {
                Some(slot) => {
                    out.push((id, *slot));
                },
                None => {},
            }
            i += 1;
        }
        proof {
            assert forall|id: u16| #[trigger] all.contains_key(id) implies exists|k: int|
                0 <= k < out@.len() && (#[trigger] out@[k]).0 == id by {
                let k = choose|k: int| 0 <= k < ids@.len() && ids@[k] == id;
                assert(out@[k].0 == id);
            }
        }
        self.pending_acks.clear();
        out
    }

    /// Drops every waiter and everything that is left to resume, and returns the
    /// waiters.
    pub fn wipe(&mut self) -> (r: Vec<(PacketId, AckSlot)>)
        ensures
            lists_slots(r@, old(self)@.pending_acks),
            final(self)@ == wiped(old(self)@),
    {
        let r = self.abandon();
        self.qos2_recv.clear();
        self.outbound_inflight.clear();
        proof {
            assert(received(self.qos2_recv@) =~= Map::<u16, packet::PublishModel>::empty());
            assert(inflight(self.outbound_inflight@) =~= Map::<u16, packet::PublishModel>::empty());
        }
        r
    }

    /// Every message that was not acknowledged, as it is sent again. Nothing
    /// leaves the session.
    pub fn drain_outbound_for_retransmit(&self) -> (r: Vec<(PacketId, PublishPacket)>)
        ensures
            lists_messages(r@, as_duplicates(self@.outbound_inflight)),
    {
        let ids: Vec<u16> = self.outbound_inflight.keys();
        let ghost all = self.outbound_inflight@;
        let ghost want = as_duplicates(self@.outbound_inflight);
        let mut out: Vec<(PacketId, PublishPacket)> = Vec::new();
        let mut i: usize = 0;
        while i < ids.len()
            invariant
                i <= ids@.len(),
                all == self.outbound_inflight@,
                want == as_duplicates(self@.outbound_inflight),
                pmap::lists_keys(ids@, all),
                out@.len() == i,
                forall|k: int|
                    0 <= k < i ==> (#[trigger] out@[k]).0 == ids@[k] && want.contains_key(ids@[k])
                        && out@[k].1@ == want[ids@[k]],
            decreases ids@.len() - i,
        {
            let id: u16 = ids[i];
            assert(ids@.contains(id));
            assert(all.contains_key(id));
            assert(self@.outbound_inflight.contains_key(id));
            match self.outbound_inflight.get(id) {
                Some(p) => {
                    let mut again = p.clone();
                    again.dup = true;
                    assert(again@ =~= packet::PublishModel { dup: true, ..p@ });
                    out.push((id, again));
                },
                None => {},
            }
            i += 1;
        }
        proof {
            assert forall|id: u16| #[trigger] want.contains_key(id) implies exists|k: int|
                0 <= k < out@.len() && (#[trigger] out@[k]).0 == id by {
                assert(self@.outbound_inflight.contains_key(id));
                assert(all.contains_key(id));
                let k = choose|k: int| 0 <= k < ids@.len() && ids@[k] == id;
                assert(out@[k].0 == id);
            }
        }
        out
    }

    /// Moves what another session left to resume into this one.
    pub fn import_persistent_state(&mut self, source: &mut MqttSession)
        ensures
            final(self)@ == resumed(old(self)@, old(source)@),
            final(source)@ == left_behind(old(source)@),
    {
        let out_ids: Vec<u16> = source.outbound_inflight.keys();
        let ghost out_all = source.outbound_inflight@;
        let ghost out_own = self.outbound_inflight@;
        let mut i: usize = 0;
        proof {
            assert(out_ids@.subrange(0, 0) =~= Seq::<u16>::empty());
        }
        while i < out_ids.len()
            invariant
                i <= out_ids@.len(),
                pmap::lists_keys(out_ids@, out_all),
                self@ == (SessionModel { outbound_inflight: inflight(self.outbound_inflight@), ..old(
                    self,
                )@ }),
                source@ == (SessionModel {
                    outbound_inflight: inflight(source.outbound_inflight@),
                    ..old(source)@
                }),
                forall|id: u16| #[trigger]
                    source.outbound_inflight@.contains_key(id) <==> out_all.contains_key(id)
                        && !out_ids@.subrange(0, i as int).contains(id),
                forall|id: u16| #[trigger]
                    source.outbound_inflight@.contains_key(id) ==> source.outbound_inflight@[id]
                        == out_all[id],
                forall|id: u16| #[trigger]
                    self.outbound_inflight@.contains_key(id) <==> out_own.contains_key(id)
                        || out_ids@.subrange(0, i as int).contains(id),
                forall|id: u16| #[trigger]
                    self.outbound_inflight@.contains_key(id) ==> self.outbound_inflight@[id] == (
                    if out_ids@.subrange(0, i as int).contains(id) {
                        out_all[id]
                    } else {
                        out_own[id]
                    }),
            decreases out_ids@.len() - i,
        {
            let id: u16 = out_ids[i];
            let ghost done = out_ids@.subrange(0, i as int);
            proof {
                assert(out_ids@.contains(id));
                assert(out_all.contains_key(id));
                if done.contains(id) {
                    let k = choose|k: int| 0 <= k < done.len() && done[k] == id;
                    assert(out_ids@[k] < out_ids@[i as int]);
                }
                lemma_done(out_ids@, i as int);
            }
            match source.outbound_inflight.remove(id) {
                Some(p) => {
                    let _r = self.outbound_inflight.insert(id, p);
                },
                None => {},
            }
            i += 1;
        }
        proof {
            assert(out_ids@.subrange(0, out_ids@.len() as int) =~= out_ids@);
            assert(inflight(self.outbound_inflight@) =~= inflight(out_own).union_prefer_right(
                inflight(out_all),
            )) by {
                assert forall|id: u16| #[trigger]
                    inflight(self.outbound_inflight@).contains_key(id) implies inflight(
                    self.outbound_inflight@,
                )[id] == inflight(out_own).union_prefer_right(inflight(out_all))[id] by {
                    assert(self.outbound_inflight@.contains_key(id));
                    assert(out_all.contains_key(id) <==> out_ids@.contains(id));
                }
                assert forall|id: u16| inflight(self.outbound_inflight@).contains_key(id)
                    <==> inflight(out_own).union_prefer_right(inflight(out_all)).contains_key(
                    id,
                ) by {
                    assert(out_all.contains_key(id) <==> out_ids@.contains(id));
                    assert(self.outbound_inflight@.contains_key(id) <==> out_own.contains_key(id)
                        || out_ids@.contains(id));
                }
            }
            assert(inflight(source.outbound_inflight@) =~= Map::<
                u16,
                packet::PublishModel,
            >::empty()) by {
                assert forall|id: u16| !source.outbound_inflight@.contains_key(id) by {
                    assert(out_all.contains_key(id) <==> out_ids@.contains(id));
                }
            }
        }
        let ghost mid_self = self@;
        let ghost mid_source = source@;
        let in_ids: Vec<u16> = source.qos2_recv.keys();
        let ghost in_all = source.qos2_recv@;
        let ghost in_own = self.qos2_recv@;
        let mut j: usize = 0;
        proof {
            assert(in_ids@.subrange(0, 0) =~= Seq::<u16>::empty());
        }
        while j < in_ids.len()
            invariant
                j <= in_ids@.len(),
                pmap::lists_keys(in_ids@, in_all),
                self@ == (SessionModel { qos2_recv: received(self.qos2_recv@), ..mid_self }),
                source@ == (SessionModel { qos2_recv: received(source.qos2_recv@), ..mid_source }),
                forall|id: u16| #[trigger]
                    source.qos2_recv@.contains_key(id) <==> in_all.contains_key(id)
                        && !in_ids@.subrange(0, j as int).contains(id),
                forall|id: u16| #[trigger]
                    source.qos2_recv@.contains_key(id) ==> source.qos2_recv@[id] == in_all[id],
                forall|id: u16| #[trigger]
                    self.qos2_recv@.contains_key(id) <==> in_own.contains_key(id)
                        || in_ids@.subrange(0, j as int).contains(id),
                forall|id: u16| #[trigger]
                    self.qos2_recv@.contains_key(id) ==> self.qos2_recv@[id] == (
                    if in_ids@.subrange(0, j as int).contains(id) {
                        in_all[id]
                    } else {
                        in_own[id]
                    }),
            decreases in_ids@.len() - j,
        {
            let id: u16 = in_ids[j];
            let ghost done = in_ids@.subrange(0, j as int);
            proof {
                assert(in_ids@.contains(id));
                assert(in_all.contains_key(id));
                if done.contains(id) {
                    let k = choose|k: int| 0 <= k < done.len() && done[k] == id;
                    assert(in_ids@[k] < in_ids@[j as int]);
                }
                lemma_done(in_ids@, j as int);
            }
            match source.qos2_recv.remove(id) {
                Some(p) => {
                    let _r = self.qos2_recv.insert(id, p);
                },
                None => {},
            }
            j += 1;
        }
        proof {
            assert(in_ids@.subrange(0, in_ids@.len() as int) =~= in_ids@);
            assert(received(self.qos2_recv@) =~= received(in_own).union_prefer_right(
                received(in_all),
            )) by {
                assert forall|id: u16| #[trigger]
                    received(self.qos2_recv@).contains_key(id) implies received(
                    self.qos2_recv@,
                )[id] == received(in_own).union_prefer_right(received(in_all))[id] by {
                    assert(self.qos2_recv@.contains_key(id));
                    assert(in_all.contains_key(id) <==> in_ids@.contains(id));
                }
                assert forall|id: u16| received(self.qos2_recv@).contains_key(id) <==> received(
                    in_own,
                ).union_prefer_right(received(in_all)).contains_key(id) by {
                    assert(in_all.contains_key(id) <==> in_ids@.contains(id));
                    assert(self.qos2_recv@.contains_key(id) <==> in_own.contains_key(id)
                        || in_ids@.contains(id));
                }
            }
            assert(received(source.qos2_recv@) =~= Map::<u16, packet::PublishModel>::empty()) by {
                assert forall|id: u16| !source.qos2_recv@.contains_key(id) by {
                    assert(in_all.contains_key(id) <==> in_ids@.contains(id));
                }
            }
        }
        self.pkt_counter = source.pkt_counter;
    }

    /// Installs the slot of an operation that awaits its acknowledgement, and
    /// returns the slot that it displaced.
    pub fn install_ack_slot(&mut self, id: PacketId, slot: AckSlot) -> (r: Option<AckSlot>)
        ensures
            final(self)@ == (SessionModel {
                pending_acks: old(self)@.pending_acks.insert(id, slot),
                ..old(self)@
            }),
            r == (if old(self)@.pending_acks.contains_key(id) {
                Some(old(self)@.pending_acks[id])
            } else {
                None
            }),
    {
        self.pending_acks.insert(id, slot)
    }

    /// Takes a slot out.
    pub fn take_ack_slot(&mut self, id: PacketId) -> (r: Option<AckSlot>)
        ensures
            final(self)@ == drop_slot(old(self)@, id),
            r == (if old(self)@.pending_acks.contains_key(id) {
                Some(old(self)@.pending_acks[id])
            } else {
                None
            }),
    {
        self.pending_acks.remove(id)
    }

    /// Keeps an inbound QoS 2 message until it is released.
    pub fn stash_qos2_inbound(&mut self, id: PacketId, incoming: IncomingPublish)
        ensures
            final(self)@ == (SessionModel {
                qos2_recv: old(self)@.qos2_recv.insert(id, incoming@),
                ..old(self)@
            }),
    {
        let _r = self.qos2_recv.insert(id, incoming);
        assert(received(self.qos2_recv@) =~= received(old(self).qos2_recv@).insert(id, incoming@));
    }

    /// Takes an inbound QoS 2 message out for its release.
    pub fn take_qos2_inbound(&mut self, id: PacketId) -> (r: Option<IncomingPublish>)
        ensures
            final(self)@ == (SessionModel {
                qos2_recv: old(self)@.qos2_recv.remove(id),
                ..old(self)@
            }),
            r is Some <==> old(self)@.qos2_recv.contains_key(id),
            r matches Some(p) ==> p@ == old(self)@.qos2_recv[id],
    {
        let r = self.qos2_recv.remove(id);
        proof {
            assert(received(self.qos2_recv@) =~= received(old(self).qos2_recv@).remove(id));
            assert(old(self)@.qos2_recv.contains_key(id) <==> old(self).qos2_recv@.contains_key(id));
        }
        r
    }

    /// Whether an inbound QoS 2 message is kept under this identifier.
    pub fn has_qos2_inbound(&self, id: PacketId) -> (r: bool)
        ensures
            r == self@.qos2_recv.contains_key(id),
    {
        self.qos2_recv.contains_key(id)
    }

    /// The number of inbound QoS 2 messages that await their release.
    pub fn qos2_inbound_len(&self) -> (r: usize)
        ensures
            r == self@.qos2_recv.len(),
    {
        proof {
            assert(received(self.qos2_recv@).dom() =~= self.qos2_recv@.dom());
        }
        self.qos2_recv.len()
    }

    /// Keeps an outbound message until it is acknowledged.
    pub fn stash_outbound_inflight(&mut self, id: PacketId, packet: PublishPacket)
        ensures
            final(self)@ == stash_outbound(old(self)@, id, packet@),
    {
        let _r = self.outbound_inflight.insert(id, packet);
        assert(inflight(self.outbound_inflight@) =~= inflight(old(self).outbound_inflight@).insert(
            id,
            packet@,
        ));
    }

    /// The number of outbound messages that were not acknowledged.
    pub fn outbound_inflight_len(&self) -> (r: usize)
        ensures
            r == self@.outbound_inflight.len(),
    {
        proof {
            assert(inflight(self.outbound_inflight@).dom() =~= self.outbound_inflight@.dom());
        }
        self.outbound_inflight.len()
    }

    /// Settles a PUBACK: the message is forgotten, the slot under its identifier
    /// goes, and the waiter is returned where that slot awaited a PUBACK.
    pub fn discharge_outbound_puback(&mut self, id: PacketId) -> (r: Option<Waiter>)
        ensures
            final(self)@ == drop_slot(forget_outbound(old(self)@, id), id),
            r == (if old(self)@.pending_acks.contains_key(id) {
                match old(self)@.pending_acks[id] {
                    AckSlot::Puback(w) => Some(w),
                    _ => None,
                }
            } else {
                None
            }),
    {
        self.forget_outbound_inflight(id);
        match self.take_ack_slot(id) {
            Some(AckSlot::Puback(w)) => Some(w),
            _ => None,
        }
    }

    /// Forgets an outbound message.
    pub fn forget_outbound_inflight(&mut self, id: PacketId)
        ensures
            final(self)@ == forget_outbound(old(self)@, id),
    {
        let _r = self.outbound_inflight.remove(id);
        assert(inflight(self.outbound_inflight@) =~= inflight(old(self).outbound_inflight@).remove(
            id,
        ));
    }
}

impl MqttSession {
    /// The client identifier, once it is bound.
    pub fn client_id(&self) -> (r: Option<Arc<str>>)
        ensures
            text::opt_chars(r) == (match self@.bind {
                Some(b) => Some(b.0),
                None => None,
            }),
    {
        self.bind.client_id()
    }

    /// The keep-alive, once it is bound.
    pub fn keep_alive(&self) -> (r: Option<u16>)
        ensures
            r == (match self@.bind {
                Some(b) => Some(b.1),
                None => None,
            }),
    {
        self.bind.keep_alive()
    }
}

/// One more key done.
proof fn lemma_done(ids: Seq<u16>, i: int)
    requires
        0 <= i < ids.len(),
    ensures
        forall|id: u16| #[trigger]
            ids.subrange(0, i + 1).contains(id) <==> (ids.subrange(0, i).contains(id) || id
                == ids[i]),
{
    let a = ids.subrange(0, i);
    let b = ids.subrange(0, i + 1);
    assert forall|id: u16| #[trigger] b.contains(id) <==> (a.contains(id) || id == ids[i]) by {
        if b.contains(id) {
            let k = choose|k: int| 0 <= k < b.len() && b[k] == id;
            if k < i {
                assert(a[k] == id);
            }
        }
        if a.contains(id) {
            let k = choose|k: int| 0 <= k < a.len() && a[k] == id;
            assert(b[k] == id);
        }
        if id == ids[i] {
            assert(b[i] == id);
        }
    }
}

} // verus!
