//! Delivery of one message to one subscriber, and the table of connections.
use crate::broker::safety;
use crate::broker::safety::SlowConsumerPolicy;
use crate::channel;
use crate::channel::MqttChannel;
use crate::error::MqttError;
use crate::packet;
use crate::packet::PublishPacket;
use crate::request::QoS;
use crate::session;
use std::collections::BTreeMap;
use vstd::prelude::*;
use vstd::std_specs::btree::*;

verus! {

/// The connection after a message was put in its queue. A full queue closes the
/// connection where the policy says so.
pub open spec fn handed(
    c: channel::ChannelModel,
    p: packet::PublishModel,
    policy: SlowConsumerPolicy,
) -> channel::ChannelModel {
    if channel::send_result(c) == Err::<(), MqttError>(MqttError::Backpressure) && safety::closes(
        policy,
        p.qos,
    ) {
        channel::closed(c)
    } else {
        channel::after_send(c, channel::CmdModel::Publish(p))
    }
}

/// The session in which a packet identifier was sought, and what was found.
/// Nothing is sought where as many messages as may be are unacknowledged.
pub open spec fn sought(s: session::SessionModel, max_inflight: usize) -> (
    session::SessionModel,
    Option<u16>,
) {
    if s.outbound_inflight.len() >= max_inflight {
        (s, None)
    } else {
        (session::after_allocation(s), session::allocation(s).0)
    }
}

/// The connection after a message was offered to it. Above QoS 0 the message gets
/// a packet identifier of the receiver's session and is kept there until it is
/// acknowledged. Without one the policy decides whether the connection is closed.
pub open spec fn offered(
    c: channel::ChannelModel,
    p: packet::PublishModel,
    max_inflight: usize,
    policy: SlowConsumerPolicy,
) -> channel::ChannelModel {
    if p.qos == QoS::AtMostOnce {
        handed(c, packet::PublishModel { packet_id: None, ..p }, policy)
    } else {
        let (s, found) = sought(c.session, max_inflight);
        match found {
            Some(id) => {
                let q = packet::PublishModel { packet_id: Some(id), ..p };
                handed(
                    channel::ChannelModel { session: session::stash_outbound(s, id, q), ..c },
                    q,
                    policy,
                )
            },
            None => if safety::closes(policy, p.qos) {
                channel::closed(channel::ChannelModel { session: s, ..c })
            } else {
                channel::ChannelModel { session: s, ..c }
            },
        }
    }
}

/// Whether an offer closes the connection.
pub open spec fn overflows(
    c: channel::ChannelModel,
    p: packet::PublishModel,
    max_inflight: usize,
    policy: SlowConsumerPolicy,
) -> bool {
    safety::closes(policy, p.qos) && (if p.qos != QoS::AtMostOnce && sought(
        c.session,
        max_inflight,
    ).1 is None {
        true
    } else {
        channel::send_result(c) == Err::<(), MqttError>(MqttError::Backpressure)
    })
}

fn hand(channel: &mut MqttChannel, packet: PublishPacket, policy: SlowConsumerPolicy) -> (r: bool)
    ensures
        final(channel)@ == handed(old(channel)@, packet@, policy),
        r == (safety::closes(policy, packet@.qos) && channel::send_result(old(channel)@) == Err::<
            (),
            MqttError,
        >(MqttError::Backpressure)),
{
    let qos: QoS = packet.qos;
    match channel.send_publish(packet) {
        Err(MqttError::Backpressure) => {
            if policy.should_close_on_overflow(qos) {
                let _waiters = channel.close();
                true
            } else {
                false
            }
        },
        _ => false,
    }
}

/// Offers a message to a connection. Returns whether that closed it.
pub fn offer(
    channel: &mut MqttChannel,
    packet: PublishPacket,
    max_inflight: usize,
    policy: SlowConsumerPolicy,
) -> (r: bool)
    ensures
        final(channel)@ == offered(old(channel)@, packet@, max_inflight, policy),
        r == overflows(old(channel)@, packet@, max_inflight, policy),
{
    match packet.qos {
        QoS::AtMostOnce => {
            let p = PublishPacket { packet_id: None, ..packet };
            hand(channel, p, policy)
        },
        _ => {
            let found: Option<u16> = if channel.session.outbound_inflight_len() >= max_inflight {
                None
            } else {
                channel.session.try_allocate_packet_id()
            };
            match found {
                Some(id) => {
                    let p = packet.with_id(id);
                    channel.session.stash_outbound_inflight(id, p.clone());
                    hand(channel, p, policy)
                },
                None => {
                    if policy.should_close_on_overflow(packet.qos) {
                        let _waiters = channel.close();
                        true
                    } else {
                        false
                    }
                },
            }
        },
    }
}

/// No more messages are unacknowledged than may be, however many are offered.
pub proof fn law_inflight_bounded(
    c: channel::ChannelModel,
    p: packet::PublishModel,
    max_inflight: usize,
    policy: SlowConsumerPolicy,
)
    requires
        c.session.outbound_inflight.dom().finite(),
        c.session.outbound_inflight.len() <= max_inflight,
    ensures
        offered(c, p, max_inflight, policy).session.outbound_inflight.dom().finite(),
        offered(c, p, max_inflight, policy).session.outbound_inflight.len() <= max_inflight,
{
}

/// A message above QoS 0 is never dropped in silence: it is queued, or the
/// connection does not stay open, or its writer has stopped.
pub proof fn law_no_silent_drop(
    c: channel::ChannelModel,
    p: packet::PublishModel,
    max_inflight: usize,
    policy: SlowConsumerPolicy,
)
    requires
        p.qos != QoS::AtMostOnce,
        c.writing,
    ensures
        ({
            let d = offered(c, p, max_inflight, policy);
            !d.open || d.queue.len() == c.queue.len() + 1
        }),
{
}

/// What is queued for a subscriber above QoS 0 is what is kept for a second
/// delivery.
pub proof fn law_kept_as_sent(
    c: channel::ChannelModel,
    p: packet::PublishModel,
    max_inflight: usize,
    policy: SlowConsumerPolicy,
)
    requires
        p.qos != QoS::AtMostOnce,
        offered(c, p, max_inflight, policy).queue.len() > c.queue.len(),
    ensures
        ({
            let d = offered(c, p, max_inflight, policy);
            let sent = d.queue.last()->Publish_0;
            &&& d.queue.last() is Publish
            &&& sent.packet_id is Some
            &&& !session::in_use(c.session, sent.packet_id->0)
            &&& d.session.outbound_inflight.contains_key(sent.packet_id->0)
            &&& d.session.outbound_inflight[sent.packet_id->0] == sent
        }),
{
    session::law_allocation(c.session);
}

// ----------------------------------------------------------------------------
// The table of connections
// ----------------------------------------------------------------------------

/// The connections by identifier.
pub struct ChannelTable {
    inner: BTreeMap<u64, MqttChannel>,
}

/// The connections by identifier.
pub type ChannelsModel = Map<u64, channel::ChannelModel>;

spec fn channels_of(m: Map<u64, MqttChannel>) -> ChannelsModel {
    m.map_values(|c: MqttChannel| c@)
}

impl View for ChannelTable {
    type V = ChannelsModel;

    closed spec fn view(&self) -> ChannelsModel {
        channels_of(self.inner@)
    }
}

impl ChannelTable {
    pub fn new() -> (r: ChannelTable)
        ensures
            r@ == Map::<u64, channel::ChannelModel>::empty(),
    {
        let r = ChannelTable { inner: BTreeMap::new() };
        assert(r@ =~= Map::<u64, channel::ChannelModel>::empty());
        r
    }

    /// Puts a connection in.
    pub fn insert(&mut self, id: u64, channel: MqttChannel)
        ensures
            final(self)@ == old(self)@.insert(id, channel@),
    {
        let _old = self.inner.insert(id, channel);
        assert(channels_of(self.inner@) =~= channels_of(old(self).inner@).insert(id, channel@));
    }

    /// Takes a connection out.
    pub fn remove(&mut self, id: u64) -> (r: Option<MqttChannel>)
        ensures
            final(self)@ == old(self)@.remove(id),
            r is Some <==> old(self)@.contains_key(id),
            r matches Some(c) ==> c@ == old(self)@[id],
    {
        let r = self.inner.remove(&id);
        proof {
            assert(channels_of(self.inner@) =~= channels_of(old(self).inner@).remove(id));
            assert(old(self)@.contains_key(id) <==> old(self).inner@.contains_key(id));
        }
        r
    }

    pub fn get(&self, id: u64) -> (r: Option<&MqttChannel>)
        ensures
            r is Some <==> self@.contains_key(id),
            r matches Some(c) ==> c@ == self@[id],
    {
        assert(self@.contains_key(id) <==> self.inner@.contains_key(id));
        self.inner.get(&id)
    }
}

/// The connections after one of them changed, where it is there.
pub open spec fn with_channel(m: ChannelsModel, id: u64, c: channel::ChannelModel) -> ChannelsModel {
    if m.contains_key(id) {
        m.insert(id, c)
    } else {
        m
    }
}

} // verus!
