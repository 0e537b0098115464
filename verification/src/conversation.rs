//! What a client sends, and what the packets it receives do.
use crate::buffer;
use crate::channel;
use crate::client::MqttClientConfig;
use crate::error::{MqttError, TimeoutKind, Violation};
use crate::packet;
use crate::packet::{Packet, ProtocolVersion};
use crate::protocol;
use crate::protocol::{ClientEvent, ClientTurn, PublishStart, RequestStart, Waited};
use crate::request;
use crate::request::{MqttRequest, PublishRequest, QoS};
use crate::session;
use crate::session::{AckSlot, Waiter};
use vstd::prelude::*;

verus! {

/// Whether a connection takes one more command.
pub open spec fn has_room(c: channel::ChannelModel) -> bool {
    c.writing && c.queue.len() < c.capacity
}

/// Whether an identifier is free for a new operation.
pub open spec fn is_free(s: session::SessionModel, id: u16) -> bool {
    id != 0 && !s.outbound_inflight.contains_key(id) && !s.pending_acks.contains_key(id)
}

/// Whether two connections differ in nothing but the queue and the session.
pub open spec fn same_connection(c: channel::ChannelModel, d: channel::ChannelModel) -> bool {
    &&& d.open == c.open
    &&& d.writing == c.writing
    &&& d.capacity == c.capacity
    &&& d.connection_id == c.connection_id
    &&& d.role == c.role
    &&& d.version == c.version
}

/// The CONNECT of a client says what its configuration says.
pub proof fn law_connect_says_what_was_set(c: MqttClientConfig)
    ensures
        ({
            let p = protocol::connect_of(c);
            &&& p.version == ProtocolVersion::V311
            &&& p.client_id == (*c.client_id)@
            &&& p.clean_session == c.clean_session
            &&& p.keep_alive == c.keep_alive_secs
            &&& p.username is Some <==> c.credentials is Some
            &&& p.password is Some <==> c.credentials is Some
            &&& c.credentials matches Some(x) ==> {
                &&& p.username->0 == (*x.username)@
                &&& p.password->0 == buffer::bytes_of(x.password)
            }
            &&& p.will is Some <==> c.will is Some
            &&& c.will matches Some(w) ==> {
                &&& p.will->0.topic == (*w.topic)@
                &&& p.will->0.payload == buffer::bytes_of(w.payload)
                &&& p.will->0.qos == w.qos
                &&& p.will->0.retain == w.retain
            }
        }),
{
}

/// The operations a client may have under way: as many as were set, at least one, and
/// twenty where nothing was set.
pub proof fn law_limit_of_operations(c: MqttClientConfig)
    ensures
        c.safety@.max_inflight_messages is None ==> protocol::limit_of(c) == 20,
        c.safety@.max_inflight_messages == Some(0usize) ==> protocol::limit_of(c) == 1,
        c.safety@.max_inflight_messages matches Some(n) ==> (n > 0 ==> protocol::limit_of(c) == n),
{
}

/// A message at QoS 0 goes out as it is and without an identifier, behind what is
/// queued, and nothing is awaited for it.
pub proof fn law_publish_at_most_once(
    c: channel::ChannelModel,
    req: PublishRequest,
    waiter: Waiter,
)
    requires
        req.qos == QoS::AtMostOnce,
    ensures
        ({
            let (d, r) = protocol::publish_begun(c, req, waiter);
            &&& d.session == c.session
            &&& same_connection(c, d)
            &&& has_room(c) ==> {
                &&& r == Ok::<PublishStart, MqttError>(PublishStart::Sent)
                &&& d.queue.len() == c.queue.len() + 1
                &&& d.queue.drop_last() == c.queue
                &&& says(d.queue.last(), req, None)
            }
            &&& !has_room(c) ==> d.queue == c.queue && r == Err::<PublishStart, MqttError>(
                refusal(c),
            )
        }),
{
    let (d, r) = protocol::publish_begun(c, req, waiter);
    if has_room(c) {
        assert(d.queue.drop_last() =~= c.queue);
    }
}

/// Whether a command sends the message of a request under this identifier.
pub open spec fn says(cmd: channel::CmdModel, req: PublishRequest, id: Option<u16>) -> bool {
    &&& cmd matches channel::CmdModel::Publish(p)
    &&& p.topic == (*req.topic)@
    &&& p.payload == buffer::bytes_of(req.payload)
    &&& p.qos == req.qos
    &&& p.retain == req.retain
    &&& !p.dup
    &&& p.packet_id == id
}

/// Why a connection takes no command.
pub open spec fn refusal(c: channel::ChannelModel) -> MqttError {
    if c.writing {
        MqttError::Backpressure
    } else {
        MqttError::ChannelClosed
    }
}

/// What an operation that awaits an acknowledgement does to a session: it takes an
/// identifier that was free, and whoever began it waits under that one. One too many
/// takes none.
proof fn lemma_requested(
    c: channel::ChannelModel,
    slot: AckSlot,
    cmd: spec_fn(u16) -> channel::CmdModel,
    free: u16,
)
    requires
        is_free(c.session, free),
    ensures
        ({
            let (d, r) = protocol::requested(c, slot, cmd);
            let many = c.session.pending_acks.len() >= c.session.max_inflight;
            &&& same_connection(c, d)
            &&& d.session.outbound_inflight == c.session.outbound_inflight
            &&& d.session.qos2_recv == c.session.qos2_recv
            &&& many ==> d == c && r == Err::<u16, MqttError>(
                MqttError::TooManyInflight { limit: c.session.max_inflight },
            )
            &&& !many && !has_room(c) ==> d.queue == c.queue && r == Err::<u16, MqttError>(
                refusal(c),
            )
            &&& !many && has_room(c) ==> {
                &&& r is Ok
                &&& is_free(c.session, r->Ok_0)
                &&& d.session.pending_acks == c.session.pending_acks.insert(r->Ok_0, slot)
                &&& d.queue == c.queue.push(cmd(r->Ok_0))
            }
        }),
{
    session::law_allocation(c.session);
    assert(!session::in_use(c.session, free));
}

/// A message above QoS 0 goes out under an identifier that was free, and its sender
/// waits under it: at QoS 1 for a PUBACK, at QoS 2 for a PUBREC. One that is one too
/// many is refused and changes nothing.
pub proof fn law_publish_awaits_its_acknowledgement(
    c: channel::ChannelModel,
    req: PublishRequest,
    waiter: Waiter,
    free: u16,
)
    requires
        req.qos != QoS::AtMostOnce,
        is_free(c.session, free),
    ensures
        ({
            let (d, r) = protocol::publish_begun(c, req, waiter);
            let many = c.session.pending_acks.len() >= c.session.max_inflight;
            &&& same_connection(c, d)
            &&& d.session.qos2_recv == c.session.qos2_recv
            &&& many ==> d == c && r == Err::<PublishStart, MqttError>(
                MqttError::TooManyInflight { limit: c.session.max_inflight },
            )
            &&& !many && !has_room(c) ==> d.queue == c.queue && r == Err::<
                PublishStart,
                MqttError,
            >(refusal(c))
            &&& !many && has_room(c) ==> exists|id: u16|
                {
                    &&& #[trigger] is_free(c.session, id)
                    &&& d.queue.len() == c.queue.len() + 1
                    &&& d.queue.drop_last() == c.queue
                    &&& says(d.queue.last(), req, Some(id))
                    &&& req.qos == QoS::AtLeastOnce ==> r == Ok::<PublishStart, MqttError>(
                        PublishStart::AwaitPuback(id),
                    ) && d.session.pending_acks == c.session.pending_acks.insert(
                        id,
                        AckSlot::Puback(waiter),
                    )
                    &&& req.qos == QoS::ExactlyOnce ==> r == Ok::<PublishStart, MqttError>(
                        PublishStart::AwaitPubrec(id),
                    ) && d.session.pending_acks == c.session.pending_acks.insert(
                        id,
                        AckSlot::Pubrec(waiter),
                    )
                }
        }),
{
    let cmd = |id: u16|
        channel::CmdModel::Publish(protocol::message_of(req, Some(id)));
    let slot = if req.qos == QoS::AtLeastOnce {
        AckSlot::Puback(waiter)
    } else {
        AckSlot::Pubrec(waiter)
    };
    lemma_requested(c, slot, cmd, free);
    let (d, r) = protocol::publish_begun(c, req, waiter);
    let got = protocol::requested(c, slot, cmd).1;
    if !(c.session.pending_acks.len() >= c.session.max_inflight) && has_room(c) {
        let id = got->Ok_0;
        assert(is_free(c.session, id));
        assert(d.queue.drop_last() =~= c.queue);
        assert(d.queue.last() == channel::CmdModel::Publish(protocol::message_of(req, Some(id))));
    }
}

/// A SUBSCRIBE and an UNSUBSCRIBE go out with the filters that were asked for, in
/// their order, under an identifier that was free, and whoever began them waits under
/// it for the answer.
pub proof fn law_subscribe_awaits_its_answer(
    c: channel::ChannelModel,
    req: MqttRequest,
    waiter: Waiter,
    free: u16,
)
    requires
        !(req is Publish),
        is_free(c.session, free),
        has_room(c),
        c.session.pending_acks.len() < c.session.max_inflight,
    ensures
        ({
            let (d, r) = protocol::request_begun(c, req, waiter);
            exists|id: u16|
                {
                    &&& #[trigger] is_free(c.session, id)
                    &&& d.queue.len() == c.queue.len() + 1
                    &&& d.queue.drop_last() == c.queue
                    &&& req matches MqttRequest::Subscribe(filters) ==> {
                        &&& r == Ok::<RequestStart, MqttError>(RequestStart::AwaitSuback(id))
                        &&& d.session.pending_acks == c.session.pending_acks.insert(
                            id,
                            AckSlot::Suback(waiter),
                        )
                        &&& d.queue.last() matches channel::CmdModel::Packet(
                            packet::PacketModel::Subscribe { packet_id, subscriptions },
                        )
                        &&& packet_id == id
                        &&& subscriptions.len() == filters@.len()
                        &&& forall|i: int|
                            0 <= i < filters@.len() ==> (#[trigger] subscriptions[i]).0
                                == (*filters@[i].filter)@ && subscriptions[i].1 == filters@[i].qos
                    }
                    &&& req matches MqttRequest::Unsubscribe(topics) ==> {
                        &&& r == Ok::<RequestStart, MqttError>(RequestStart::AwaitUnsuback(id))
                        &&& d.session.pending_acks == c.session.pending_acks.insert(
                            id,
                            AckSlot::Unsuback(waiter),
                        )
                        &&& d.queue.last() matches channel::CmdModel::Packet(
                            packet::PacketModel::Unsubscribe { packet_id, topics: named },
                        )
                        &&& packet_id == id
                        &&& named.len() == topics@.len()
                        &&& forall|i: int|
                            0 <= i < topics@.len() ==> #[trigger] named[i] == (*topics@[i])@
                    }
                }
        }),
{
    let (d, r) = protocol::request_begun(c, req, waiter);
    match req {
        MqttRequest::Subscribe(filters) => {
            let cmd = |id: u16|
                channel::CmdModel::Packet(
                    packet::PacketModel::Subscribe {
                        packet_id: id,
                        subscriptions: request::filters_of(filters@),
                    },
                );
            lemma_requested(c, AckSlot::Suback(waiter), cmd, free);
            let id = protocol::requested(c, AckSlot::Suback(waiter), cmd).1->Ok_0;
            assert(is_free(c.session, id));
            assert(d.queue.drop_last() =~= c.queue);
        },
        MqttRequest::Unsubscribe(topics) => {
            let cmd = |id: u16|
                channel::CmdModel::Packet(
                    packet::PacketModel::Unsubscribe {
                        packet_id: id,
                        topics: packet::names_of(topics@),
                    },
                );
            lemma_requested(c, AckSlot::Unsuback(waiter), cmd, free);
            let id = protocol::requested(c, AckSlot::Unsuback(waiter), cmd).1->Ok_0;
            assert(is_free(c.session, id));
            assert(d.queue.drop_last() =~= c.queue);
        },
        _ => {},
    }
}

/// How waiting ends: with the acknowledgement; late, and then nobody waits under the
/// identifier any more; or because the waiter is gone. Others go on waiting.
pub proof fn law_how_waiting_ends(c: channel::ChannelModel, id: u16, w: Waited)
    ensures
        ({
            let (d, r) = protocol::waited(c, id, w);
            &&& w is Acked ==> r is Ok && d == c
            &&& w is Dropped ==> r == Err::<(), MqttError>(MqttError::ChannelClosed) && d == c
            &&& w is TimedOut ==> {
                &&& r == Err::<(), MqttError>(MqttError::Timeout(TimeoutKind::Ack))
                &&& same_connection(c, d)
                &&& d.queue == c.queue
                &&& d.session.pending_acks == c.session.pending_acks.remove(id)
                &&& d.session.outbound_inflight == c.session.outbound_inflight
                &&& d.session.qos2_recv == c.session.qos2_recv
            }
        }),
{
}

/// A message that comes in at QoS 0 or 1 is handed on as it is, at once, and at QoS 1
/// it is acknowledged under its identifier.
pub proof fn law_message_is_handed_on(
    c: channel::ChannelModel,
    p: packet::PublishModel,
    receive_max: usize,
)
    requires
        has_room(c),
        p.qos != QoS::ExactlyOnce,
        p.qos == QoS::AtLeastOnce ==> p.packet_id is Some,
    ensures
        ({
            let (d, s, r) = protocol::inbound(c, packet::PacketModel::Publish(p), receive_max);
            &&& r is Ok
            &&& s.deliver == Some(p)
            &&& s.wake is None
            &&& !s.stop
            &&& d.session == c.session
            &&& same_connection(c, d)
            &&& p.qos == QoS::AtMostOnce ==> d.queue == c.queue
            &&& p.qos == QoS::AtLeastOnce ==> d.queue == c.queue.push(
                channel::CmdModel::Packet(packet::PacketModel::Puback(p.packet_id->0)),
            )
        }),
{
}

/// A message that comes in at QoS 2 is kept under its identifier and not handed on,
/// and its receipt is answered; one that would be too many at once is an error.
pub proof fn law_message_is_kept(
    c: channel::ChannelModel,
    p: packet::PublishModel,
    id: u16,
    receive_max: usize,
)
    requires
        has_room(c),
        p.qos == QoS::ExactlyOnce,
        p.packet_id == Some(id),
    ensures
        ({
            let (d, s, r) = protocol::inbound(c, packet::PacketModel::Publish(p), receive_max);
            &&& s.deliver is None
            &&& s.wake is None
            &&& !s.stop
            &&& c.session.qos2_recv.contains_key(id) || c.session.qos2_recv.len() < receive_max
                ==> {
                &&& r is Ok
                &&& d.session.qos2_recv == c.session.qos2_recv.insert(id, p)
                &&& d.session.outbound_inflight == c.session.outbound_inflight
                &&& d.session.pending_acks == c.session.pending_acks
                &&& d.queue == c.queue.push(
                    channel::CmdModel::Packet(packet::PacketModel::Pubrec(id)),
                )
            }
            &&& !c.session.qos2_recv.contains_key(id) && c.session.qos2_recv.len() >= receive_max
                ==> {
                &&& d == c
                &&& r == Err::<(), MqttError>(
                    MqttError::Protocol(Violation::ReceiveMaximumExceeded { limit: receive_max }),
                )
            }
        }),
{
}

/// A release hands on the message that was kept under its identifier, as it came, and
/// keeps it no longer; it is answered in any case.
pub proof fn law_release_hands_on(c: channel::ChannelModel, id: u16, receive_max: usize)
    requires
        has_room(c),
    ensures
        ({
            let (d, s, r) = protocol::inbound(c, packet::PacketModel::Pubrel(id), receive_max);
            &&& r is Ok
            &&& c.session.qos2_recv.contains_key(id) ==> s.deliver == Some(
                c.session.qos2_recv[id],
            )
            &&& !c.session.qos2_recv.contains_key(id) ==> s.deliver is None
            &&& s.wake is None
            &&& !s.stop
            &&& d.session.qos2_recv == c.session.qos2_recv.remove(id)
            &&& d.session.outbound_inflight == c.session.outbound_inflight
            &&& d.session.pending_acks == c.session.pending_acks
            &&& d.queue == c.queue.push(
                channel::CmdModel::Packet(packet::PacketModel::Pubcomp(id)),
            )
        }),
{
}

/// An acknowledgement ends what waits under its identifier and nothing else. A PUBACK
/// and a PUBCOMP settle what is in flight under it; a PUBREC leaves it in flight and is
/// answered with the release. Nothing is handed on for any of them.
pub proof fn law_acknowledgements(
    c: channel::ChannelModel,
    p: packet::PacketModel,
    id: u16,
    receive_max: usize,
)
    requires
        has_room(c),
        p == packet::PacketModel::Puback(id) || p == packet::PacketModel::Pubcomp(id) || p
            == packet::PacketModel::Pubrec(id),
    ensures
        ({
            let (d, s, r) = protocol::inbound(c, p, receive_max);
            &&& r is Ok
            &&& s.deliver is None
            &&& !s.stop
            &&& same_connection(c, d)
            &&& d.session.pending_acks == c.session.pending_acks.remove(id)
            &&& d.session.qos2_recv == c.session.qos2_recv
            &&& d.session.pkt_counter == c.session.pkt_counter
            &&& !(p is Pubrec) ==> {
                &&& d.session.outbound_inflight == c.session.outbound_inflight.remove(id)
                &&& d.queue == c.queue
            }
            &&& p is Pubrec ==> {
                &&& d.session.outbound_inflight == c.session.outbound_inflight
                &&& d.queue == c.queue.push(
                    channel::CmdModel::Packet(packet::PacketModel::Pubrel(id)),
                )
            }
        }),
{
}

/// Only the waiter of the right kind is woken: a PUBACK wakes whoever waits for a
/// PUBACK under its identifier, and likewise a PUBREC, a PUBCOMP, a SUBACK, with the
/// codes it carries, and an UNSUBACK.
pub proof fn law_who_is_woken(
    c: channel::ChannelModel,
    p: packet::PacketModel,
    id: u16,
    w: Waiter,
    receive_max: usize,
)
    requires
        c.session.pending_acks.contains_key(id),
    ensures
        ({
            let wake = protocol::inbound(c, p, receive_max).1.wake;
            let slot = c.session.pending_acks[id];
            &&& p == packet::PacketModel::Puback(id) ==> (wake == Some(
                protocol::WakeModel::Acked(w, id),
            ) <==> slot == AckSlot::Puback(w))
            &&& p == packet::PacketModel::Pubrec(id) ==> (wake == Some(
                protocol::WakeModel::Acked(w, id),
            ) <==> slot == AckSlot::Pubrec(w))
            &&& p == packet::PacketModel::Pubcomp(id) ==> (wake == Some(
                protocol::WakeModel::Acked(w, id),
            ) <==> slot == AckSlot::Pubcomp(w))
            &&& (p matches packet::PacketModel::Suback { packet_id, return_codes } ==> (packet_id
                == id ==> (wake == Some(protocol::WakeModel::Subacked(w, return_codes)) <==> slot
                == AckSlot::Suback(w))))
            &&& (p matches packet::PacketModel::Unsuback { packet_id, .. } ==> (packet_id == id
                ==> (wake == Some(protocol::WakeModel::Unsubacked(w)) <==> slot
                == AckSlot::Unsuback(w))))
        }),
{
}

/// A client's turn: a closed connection and one whose transport failed end its session
/// in good order, as does a DISCONNECT; any other failure of reading is handed on. When
/// a sign of life is due a PINGREQ goes out, and a session that cannot send it ends.
pub proof fn law_turns(c: channel::ChannelModel, e: ClientEvent, receive_max: usize)
    ensures
        ({
            let (d, s, t) = protocol::turned(c, e, receive_max);
            &&& !c.open ==> d == c && t is Stop
            &&& c.open && e is Closed ==> d == c && t is Stop
            &&& c.open ==> (e matches ClientEvent::Failed(x) ==> d == c && if x is Io {
                t is Stop
            } else {
                t == ClientTurn::Fail(x)
            })
            &&& c.open && e is PingDue && has_room(c) ==> t is Continue && d.queue == c.queue.push(
                channel::CmdModel::Packet(packet::PacketModel::Pingreq),
            )
            &&& c.open && e is PingDue && !has_room(c) ==> t is Stop && d.queue == c.queue
            &&& c.open && e == ClientEvent::Packet(Packet::Disconnect) ==> d == c && t is Stop
            &&& c.open ==> (e matches ClientEvent::Packet(p) ==> {
                let (after, step, r) = protocol::inbound(c, p@, receive_max);
                &&& d == after
                &&& s == step
                &&& r matches Err(x) ==> t == ClientTurn::Fail(x)
                &&& r is Ok ==> (t is Stop <==> p == Packet::Disconnect)
                &&& r is Ok && !(p == Packet::Disconnect) ==> t is Continue
            })
        }),
{
}

} // verus!
