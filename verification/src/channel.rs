//! One connection: its session, its bounded queue of outgoing commands and its
//! lifecycle.
//!
//! All writes go through the queue. The transport takes the commands out one by
//! one, writes what [`writer_action`] says, and reports when it has stopped.
use crate::buffer::bytes_slice;
use crate::codec;
use crate::codec::{encode_packet, publish_header};
use crate::error::{MqttError, Violation};
use crate::packet;
use crate::packet::{incoming_from_packet, Packet, ProtocolVersion, PublishPacket};
use crate::request::{PacketId, QoS};
use crate::session;
use crate::session::{AckSlot, MqttSession};
use std::sync::Arc;
use vstd::prelude::*;
use vstd::slice::*;

verus! {

/// Which end of a connection this is.
#[derive(Debug, Clone, Copy, PartialEq, Eq, Structural)]
pub enum ProtocolRole {
    Client,
    Server,
}

/// The address of one end of a connection. An address of the Internet is the number
/// that its bytes spell, the first one highest.
#[derive(Debug, Clone, Copy, PartialEq, Eq, Structural)]
pub enum SocketAddress {
    V4 { ip: u32, port: u16 },
    V6 { ip: u128, port: u16, flow_info: u32, scope_id: u32 },
}

/// A command for the writer of a connection.
pub enum WriteCmd {
    Packet(Packet),
    Publish(PublishPacket),
    Flush,
    Shutdown,
}

#[verifier::ext_equal]
pub enum CmdModel {
    Packet(packet::PacketModel),
    Publish(packet::PublishModel),
    Flush,
    Shutdown,
}

impl View for WriteCmd {
    type V = CmdModel;

    open spec fn view(&self) -> CmdModel {
        match *self {
            WriteCmd::Packet(p) => CmdModel::Packet(p@),
            WriteCmd::Publish(p) => CmdModel::Publish(p@),
            WriteCmd::Flush => CmdModel::Flush,
            WriteCmd::Shutdown => CmdModel::Shutdown,
        }
    }
}

pub open spec fn cmds(v: Seq<WriteCmd>) -> Seq<CmdModel> {
    Seq::new(v.len(), |i: int| v[i]@)
}

/// The identifier of the first connection.
pub const FIRST_CONNECTION_ID: u64 = 1;

/// The counter after one identifier was handed out.
pub open spec fn counted_up(counter: u64) -> u64 {
    if counter == u64::MAX {
        0
    } else {
        (counter + 1) as u64
    }
}

/// The next connection identifier, from a counter that starts with the first.
pub fn next_connection_id(counter: &mut u64) -> (r: u64)
    ensures
        r == *old(counter),
        *final(counter) == counted_up(*old(counter)),
{
    let id: u64 = *counter;
    *counter = if id == u64::MAX {
        0
    } else {
        id + 1
    };
    id
}

/// The identifier of the connection after `n` others: what the counter hands out.
pub open spec fn nth_connection_id(n: nat) -> u64
    decreases n,
{
    if n == 0 {
        FIRST_CONNECTION_ID
    } else {
        counted_up(nth_connection_id((n - 1) as nat))
    }
}

/// The first connection has the identifier 1, and every other one a greater one than
/// all before it, until the counter has gone all the way round.
pub proof fn law_connection_ids_grow(earlier: nat, later: nat)
    requires
        earlier < later < u64::MAX,
    ensures
        nth_connection_id(0) == 1,
        nth_connection_id(earlier) < nth_connection_id(later),
{
    lemma_nth_connection_id(earlier);
    lemma_nth_connection_id(later);
}

proof fn lemma_nth_connection_id(n: nat)
    requires
        n < u64::MAX,
    ensures
        nth_connection_id(n) == n + 1,
    decreases n,
{
    if n > 0 {
        lemma_nth_connection_id((n - 1) as nat);
    }
}

/// One connection.
pub struct MqttChannel {
    pub connection_id: u64,
    pub role: ProtocolRole,
    pub local_addr: Option<SocketAddress>,
    pub remote_addr: Option<SocketAddress>,
    pub version: ProtocolVersion,
    pub session: MqttSession,
    pub open: bool,
    /// Whether the writer still takes commands.
    pub writing: bool,
    pub queue: Vec<WriteCmd>,
    pub capacity: usize,
}

#[verifier::ext_equal]
pub struct ChannelModel {
    pub connection_id: u64,
    pub role: ProtocolRole,
    pub local_addr: Option<SocketAddress>,
    pub remote_addr: Option<SocketAddress>,
    pub version: ProtocolVersion,
    pub session: session::SessionModel,
    pub open: bool,
    pub writing: bool,
    pub queue: Seq<CmdModel>,
    pub capacity: usize,
}

impl View for MqttChannel {
    type V = ChannelModel;

    open spec fn view(&self) -> ChannelModel {
        ChannelModel {
            connection_id: self.connection_id,
            role: self.role,
            local_addr: self.local_addr,
            remote_addr: self.remote_addr,
            version: self.version,
            session: self.session@,
            open: self.open,
            writing: self.writing,
            queue: cmds(self.queue@),
            capacity: self.capacity,
        }
    }
}

/// A connection that was just opened, between ends that are not known.
pub open spec fn opened(connection_id: u64, role: ProtocolRole, buffer: usize) -> ChannelModel {
    ChannelModel {
        connection_id,
        role,
        local_addr: None,
        remote_addr: None,
        version: ProtocolVersion::V311,
        session: session::fresh_session(),
        open: true,
        writing: true,
        queue: Seq::empty(),
        capacity: if buffer == 0 {
            1
        } else {
            buffer
        },
    }
}

/// Whether a command can be queued, and why not.
pub open spec fn send_result(c: ChannelModel) -> Result<(), MqttError> {
    if !c.writing {
        Err(MqttError::ChannelClosed)
    } else if c.queue.len() >= c.capacity {
        Err(MqttError::Backpressure)
    } else {
        Ok(())
    }
}

/// The connection after a command was offered to its queue.
pub open spec fn after_send(c: ChannelModel, cmd: CmdModel) -> ChannelModel {
    if send_result(c) is Ok {
        ChannelModel { queue: c.queue.push(cmd), ..c }
    } else {
        c
    }
}

/// The connection after it was closed.
pub open spec fn closed(c: ChannelModel) -> ChannelModel {
    if c.open {
        ChannelModel { open: false, session: session::abandoned(c.session), ..c }
    } else {
        c
    }
}

/// Closing twice is closing once.
pub proof fn law_close_idempotent(c: ChannelModel)
    ensures
        closed(closed(c)) == closed(c),
        !closed(c).open,
{
}

/// A queue never grows beyond its capacity, and what is queued stays in order.
pub proof fn law_queue_bounded(c: ChannelModel, cmd: CmdModel)
    requires
        c.queue.len() <= c.capacity,
    ensures
        after_send(c, cmd).queue.len() <= c.capacity,
        c.queue.is_prefix_of(after_send(c, cmd).queue),
{
}

impl MqttChannel {
    /// Opens a connection with a queue of this capacity, which is at least one.
    pub fn new(connection_id: u64, role: ProtocolRole, cmd_buffer_size: usize) -> (r: MqttChannel)
        ensures
            r@ == opened(connection_id, role, cmd_buffer_size),
    {
        let r = MqttChannel {
            connection_id,
            role,
            local_addr: None,
            remote_addr: None,
            version: ProtocolVersion::V311,
            session: MqttSession::new(),
            open: true,
            writing: true,
            queue: Vec::new(),
            capacity: if cmd_buffer_size == 0 {
                1
            } else {
                cmd_buffer_size
            },
        };
        assert(r@ =~= opened(connection_id, role, cmd_buffer_size));
        r
    }

    /// The connection between these two ends, as far as they are known.
    pub fn with_addresses(
        self,
        local_addr: Option<SocketAddress>,
        remote_addr: Option<SocketAddress>,
    ) -> (r: MqttChannel)
        ensures
            r@ == (ChannelModel { local_addr, remote_addr, ..self@ }),
    {
        let mut r = self;
        r.local_addr = local_addr;
        r.remote_addr = remote_addr;
        r
    }

    pub fn local_addr(&self) -> (r: Option<SocketAddress>)
        ensures
            r == self@.local_addr,
    {
        self.local_addr
    }

    pub fn remote_addr(&self) -> (r: Option<SocketAddress>)
        ensures
            r == self@.remote_addr,
    {
        self.remote_addr
    }

    pub fn is_open(&self) -> (r: bool)
        ensures
            r == self@.open,
    {
        self.open
    }

    /// Closes the connection. The first call drops the waiters of the session and
    /// returns them; a later one does nothing.
    pub fn close(&mut self) -> (r: Vec<(PacketId, AckSlot)>)
        ensures
            final(self)@ == closed(old(self)@),
            old(self)@.open ==> session::lists_slots(r@, old(self)@.session.pending_acks),
            !old(self)@.open ==> r@.len() == 0,
    {
        if !self.open {
            return Vec::new();
        }
        self.open = false;
        self.session.abandon()
    }

    pub fn session(&self) -> (r: &MqttSession)
        ensures
            r@ == self@.session,
    {
        &self.session
    }

    pub fn connection_id(&self) -> (r: u64)
        ensures
            r == self@.connection_id,
    {
        self.connection_id
    }

    pub fn role(&self) -> (r: ProtocolRole)
        ensures
            r == self@.role,
    {
        self.role
    }

    pub fn protocol_version(&self) -> (r: ProtocolVersion)
        ensures
            r == self@.version,
    {
        self.version
    }

    pub fn set_protocol_version(&mut self, version: ProtocolVersion)
        ensures
            final(self)@ == (ChannelModel { version, ..old(self)@ }),
    {
        self.version = version;
    }

    pub fn client_id(&self) -> (r: Option<Arc<str>>)
        ensures
            crate::text::opt_chars(r) == (match self@.session.bind {
                Some(b) => Some(b.0),
                None => None,
            }),
    {
        self.session.client_id()
    }

    pub fn keep_alive(&self) -> (r: Option<u16>)
        ensures
            r == (match self@.session.bind {
                Some(b) => Some(b.1),
                None => None,
            }),
    {
        self.session.keep_alive()
    }

    /// Queues a packet.
    pub fn send_packet(&mut self, packet: Packet) -> (r: Result<(), MqttError>)
        ensures
            r == send_result(old(self)@),
            final(self)@ == after_send(old(self)@, CmdModel::Packet(packet@)),
    {
        self.send_cmd(WriteCmd::Packet(packet))
    }

    /// Queues a PUBLISH.
    pub fn send_publish(&mut self, packet: PublishPacket) -> (r: Result<(), MqttError>)
        ensures
            r == send_result(old(self)@),
            final(self)@ == after_send(old(self)@, CmdModel::Publish(packet@)),
    {
        self.send_cmd(WriteCmd::Publish(packet))
    }

    /// Queues a command. Never blocks: a full queue is `Backpressure`, a writer
    /// that has stopped is `ChannelClosed`.
    pub fn send_cmd(&mut self, cmd: WriteCmd) -> (r: Result<(), MqttError>)
        ensures
            r == send_result(old(self)@),
            final(self)@ == after_send(old(self)@, cmd@),
    {
        if !self.writing {
            return Err(MqttError::ChannelClosed);
        }
        if self.queue.len() >= self.capacity {
            return Err(MqttError::Backpressure);
        }
        self.queue.push(cmd);
        assert(cmds(self.queue@) =~= cmds(old(self).queue@).push(cmd@));
        Ok(())
    }

    /// Takes the oldest command out of the queue.
    pub fn take_cmd(&mut self) -> (r: Option<WriteCmd>)
        ensures
            old(self)@.queue.len() == 0 ==> r is None && final(self)@ == old(self)@,
            old(self)@.queue.len() > 0 ==> {
                &&& r is Some
                &&& r->0@ == old(self)@.queue[0]
                &&& final(self)@ == (ChannelModel {
                    queue: old(self)@.queue.drop_first(),
                    ..old(self)@
                })
            },
    {
        if self.queue.len() == 0 {
            return None;
        }
        let cmd = self.queue.remove(0);
        assert(cmds(self.queue@) =~= cmds(old(self).queue@).drop_first());
        Some(cmd)
    }

    /// Notes that the writer has stopped: the connection is no longer open, and
    /// what was queued is gone.
    pub fn writer_stopped(&mut self)
        ensures
            final(self)@ == (ChannelModel {
                open: false,
                writing: false,
                queue: Seq::empty(),
                ..old(self)@
            }),
    {
        self.open = false;
        self.writing = false;
        self.queue = Vec::new();
        assert(cmds(self.queue@) =~= Seq::<CmdModel>::empty());
    }
}

// ----------------------------------------------------------------------------
// Writer
// ----------------------------------------------------------------------------

/// What the writer does with a command.
pub enum WriterAction {
    /// Writes these bytes and flushes.
    Write(Vec<u8>),
    /// Flushes.
    Flush,
    /// Stops.
    Stop,
}

/// The bytes that a command puts on the wire; none where it stops the writer.
pub open spec fn cmd_bytes(cmd: CmdModel) -> Option<Seq<u8>> {
    match cmd {
        CmdModel::Packet(p) => match codec::encode_model(p) {
            Ok(b) => Some(b),
            Err(_) => None,
        },
        CmdModel::Publish(p) => match codec::publish_header_model(p) {
            Ok(b) => Some(b + p.payload),
            Err(_) => None,
        },
        CmdModel::Flush => Some(Seq::empty()),
        CmdModel::Shutdown => None,
    }
}

/// What the writer does with a command. A packet that cannot be encoded stops
/// the writer, as a shutdown does.
pub fn writer_action(cmd: &WriteCmd) -> (r: WriterAction)
    requires
        cmd@ matches CmdModel::Publish(p) ==> p.payload.len() + 65541 <= usize::MAX,
    ensures
        match r {
            WriterAction::Write(b) => cmd@ !is Flush && cmd_bytes(cmd@) == Some(b@),
            WriterAction::Flush => cmd@ is Flush,
            WriterAction::Stop => cmd_bytes(cmd@) is None,
        },
{
    match cmd {
        WriteCmd::Packet(p) => match encode_packet(p) {
            Ok(b) => WriterAction::Write(b),
            Err(_) => WriterAction::Stop,
        },
        WriteCmd::Publish(p) => match publish_header(p) {
            Ok(header) => {
                let mut b: Vec<u8> = header;
                crate::wire::put_all(&mut b, bytes_slice(&p.payload));
                WriterAction::Write(b)
            },
            Err(_) => WriterAction::Stop,
        },
        WriteCmd::Flush => WriterAction::Flush,
        WriteCmd::Shutdown => WriterAction::Stop,
    }
}

// ----------------------------------------------------------------------------
// Inbound acknowledgement
// ----------------------------------------------------------------------------

/// The connection after an inbound PUBLISH was acknowledged, and whether that
/// went well: PUBACK at QoS 1; at QoS 2 the message is kept until its release
/// and PUBREC is sent, unless it is one message more than may be kept.
pub open spec fn acked_inbound(c: ChannelModel, p: packet::PublishModel, receive_max: usize) -> (
    ChannelModel,
    Result<(), MqttError>,
) {
    match p.packet_id {
        None => (c, Ok(())),
        Some(id) => match p.qos {
            QoS::AtMostOnce => (c, Ok(())),
            QoS::AtLeastOnce => (
                after_send(c, CmdModel::Packet(packet::PacketModel::Puback(id))),
                send_result(c),
            ),
            QoS::ExactlyOnce => if !c.session.qos2_recv.contains_key(id)
                && c.session.qos2_recv.len() >= receive_max {
                (
                    c,
                    Err(
                        MqttError::Protocol(
                            Violation::ReceiveMaximumExceeded { limit: receive_max },
                        ),
                    ),
                )
            } else {
                let kept = ChannelModel {
                    session: session::SessionModel {
                        qos2_recv: c.session.qos2_recv.insert(id, p),
                        ..c.session
                    },
                    ..c
                };
                (
                    after_send(kept, CmdModel::Packet(packet::PacketModel::Pubrec(id))),
                    send_result(c),
                )
            },
        },
    }
}

/// Acknowledges an inbound PUBLISH before anything else is done with it.
pub fn ack_inbound_publish_pre_chain(
    channel: &mut MqttChannel,
    publish: &PublishPacket,
    receive_max: usize,
) -> (r: Result<(), MqttError>)
    ensures
        (final(channel)@, r) == acked_inbound(old(channel)@, publish@, receive_max),
{
    match publish.qos {
        QoS::AtMostOnce => Ok(()),
        QoS::AtLeastOnce => match publish.packet_id {
            Some(id) => channel.send_packet(Packet::Puback(id)),
            None => Ok(()),
        },
        QoS::ExactlyOnce => match publish.packet_id {
            Some(id) => {
                if !channel.session.has_qos2_inbound(id) && channel.session.qos2_inbound_len()
                    >= receive_max {
                    return Err(
                        MqttError::Protocol(
                            Violation::ReceiveMaximumExceeded { limit: receive_max },
                        ),
                    );
                }
                channel.session.stash_qos2_inbound(id, incoming_from_packet(publish));
                channel.send_packet(Packet::Pubrec(id))
            },
            None => Ok(()),
        },
    }
}

/// No more inbound QoS 2 messages are kept than may be.
pub proof fn law_receive_maximum(c: ChannelModel, p: packet::PublishModel, receive_max: usize)
    requires
        c.session.qos2_recv.dom().finite(),
        c.session.qos2_recv.len() <= receive_max,
    ensures
        acked_inbound(c, p, receive_max).0.session.qos2_recv.len() <= receive_max,
{
}

/// A connection starts open and with nothing queued, and its queue holds at least one
/// command.
pub proof fn law_starts_open(connection_id: u64, role: ProtocolRole, buffer: usize)
    ensures
        ({
            let c = opened(connection_id, role, buffer);
            &&& c.connection_id == connection_id
            &&& c.role == role
            &&& c.open
            &&& c.writing
            &&& c.queue.len() == 0
            &&& c.capacity >= 1
            &&& buffer > 0 ==> c.capacity == buffer
            &&& c.session == session::fresh_session()
        }),
{
}

/// A command goes behind what is queued while the writer runs and there is room, and
/// then only; otherwise it is refused, for want of a writer or of room, and nothing
/// changes.
pub proof fn law_commands_queue_up(c: ChannelModel, cmd: CmdModel)
    ensures
        c.writing && c.queue.len() < c.capacity ==> send_result(c) is Ok && after_send(c, cmd) == (
        ChannelModel { queue: c.queue.push(cmd), ..c }),
        c.writing && c.queue.len() >= c.capacity ==> send_result(c) == Err::<(), MqttError>(
            MqttError::Backpressure,
        ) && after_send(c, cmd) == c,
        !c.writing ==> send_result(c) == Err::<(), MqttError>(MqttError::ChannelClosed)
            && after_send(c, cmd) == c,
{
}

/// A connection that is closed is no longer open, and nobody waits on it any more.
/// What is queued, in flight or half received stays.
pub proof fn law_close_keeps_what_is_due(c: ChannelModel)
    ensures
        !closed(c).open,
        c.open ==> closed(c).session.pending_acks == Map::<u16, session::AckSlot>::empty(),
        closed(c).queue == c.queue,
        closed(c).session.outbound_inflight == c.session.outbound_inflight,
        closed(c).session.qos2_recv == c.session.qos2_recv,
        closed(c).session.pkt_counter == c.session.pkt_counter,
        closed(c).connection_id == c.connection_id,
        closed(c).writing == c.writing,
{
}

} // verus!
