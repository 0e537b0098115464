use bytes::Bytes;
use hotaru_mqtt::channel::{next_connection_id, ProtocolRole, FIRST_CONNECTION_ID};
use hotaru_mqtt::context::MqttContext;
use hotaru_mqtt::keyed::{KeyedStore, ScopedName};
use hotaru_mqtt::pmap::PMap;
use hotaru_mqtt::{
    ack_inbound_publish_pre_chain, BindInfo, IncomingPublish, MqttChannel, MqttError, MqttRequest, Packet,
    Properties, ProtocolVersion, PublishPacket, QoS, Violation, WriteCmd,
};
use std::sync::Arc;

fn publish(qos: QoS, id: Option<u16>) -> PublishPacket {
    PublishPacket {
        topic: Arc::from("home/kitchen/temp"),
        payload: Bytes::from_static(b"21"),
        dup: false,
        qos,
        retain: false,
        packet_id: id,
        properties: Properties::default(),
    }
}

fn incoming() -> IncomingPublish {
    hotaru_mqtt::incoming_from_packet(&publish(QoS::AtMostOnce, None))
}

fn name(scope: Option<&str>, name: &str) -> ScopedName {
    (scope.map(Arc::from), Arc::from(name))
}

#[test]
fn connection_identifiers_count_up() {
    let mut counter = FIRST_CONNECTION_ID;
    assert_eq!(next_connection_id(&mut counter), 1);
    assert_eq!(next_connection_id(&mut counter), 2);
    counter = u64::MAX;
    assert_eq!(next_connection_id(&mut counter), u64::MAX);
    assert_eq!(next_connection_id(&mut counter), 0);
}

#[test]
fn a_new_connection_is_open_and_empty() {
    let mut c = MqttChannel::new(3, ProtocolRole::Server, 2);
    assert!(c.is_open());
    assert_eq!(c.connection_id(), 3);
    assert_eq!(c.role(), ProtocolRole::Server);
    assert!(c.take_cmd().is_none());
    assert!(c.client_id().is_none());
    assert!(c.keep_alive().is_none());
    assert!(c.protocol_version() == ProtocolVersion::V311);
}

#[test]
fn commands_come_out_in_order_and_a_full_queue_pushes_back() {
    let mut c = MqttChannel::new(1, ProtocolRole::Client, 2);
    assert!(c.send_packet(Packet::Pingreq).is_ok());
    assert!(c.send_publish(publish(QoS::AtMostOnce, None)).is_ok());
    assert!(matches!(c.send_cmd(WriteCmd::Flush), Err(MqttError::Backpressure)));
    assert!(matches!(c.take_cmd(), Some(WriteCmd::Packet(Packet::Pingreq))));
    assert!(c.send_cmd(WriteCmd::Flush).is_ok());
    assert!(matches!(c.take_cmd(), Some(WriteCmd::Publish(_))));
    assert!(matches!(c.take_cmd(), Some(WriteCmd::Flush)));
    assert!(c.take_cmd().is_none());
}

#[test]
fn a_closed_connection_stays_closed() {
    let mut c = MqttChannel::new(1, ProtocolRole::Client, 2);
    let _waiters = c.close();
    assert!(!c.is_open());
    assert_eq!(c.close().len(), 0);
    assert!(!c.is_open());
    assert!(c.send_packet(Packet::Disconnect).is_ok());
    c.writer_stopped();
    assert!(matches!(c.send_packet(Packet::Pingreq), Err(MqttError::ChannelClosed)));
}

#[test]
fn a_connection_whose_writer_stopped_takes_no_commands() {
    let mut c = MqttChannel::new(1, ProtocolRole::Client, 2);
    assert!(c.send_packet(Packet::Pingreq).is_ok());
    c.writer_stopped();
    assert!(!c.is_open());
    assert!(c.take_cmd().is_none());
    assert!(matches!(c.send_packet(Packet::Pingreq), Err(MqttError::ChannelClosed)));
}

#[test]
fn inbound_messages_are_acknowledged_by_their_level() {
    let mut c = MqttChannel::new(1, ProtocolRole::Client, 8);
    assert!(ack_inbound_publish_pre_chain(&mut c, &publish(QoS::AtMostOnce, None), 1).is_ok());
    assert!(c.take_cmd().is_none());
    assert!(ack_inbound_publish_pre_chain(&mut c, &publish(QoS::AtLeastOnce, Some(4)), 1).is_ok());
    assert!(matches!(c.take_cmd(), Some(WriteCmd::Packet(Packet::Puback(4)))));
    assert!(ack_inbound_publish_pre_chain(&mut c, &publish(QoS::ExactlyOnce, Some(5)), 1).is_ok());
    assert!(matches!(c.take_cmd(), Some(WriteCmd::Packet(Packet::Pubrec(5)))));
    assert!(c.session().has_qos2_inbound(5));
    assert!(matches!(
        ack_inbound_publish_pre_chain(&mut c, &publish(QoS::ExactlyOnce, Some(6)), 1),
        Err(MqttError::Protocol(Violation::ReceiveMaximumExceeded { limit: 1 }))
    ));
    assert!(!c.session().has_qos2_inbound(6));
}

#[test]
fn a_context_for_an_inbound_message() {
    let mut c = MqttChannel::new(9, ProtocolRole::Client, 8);
    c.session.bind_once(BindInfo {
        client_id: Arc::from("me"),
        keep_alive: 5,
    });
    let names = vec![(Arc::from("room"), 1), (Arc::from("far"), 7)];
    let mut ctx = MqttContext::for_inbound_dispatch(&c, incoming(), names);
    assert_eq!(ctx.topic(), Some("home/kitchen/temp"));
    assert_eq!(ctx.payload(), Some(&b"21"[..]));
    assert_eq!(ctx.param("room").as_deref(), Some("kitchen"));
    assert_eq!(ctx.param("far"), None);
    assert_eq!(ctx.param("other"), None);
    assert_eq!(ctx.client_id().as_deref(), Some("me"));
    assert_eq!(ctx.role(), ProtocolRole::Client);
    assert_eq!(ctx.channel().unwrap().connection_id, 9);
    match &ctx.request {
        MqttRequest::Publish(p) => {
            assert!(p.topic.is_empty() && p.payload.is_empty() && !p.retain);
            assert_eq!(p.qos, QoS::AtMostOnce);
        }
        _ => panic!("expected a message"),
    }
    assert!(ctx.should_propagate());
    ctx.suppress_propagation();
    assert!(!ctx.should_propagate());
}

#[test]
fn a_handler_that_failed_stops_the_message() {
    let mut ctx = MqttContext::default();
    assert!(ctx.topic().is_none());
    assert!(ctx.param("room").is_none());
    assert!(ctx.should_propagate());
    ctx.handle_error();
    assert!(!ctx.should_propagate());
}

#[test]
fn a_map_by_packet_identifier() {
    let mut m: PMap<u8> = PMap::new();
    assert_eq!(m.insert(1, 10), None);
    assert_eq!(m.insert(1, 11), Some(10));
    assert_eq!(m.insert(2, 20), None);
    assert_eq!(m.len(), 2);
    assert!(m.contains_key(2));
    assert_eq!(m.get(1), Some(&11));
    assert_eq!(m.get_or_insert_with(1, || 99), 11);
    assert_eq!(m.get_or_insert_with(3, || 99), 99);
    let mut all = m.snapshot();
    all.sort();
    assert_eq!(all, vec![(1, 11), (2, 20), (3, 99)]);
    assert_eq!(m.remove(1), Some(11));
    assert_eq!(m.remove(1), None);
    m.clear();
    assert_eq!(m.len(), 0);
}

#[test]
fn a_store_keeps_scopes_apart() {
    let mut s: KeyedStore<u8> = KeyedStore::new();
    assert!(s.get(&name(None, "a")).is_none());
    assert_eq!(s.insert(name(None, "a"), 1), None);
    assert_eq!(s.insert(name(Some("t"), "a"), 2), None);
    assert_eq!(s.insert(name(Some("t"), "b"), 3), None);
    assert_eq!(s.insert(name(Some("t"), "a"), 4), Some(2));
    assert_eq!(s.len(), 3);
    assert_eq!(s.count_scope(&Some(Arc::from("t"))), 2);
    assert_eq!(s.count_scope(&None), 1);
    assert_eq!(s.get(&name(None, "a")), Some(&1));
    assert_eq!(s.get(&name(Some("t"), "a")), Some(&4));
    assert_eq!(s.remove(&name(None, "a")), Some(1));
    assert_eq!(s.remove(&name(None, "a")), None);
    assert_eq!(s.get(&name(None, "a")), None);
    assert_eq!(s.get(&name(Some("t"), "b")), Some(&3));
    assert_eq!(s.get(&name(Some("t"), "a")), Some(&4));
    assert_eq!(s.len(), 2);
}

#[test]
fn levels_are_ordered_by_their_numbers() {
    let all = [QoS::AtMostOnce, QoS::AtLeastOnce, QoS::ExactlyOnce];
    for a in all {
        for b in all {
            assert_eq!(a < b, a.as_u8() < b.as_u8());
            assert_eq!(a.partial_cmp(&b), Some(a.cmp(&b)));
            assert!(a.lower(b) <= a && a.lower(b) <= b);
        }
    }
}
