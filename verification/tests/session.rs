use bytes::Bytes;
use hotaru_mqtt::safety::DEFAULT_MAX_INFLIGHT_MESSAGES;
use hotaru_mqtt::session::OnceLockBindInfo;
use hotaru_mqtt::{
    incoming_from_packet, AckSlot, BindInfo, MqttError, MqttSession, Properties, PublishPacket, QoS,
};
use std::sync::Arc;

fn publish(topic: &str, packet_id: u16) -> PublishPacket {
    PublishPacket {
        topic: Arc::from(topic),
        payload: Bytes::from_static(b"p"),
        dup: false,
        qos: QoS::AtLeastOnce,
        retain: false,
        packet_id: Some(packet_id),
        properties: Properties::default(),
    }
}

fn dummy_slot() -> AckSlot {
    AckSlot::Puback(0)
}

#[test]
fn default_inflight_cap_matches_safety_default() {
    let t = MqttSession::new();
    assert_eq!(t.max_inflight(), DEFAULT_MAX_INFLIGHT_MESSAGES);
}

#[test]
fn set_max_inflight_clamps_zero_to_one() {
    let mut s = MqttSession::new();
    s.set_max_inflight(0);
    assert_eq!(s.max_inflight(), 1);
}

#[test]
fn client_allocator_rejects_over_inflight_cap() {
    let mut s = MqttSession::new();
    s.set_max_inflight(3);
    for i in 1..=3u16 {
        s.install_ack_slot(i, dummy_slot());
    }
    assert!(matches!(
        s.allocate_client_packet_id(),
        Err(MqttError::TooManyInflight { limit: 3 })
    ));
    let _ = s.take_ack_slot(1);
    assert!(s.allocate_client_packet_id().is_ok());
}

#[test]
fn allocator_skips_ids_awaiting_acks() {
    let mut s = MqttSession::new();
    s.install_ack_slot(1, dummy_slot());
    s.install_ack_slot(2, dummy_slot());
    let id = s.try_allocate_packet_id().expect("u16 space available");
    assert_eq!(id, 3);
}

#[test]
fn outstanding_ack_count_tracks_pending_acks() {
    let mut s = MqttSession::new();
    assert_eq!(s.outstanding_ack_count(), 0);
    s.install_ack_slot(7, dummy_slot());
    assert_eq!(s.outstanding_ack_count(), 1);
    let _ = s.take_ack_slot(7);
    assert_eq!(s.outstanding_ack_count(), 0);
}

#[test]
fn allocations_differ_while_they_are_outstanding() {
    let mut s = MqttSession::new();
    for expected in 1..=100u16 {
        let id = s.try_allocate_packet_id().unwrap();
        assert_eq!(id, expected);
        s.stash_outbound_inflight(id, publish("a", id));
    }
    s.forget_outbound_inflight(5);
    assert_eq!(s.try_allocate_packet_id(), Some(101));
    assert_eq!(s.allocate_packet_id(), 102);
}

#[test]
fn the_identifier_space_can_run_out() {
    let mut s = MqttSession::new();
    for id in 1..=65535u16 {
        let _ = s.install_ack_slot(id, AckSlot::Suback(1));
    }
    assert_eq!(s.try_allocate_packet_id(), None);
    s.set_max_inflight(usize::MAX);
    assert!(matches!(
        s.allocate_client_packet_id(),
        Err(MqttError::TooManyInflight { .. })
    ));
    assert_eq!(s.take_ack_slot(65535), Some(AckSlot::Suback(1)));
    assert_eq!(s.try_allocate_packet_id(), Some(65535));
    assert_eq!(s.try_allocate_packet_id(), Some(65535));
}

#[test]
fn acknowledgements_find_their_waiter() {
    let mut s = MqttSession::new();
    assert_eq!(s.install_ack_slot(3, AckSlot::Puback(11)), None);
    assert_eq!(
        s.install_ack_slot(3, AckSlot::Puback(12)),
        Some(AckSlot::Puback(11))
    );
    s.stash_outbound_inflight(3, publish("a", 3));
    assert_eq!(s.discharge_outbound_puback(3), Some(12));
    assert_eq!(s.outbound_inflight_len(), 0);
    assert_eq!(s.discharge_outbound_puback(3), None);
}

#[test]
fn inbound_messages_are_released_once() {
    let mut s = MqttSession::new();
    s.stash_qos2_inbound(9, incoming_from_packet(&publish("a/b", 9)));
    assert!(s.has_qos2_inbound(9));
    assert_eq!(s.qos2_inbound_len(), 1);
    let m = s.take_qos2_inbound(9).unwrap();
    assert_eq!(m.topic(), "a/b");
    assert_eq!(m.payload(), b"p");
    assert!(s.take_qos2_inbound(9).is_none());
}

#[test]
fn unacknowledged_messages_go_out_again_as_duplicates() {
    let mut s = MqttSession::new();
    s.stash_outbound_inflight(20, publish("b", 20));
    s.stash_outbound_inflight(3, publish("a", 3));
    let again = s.drain_outbound_for_retransmit();
    let ids: Vec<u16> = again.iter().map(|(id, _)| *id).collect();
    assert_eq!(ids, vec![3, 20]);
    assert!(again.iter().all(|(_, p)| p.dup));
    assert_eq!(again[0].1.topic.as_ref(), "a");
    assert_eq!(s.outbound_inflight_len(), 2);
}

#[test]
fn a_resumed_session_takes_the_state_over() {
    let mut old = MqttSession::new();
    old.stash_outbound_inflight(4, publish("a", 4));
    old.stash_qos2_inbound(5, incoming_from_packet(&publish("b", 5)));
    let _ = old.install_ack_slot(4, AckSlot::Puback(1));
    let mut new = MqttSession::new();
    new.import_persistent_state(&mut old);
    assert_eq!(new.outbound_inflight_len(), 1);
    assert!(new.has_qos2_inbound(5));
    assert_eq!(new.outstanding_ack_count(), 0);
    assert_eq!(old.outbound_inflight_len(), 0);
    assert_eq!(old.qos2_inbound_len(), 0);
}

#[test]
fn ending_a_session_gives_its_waiters_back() {
    let mut s = MqttSession::new();
    let _ = s.install_ack_slot(2, AckSlot::Puback(7));
    let _ = s.install_ack_slot(1, AckSlot::Unsuback(8));
    s.stash_outbound_inflight(2, publish("a", 2));
    assert_eq!(
        s.abandon(),
        vec![(1, AckSlot::Unsuback(8)), (2, AckSlot::Puback(7))]
    );
    assert!(s.abandon().is_empty());
    assert_eq!(s.outbound_inflight_len(), 1);
    assert!(s.wipe().is_empty());
    assert_eq!(s.outbound_inflight_len(), 0);
}

#[test]
fn a_session_is_bound_once() {
    let mut s = MqttSession::new();
    assert!(s.client_id().is_none());
    s.bind_once(BindInfo {
        client_id: Arc::from("c1"),
        keep_alive: 30,
    });
    s.bind_once(BindInfo {
        client_id: Arc::from("c2"),
        keep_alive: 60,
    });
    assert_eq!(s.client_id().unwrap().as_ref(), "c1");
    assert_eq!(s.keep_alive(), Some(30));

    let mut b = OnceLockBindInfo::default();
    assert!(b.get().is_none());
    assert!(b
        .set(BindInfo {
            client_id: Arc::from("x"),
            keep_alive: 1
        })
        .is_ok());
    let refused = b.set(BindInfo {
        client_id: Arc::from("y"),
        keep_alive: 2,
    });
    assert_eq!(refused.err().unwrap().client_id.as_ref(), "y");
    assert_eq!(b.client_id().unwrap().as_ref(), "x");
    assert_eq!(b.keep_alive(), Some(1));
}
