use bytes::Bytes;
use hotaru_mqtt::channel::{writer_action, ProtocolRole, WriterAction};
use hotaru_mqtt::client::{DEFAULT_CONNECT_TIMEOUT_SECS, DEFAULT_KEEP_ALIVE_SECS};
use hotaru_mqtt::codec::publish_header;
use hotaru_mqtt::context::MqttContext;
use hotaru_mqtt::protocol::{
    accept_connack, await_pubcomp, begin_initial_subscribe, begin_publish, begin_request,
    begin_session, begin_subscribe, begin_unsubscribe, build_connect, client_turn,
    dispatch_client_inbound, finish_puback, finish_pubcomp, finish_request, finish_subscribe,
    finish_unsubscribe, ping_interval_secs, say_goodbye, ClientEvent, ClientTurn, PublishStart,
    RequestStart, Waited, Wake,
};
use hotaru_mqtt::{
    AckSlot, CodecError, ConnackPacket, ConnackReturnCode, MqttChannel, MqttClientConfig, MqttClientProtocol,
    MqttError, MqttRequest, MqttResponse, MqttSafety, Packet, Properties, PublishAck,
    PublishPacket, PublishRequest, QoS, SubackCode, SubackPacket, TimeoutKind, TopicFilter,
    UnsubackPacket, Violation, WillMessage, WriteCmd,
};
use std::sync::Arc;

fn channel() -> MqttChannel {
    MqttChannel::new(1, ProtocolRole::Client, 8)
}

fn request(qos: QoS) -> PublishRequest {
    PublishRequest {
        topic: Arc::from("a/b"),
        payload: Bytes::from_static(b"hello"),
        qos,
        retain: true,
    }
}

fn sent(c: &mut MqttChannel) -> Packet {
    match c.take_cmd() {
        Some(WriteCmd::Packet(p)) => p,
        _ => panic!("no packet"),
    }
}

fn sent_publish(c: &mut MqttChannel) -> PublishPacket {
    match c.take_cmd() {
        Some(WriteCmd::Publish(p)) => p,
        _ => panic!("no publish"),
    }
}

fn message(qos: QoS, id: Option<u16>) -> PublishPacket {
    PublishPacket {
        topic: Arc::from("in/t"),
        payload: Bytes::from_static(b"x"),
        dup: false,
        qos,
        retain: false,
        packet_id: id,
        properties: Properties::default(),
    }
}

#[test]
fn a_new_client_has_a_clean_session() {
    let c = MqttClientConfig::new("c");
    assert_eq!(&*c.client_id, "c");
    assert!(c.clean_session);
    assert_eq!(c.keep_alive_secs, DEFAULT_KEEP_ALIVE_SECS);
    assert_eq!(c.connect_timeout_secs, DEFAULT_CONNECT_TIMEOUT_SECS);
    assert!(c.credentials.is_none());
    assert!(c.will.is_none());
    assert_eq!(c.initial_subscriptions.len(), 0);
}

#[test]
fn the_connect_packet_holds_what_the_configuration_says() {
    let c = MqttClientConfig::new("c")
        .clean_session(false)
        .keep_alive(7)
        .with_credentials("u", "p")
        .with_will(WillMessage::new("w/t", Bytes::from_static(b"gone"), QoS::AtLeastOnce, true));
    let p = build_connect(&c);
    assert_eq!(&*p.client_id, "c");
    assert!(!p.clean_session);
    assert_eq!(p.keep_alive, 7);
    assert_eq!(p.username.as_deref(), Some("u"));
    assert!(p.password.is_some());
    let w = p.will.unwrap();
    assert_eq!(&*w.topic, "w/t");
    assert_eq!(&w.payload[..], b"gone");
    assert_eq!(w.qos, QoS::AtLeastOnce);
    assert!(w.retain);
}

#[test]
fn a_session_begins_with_connect() {
    let mut c = channel();
    let config =
        MqttClientConfig::new("c").with_safety(MqttSafety::new().with_max_inflight_messages(3));
    assert!(begin_session(&mut c, &config).is_ok());
    assert_eq!(c.session().max_inflight(), 3);
    assert!(matches!(sent(&mut c), Packet::Connect(_)));
}

#[test]
fn an_accepting_connack_binds_the_session() {
    let mut c = channel();
    let config = MqttClientConfig::new("me").keep_alive(9);
    let ack = Packet::Connack(ConnackPacket {
        session_present: false,
        return_code: ConnackReturnCode::Accepted,
        properties: Properties::default(),
    });
    assert!(accept_connack(&mut c, &config, &ack).is_ok());
    assert_eq!(c.client_id().as_deref(), Some("me"));
    assert_eq!(c.keep_alive(), Some(9));
}

#[test]
fn a_refusing_connack_is_an_error() {
    let mut c = channel();
    let config = MqttClientConfig::new("me");
    let ack = Packet::Connack(ConnackPacket {
        session_present: false,
        return_code: ConnackReturnCode::NotAuthorized,
        properties: Properties::default(),
    });
    match accept_connack(&mut c, &config, &ack) {
        Err(MqttError::Protocol(Violation::ConnectionRefused(code))) => {
            assert_eq!(code, ConnackReturnCode::NotAuthorized)
        }
        _ => panic!("accepted"),
    }
    assert!(c.client_id().is_none());
}

#[test]
fn anything_but_connack_is_an_error() {
    let mut c = channel();
    let config = MqttClientConfig::new("me");
    assert!(matches!(
        accept_connack(&mut c, &config, &Packet::Pingresp),
        Err(MqttError::Protocol(Violation::ExpectedConnack))
    ));
}

#[test]
fn a_keep_alive_of_zero_gives_no_signs_of_life() {
    assert_eq!(ping_interval_secs(0), None);
    assert_eq!(ping_interval_secs(1), Some(1));
    assert_eq!(ping_interval_secs(60), Some(60));
}

#[test]
fn qos_0_is_done_once_it_is_sent() {
    let mut c = channel();
    assert!(matches!(
        begin_publish(&mut c, request(QoS::AtMostOnce), 1),
        Ok(PublishStart::Sent)
    ));
    let p = sent_publish(&mut c);
    assert_eq!(&*p.topic, "a/b");
    assert_eq!(&p.payload[..], b"hello");
    assert_eq!(p.packet_id, None);
    assert!(p.retain);
    assert!(!p.dup);
    assert_eq!(c.session().outstanding_ack_count(), 0);
}

#[test]
fn qos_1_waits_for_puback() {
    let mut c = channel();
    let id = match begin_publish(&mut c, request(QoS::AtLeastOnce), 40) {
        Ok(PublishStart::AwaitPuback(id)) => id,
        _ => panic!("not begun"),
    };
    assert_eq!(sent_publish(&mut c).packet_id, Some(id));
    assert_eq!(c.session().outstanding_ack_count(), 1);
    let (step, r) = dispatch_client_inbound(&mut c, Packet::Puback(id), 10);
    assert!(r.is_ok());
    assert!(matches!(step.wake, Some(Wake::Acked(40, i)) if i == id));
    assert_eq!(c.session().outstanding_ack_count(), 0);
    assert!(matches!(
        finish_puback(&mut c, id, Waited::Acked),
        Ok(MqttResponse::Published(PublishAck::Acknowledged(i))) if i == id
    ));
}

#[test]
fn qos_2_waits_for_pubrec_and_pubcomp() {
    let mut c = channel();
    let id = match begin_publish(&mut c, request(QoS::ExactlyOnce), 5) {
        Ok(PublishStart::AwaitPubrec(id)) => id,
        _ => panic!("not begun"),
    };
    let _published = sent_publish(&mut c);
    let (step, _) = dispatch_client_inbound(&mut c, Packet::Pubrec(id), 10);
    assert!(matches!(step.wake, Some(Wake::Acked(5, _))));
    assert!(matches!(sent(&mut c), Packet::Pubrel(i) if i == id));
    assert!(await_pubcomp(&mut c, id, Waited::Acked, 6).is_ok());
    let (step, _) = dispatch_client_inbound(&mut c, Packet::Pubcomp(id), 10);
    assert!(matches!(step.wake, Some(Wake::Acked(6, _))));
    assert!(matches!(
        finish_pubcomp(&mut c, id, Waited::Acked),
        Ok(MqttResponse::Published(PublishAck::Completed(i))) if i == id
    ));
}

#[test]
fn an_acknowledgement_of_another_kind_wakes_nobody() {
    let mut c = channel();
    let id = match begin_publish(&mut c, request(QoS::AtLeastOnce), 40) {
        Ok(PublishStart::AwaitPuback(id)) => id,
        _ => panic!("not begun"),
    };
    let (step, r) = dispatch_client_inbound(
        &mut c,
        Packet::Unsuback(UnsubackPacket { packet_id: id, reason_codes: Vec::new() }),
        10,
    );
    assert!(r.is_ok());
    assert!(step.wake.is_none());
    let (step, _) = dispatch_client_inbound(&mut c, Packet::Puback(id + 1), 10);
    assert!(step.wake.is_none());
}

#[test]
fn a_late_acknowledgement_is_a_timeout() {
    let mut c = channel();
    let id = match begin_publish(&mut c, request(QoS::AtLeastOnce), 40) {
        Ok(PublishStart::AwaitPuback(id)) => id,
        _ => panic!("not begun"),
    };
    assert!(matches!(
        finish_puback(&mut c, id, Waited::TimedOut),
        Err(MqttError::Timeout(TimeoutKind::Ack))
    ));
    assert_eq!(c.session().outstanding_ack_count(), 0);
}

#[test]
fn a_dropped_waiter_means_a_closed_channel() {
    let mut c = channel();
    let id = match begin_publish(&mut c, request(QoS::AtLeastOnce), 40) {
        Ok(PublishStart::AwaitPuback(id)) => id,
        _ => panic!("not begun"),
    };
    let dropped = c.close();
    assert_eq!(dropped.len(), 1);
    assert!(matches!(dropped[0], (i, AckSlot::Puback(40)) if i == id));
    assert!(matches!(
        finish_puback(&mut c, id, Waited::Dropped),
        Err(MqttError::ChannelClosed)
    ));
}

#[test]
fn no_more_operations_are_under_way_than_allowed() {
    let mut c = channel();
    let config =
        MqttClientConfig::new("c").with_safety(MqttSafety::new().with_max_inflight_messages(2));
    assert!(begin_session(&mut c, &config).is_ok());
    assert!(begin_publish(&mut c, request(QoS::AtLeastOnce), 1).is_ok());
    assert!(begin_publish(&mut c, request(QoS::ExactlyOnce), 2).is_ok());
    assert!(matches!(
        begin_publish(&mut c, request(QoS::AtLeastOnce), 3),
        Err(MqttError::TooManyInflight { limit: 2 })
    ));
    assert!(matches!(
        begin_subscribe(&mut c, &[TopicFilter::new("a", QoS::AtMostOnce)], 4),
        Err(MqttError::TooManyInflight { limit: 2 })
    ));
}

#[test]
fn subscribe_hands_back_the_codes() {
    let mut c = channel();
    let filters = [
        TopicFilter::new("a/+", QoS::AtLeastOnce),
        TopicFilter::new("b/#", QoS::AtMostOnce),
    ];
    let id = begin_subscribe(&mut c, &filters, 7).unwrap();
    match sent(&mut c) {
        Packet::Subscribe(s) => {
            assert_eq!(s.packet_id, id);
            assert_eq!(s.subscriptions.len(), 2);
            assert_eq!(&*s.subscriptions[0].topic, "a/+");
            assert_eq!(s.subscriptions[0].qos, QoS::AtLeastOnce);
            assert_eq!(&*s.subscriptions[1].topic, "b/#");
        }
        _ => panic!("no SUBSCRIBE"),
    }
    let (step, _) = dispatch_client_inbound(
        &mut c,
        Packet::Suback(SubackPacket {
            packet_id: id,
            return_codes: vec![SubackCode::Granted(QoS::AtLeastOnce), SubackCode::Failure],
        }),
        10,
    );
    let codes = match step.wake {
        Some(Wake::Subacked(7, codes)) => codes,
        _ => panic!("nobody woke"),
    };
    match finish_subscribe(&mut c, id, Waited::Acked, codes) {
        Ok(MqttResponse::Subscribed(codes)) => assert_eq!(
            codes,
            vec![SubackCode::Granted(QoS::AtLeastOnce), SubackCode::Failure]
        ),
        _ => panic!("not subscribed"),
    }
}

#[test]
fn the_first_subscriptions_come_from_the_configuration() {
    let mut c = channel();
    assert!(matches!(
        begin_initial_subscribe(&mut c, &MqttClientConfig::new("c"), 1),
        Ok(None)
    ));
    assert!(c.take_cmd().is_none());
    let config = MqttClientConfig::new("c").with_initial_subscribe("x/#", QoS::ExactlyOnce);
    assert!(matches!(begin_initial_subscribe(&mut c, &config, 1), Ok(Some(_))));
    match sent(&mut c) {
        Packet::Subscribe(s) => {
            assert_eq!(&*s.subscriptions[0].topic, "x/#");
            assert_eq!(s.subscriptions[0].qos, QoS::ExactlyOnce);
        }
        _ => panic!("no SUBSCRIBE"),
    }
}

#[test]
fn unsubscribe_waits_for_its_answer() {
    let mut c = channel();
    let id = begin_unsubscribe(&mut c, vec![Arc::from("a/+")], 8).unwrap();
    match sent(&mut c) {
        Packet::Unsubscribe(u) => assert_eq!(&*u.topics[0], "a/+"),
        _ => panic!("no UNSUBSCRIBE"),
    }
    let (step, _) = dispatch_client_inbound(
        &mut c,
        Packet::Unsuback(UnsubackPacket { packet_id: id, reason_codes: Vec::new() }),
        10,
    );
    assert!(matches!(step.wake, Some(Wake::Unsubacked(8))));
    assert!(matches!(
        finish_unsubscribe(&mut c, id, Waited::Acked),
        Ok(MqttResponse::Unsubscribed)
    ));
}

#[test]
fn inbound_qos_0_is_delivered_without_an_answer() {
    let mut c = channel();
    let (step, r) =
        dispatch_client_inbound(&mut c, Packet::Publish(message(QoS::AtMostOnce, None)), 10);
    assert!(r.is_ok());
    assert_eq!(step.deliver.unwrap().topic(), "in/t");
    assert!(c.take_cmd().is_none());
}

#[test]
fn inbound_qos_1_is_acknowledged_first() {
    let mut c = channel();
    let (step, r) =
        dispatch_client_inbound(&mut c, Packet::Publish(message(QoS::AtLeastOnce, Some(3))), 10);
    assert!(r.is_ok());
    assert!(step.deliver.is_some());
    assert!(matches!(sent(&mut c), Packet::Puback(3)));
}

#[test]
fn inbound_qos_2_is_delivered_once() {
    let mut c = channel();
    for _ in 0..2 {
        let (step, r) = dispatch_client_inbound(
            &mut c,
            Packet::Publish(message(QoS::ExactlyOnce, Some(3))),
            10,
        );
        assert!(r.is_ok());
        assert!(step.deliver.is_none());
        assert!(matches!(sent(&mut c), Packet::Pubrec(3)));
    }
    let (step, _) = dispatch_client_inbound(&mut c, Packet::Pubrel(3), 10);
    assert!(step.deliver.is_some());
    assert!(matches!(sent(&mut c), Packet::Pubcomp(3)));
    let (step, _) = dispatch_client_inbound(&mut c, Packet::Pubrel(3), 10);
    assert!(step.deliver.is_none());
    assert!(matches!(sent(&mut c), Packet::Pubcomp(3)));
}

#[test]
fn one_message_too_many_breaks_the_receive_maximum() {
    let mut c = channel();
    for id in 1..3 {
        let (_, r) = dispatch_client_inbound(
            &mut c,
            Packet::Publish(message(QoS::ExactlyOnce, Some(id))),
            2,
        );
        assert!(r.is_ok());
    }
    let (_, r) = dispatch_client_inbound(
        &mut c,
        Packet::Publish(message(QoS::ExactlyOnce, Some(3))),
        2,
    );
    assert!(matches!(
        r,
        Err(MqttError::Protocol(Violation::ReceiveMaximumExceeded { limit: 2 }))
    ));
}

#[test]
fn a_session_ends_with_disconnect() {
    let mut c = channel();
    let (step, _) = dispatch_client_inbound(&mut c, Packet::Disconnect, 10);
    assert!(step.stop);
    let (step, _) = dispatch_client_inbound(&mut c, Packet::Pingresp, 10);
    assert!(!step.stop);
    say_goodbye(&mut c);
    assert!(matches!(sent(&mut c), Packet::Disconnect));
}

#[test]
fn turns_of_the_loop() {
    let mut c = channel();
    assert!(matches!(
        client_turn(&mut c, ClientEvent::PingDue, 10).1,
        ClientTurn::Continue
    ));
    assert!(matches!(sent(&mut c), Packet::Pingreq));
    assert!(matches!(
        client_turn(&mut c, ClientEvent::Packet(Packet::Pingresp), 10).1,
        ClientTurn::Continue
    ));
    assert!(matches!(
        client_turn(&mut c, ClientEvent::Failed(MqttError::Io("gone".to_string())), 10).1,
        ClientTurn::Stop
    ));
    assert!(matches!(
        client_turn(&mut c, ClientEvent::Failed(MqttError::ChannelClosed), 10).1,
        ClientTurn::Fail(MqttError::ChannelClosed)
    ));
    assert!(matches!(
        client_turn(&mut c, ClientEvent::Packet(Packet::Disconnect), 10).1,
        ClientTurn::Stop
    ));
    assert!(matches!(
        client_turn(&mut c, ClientEvent::Closed, 10).1,
        ClientTurn::Stop
    ));
    let _waiters = c.close();
    assert!(matches!(
        client_turn(&mut c, ClientEvent::PingDue, 10).1,
        ClientTurn::Stop
    ));
}

#[test]
fn a_request_needs_a_connection() {
    let mut c = channel();
    let mut ctx = MqttContext::default();
    ctx.inject_request(MqttRequest::Publish(request(QoS::AtMostOnce)));
    match begin_request(&mut ctx, &mut c, 1) {
        Err(MqttError::NotConnected(m)) => assert_eq!(m, "no channel installed in ctx"),
        _ => panic!("begun"),
    }
    ctx.install_channel(&c);
    assert!(matches!(
        begin_request(&mut ctx, &mut c, 1),
        Ok(RequestStart::Publish(PublishStart::Sent))
    ));
    assert_eq!(&*sent_publish(&mut c).topic, "a/b");
    assert!(matches!(&ctx.request, MqttRequest::Publish(p) if p.topic.is_empty()));
}

#[test]
fn requests_of_every_kind_are_begun_and_ended() {
    let mut c = channel();
    let mut ctx = MqttContext::default();
    ctx.install_channel(&c);
    ctx.inject_request(MqttRequest::Subscribe(vec![TopicFilter::new("a", QoS::AtMostOnce)]));
    let id = match begin_request(&mut ctx, &mut c, 1) {
        Ok(RequestStart::AwaitSuback(id)) => id,
        _ => panic!("not begun"),
    };
    let answer = finish_subscribe(&mut c, id, Waited::Acked, vec![SubackCode::Failure]);
    assert!(finish_request(&mut ctx, answer).is_ok());
    assert!(matches!(&ctx.response, MqttResponse::Subscribed(v) if v.len() == 1));
    ctx.inject_request(MqttRequest::Unsubscribe(vec![Arc::from("a")]));
    let id = match begin_request(&mut ctx, &mut c, 2) {
        Ok(RequestStart::AwaitUnsuback(id)) => id,
        _ => panic!("not begun"),
    };
    let answer = finish_unsubscribe(&mut c, id, Waited::TimedOut);
    assert!(finish_request(&mut ctx, answer).is_err());
    assert!(matches!(ctx.into_response(), MqttResponse::Subscribed(_)));
}

#[test]
fn all_requests_share_the_first_connection() {
    let mut p = MqttClientProtocol::new();
    assert_eq!(p.name(), "mqtt");
    match p.acquire_channel() {
        Err(MqttError::NotConnected(m)) => {
            assert_eq!(m, "call client.run_wire(wire) to establish session first")
        }
        _ => panic!("connected"),
    }
    p.open_channel(4);
    p.open_channel(5);
    assert!(matches!(p.acquire_channel(), Ok(4)));
}

#[test]
fn what_the_writer_does_with_commands() {
    match writer_action(&WriteCmd::Packet(Packet::Pingreq)) {
        WriterAction::Write(b) => assert_eq!(b, vec![0xC0, 0x00]),
        _ => panic!("not written"),
    }
    match writer_action(&WriteCmd::Publish(message(QoS::AtMostOnce, None))) {
        WriterAction::Write(b) => {
            assert_eq!(b, vec![0x30, 7, 0, 4, b'i', b'n', b'/', b't', b'x'])
        }
        _ => panic!("not written"),
    }
    assert!(matches!(writer_action(&WriteCmd::Flush), WriterAction::Flush));
    assert!(matches!(writer_action(&WriteCmd::Shutdown), WriterAction::Stop));
}

#[test]
fn a_streamed_message_needs_an_identifier_above_qos_0() {
    for id in [None, Some(0)] {
        assert!(matches!(
            publish_header(&message(QoS::AtLeastOnce, id)),
            Err(MqttError::Codec(CodecError::QosRequiresPacketId))
        ));
        assert!(matches!(
            writer_action(&WriteCmd::Publish(message(QoS::ExactlyOnce, id))),
            WriterAction::Stop
        ));
        assert!(publish_header(&message(QoS::AtMostOnce, id)).is_ok());
    }
    assert!(publish_header(&message(QoS::AtLeastOnce, Some(1))).is_ok());
}
