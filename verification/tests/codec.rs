use bytes::{Bytes, BytesMut};
use hotaru_mqtt::buffer::SecretBytes;
use hotaru_mqtt::codec::{decode_packet_from_bytes, encode_packet, read_header};
use hotaru_mqtt::{
    CodecError, ConnectPacket, MqttError, Packet, Properties, ProtocolVersion, PublishPacket, QoS,
    SubscribePacket, TopicSubscription, UnsubackPacket, UnsubscribePacket, Violation, WillPacket,
};
use std::sync::Arc;

/// The length of a body as the fixed header gives it.
fn encode_remaining_length(len: usize) -> Vec<u8> {
    let mut out = Vec::new();
    let mut rest = len;
    loop {
        let low = (rest % 128) as u8;
        rest /= 128;
        if rest > 0 {
            out.push(low | 0x80);
        } else {
            out.push(low);
            return out;
        }
    }
}


#[test]
fn encode_decode_connect_round_trip() {
    let original = ConnectPacket {
        version: ProtocolVersion::V311,
        properties: Properties::default(),
        client_id: Arc::from("cid"),
        clean_session: true,
        keep_alive: 60,
        username: None,
        password: None,
        will: None,
    };
    let bytes = encode_packet(&Packet::Connect(original.clone())).unwrap();
    let mut buf = BytesMut::from(&bytes[..]);
    match decode_packet_from_bytes(&mut buf, usize::MAX)
        .unwrap()
        .unwrap()
    {
        Packet::Connect(c) => {
            assert_eq!(c.client_id.as_ref(), "cid");
            assert!(c.clean_session);
            assert_eq!(c.keep_alive, 60);
            assert!(c.will.is_none());
        }
        _ => panic!("expected Connect"),
    }
}

#[test]
fn encode_decode_connect_with_will() {
    let original = ConnectPacket {
        version: ProtocolVersion::V311,
        properties: Properties::default(),
        client_id: Arc::from("cid"),
        clean_session: false,
        keep_alive: 30,
        username: Some(Arc::from("alice")),
        password: Some(SecretBytes::new(b"secret".to_vec())),
        will: Some(WillPacket {
            topic: Arc::from("offline"),
            payload: Bytes::from_static(b"bye"),
            qos: QoS::AtLeastOnce,
            retain: true,
            properties: Properties::default(),
        }),
    };
    let bytes = encode_packet(&Packet::Connect(original)).unwrap();
    let mut buf = BytesMut::from(&bytes[..]);
    match decode_packet_from_bytes(&mut buf, usize::MAX)
        .unwrap()
        .unwrap()
    {
        Packet::Connect(c) => {
            assert_eq!(c.username.as_ref().unwrap().as_ref(), "alice");
            let p = c.password.as_ref().unwrap();
            assert_eq!(p.as_slice(), b"secret");
            let w = c.will.unwrap();
            assert_eq!(w.topic.as_ref(), "offline");
            assert_eq!(&w.payload[..], b"bye");
            assert_eq!(w.qos, QoS::AtLeastOnce);
            assert!(w.retain);
        }
        _ => panic!("expected Connect"),
    }
}

#[test]
fn encode_decode_publish_qos0() {
    let p = PublishPacket {
        topic: Arc::from("sensors/temp"),
        payload: Bytes::from_static(b"42"),
        dup: false,
        qos: QoS::AtMostOnce,
        retain: false,
        packet_id: None,
        properties: Properties::default(),
    };
    let bytes = encode_packet(&Packet::Publish(p)).unwrap();
    let mut buf = BytesMut::from(&bytes[..]);
    match decode_packet_from_bytes(&mut buf, usize::MAX)
        .unwrap()
        .unwrap()
    {
        Packet::Publish(p) => {
            assert_eq!(p.topic.as_ref(), "sensors/temp");
            assert_eq!(&p.payload[..], b"42");
            assert_eq!(p.qos, QoS::AtMostOnce);
            assert!(p.packet_id.is_none());
        }
        _ => panic!("expected Publish"),
    }
}

#[test]
fn encode_decode_publish_qos1() {
    let p = PublishPacket {
        topic: Arc::from("a/b"),
        payload: Bytes::from_static(b"x"),
        dup: false,
        qos: QoS::AtLeastOnce,
        retain: false,
        packet_id: Some(42),
        properties: Properties::default(),
    };
    let bytes = encode_packet(&Packet::Publish(p)).unwrap();
    let mut buf = BytesMut::from(&bytes[..]);
    match decode_packet_from_bytes(&mut buf, usize::MAX)
        .unwrap()
        .unwrap()
    {
        Packet::Publish(p) => {
            assert_eq!(p.qos, QoS::AtLeastOnce);
            assert_eq!(p.packet_id, Some(42));
        }
        _ => panic!("expected Publish"),
    }
}

#[test]
fn encode_decode_subscribe_unsubscribe() {
    let s = SubscribePacket {
        packet_id: 7,
        subscriptions: vec![
            TopicSubscription {
                topic: Arc::from("a/+"),
                qos: QoS::AtLeastOnce,
            },
            TopicSubscription {
                topic: Arc::from("b/#"),
                qos: QoS::ExactlyOnce,
            },
        ],
    };
    let bytes = encode_packet(&Packet::Subscribe(s)).unwrap();
    let mut buf = BytesMut::from(&bytes[..]);
    match decode_packet_from_bytes(&mut buf, usize::MAX)
        .unwrap()
        .unwrap()
    {
        Packet::Subscribe(s) => {
            assert_eq!(s.packet_id, 7);
            assert_eq!(s.subscriptions.len(), 2);
            assert_eq!(s.subscriptions[0].topic.as_ref(), "a/+");
            assert_eq!(s.subscriptions[1].qos, QoS::ExactlyOnce);
        }
        _ => panic!("expected Subscribe"),
    }

    let u = UnsubscribePacket {
        packet_id: 8,
        topics: vec![Arc::from("a/+"), Arc::from("b/#")],
    };
    let bytes = encode_packet(&Packet::Unsubscribe(u)).unwrap();
    let mut buf = BytesMut::from(&bytes[..]);
    match decode_packet_from_bytes(&mut buf, usize::MAX)
        .unwrap()
        .unwrap()
    {
        Packet::Unsubscribe(u) => {
            assert_eq!(u.packet_id, 8);
            assert_eq!(u.topics.len(), 2);
        }
        _ => panic!("expected Unsubscribe"),
    }
}

#[test]
fn pingreq_pingresp_disconnect_unsuback() {
    assert_eq!(encode_packet(&Packet::Pingreq).unwrap(), vec![0xC0, 0x00]);
    assert_eq!(encode_packet(&Packet::Pingresp).unwrap(), vec![0xD0, 0x00]);
    assert_eq!(
        encode_packet(&Packet::Disconnect).unwrap(),
        vec![0xE0, 0x00]
    );
    assert_eq!(
        encode_packet(&Packet::Unsuback(UnsubackPacket::new(42))).unwrap(),
        vec![0xB0, 0x02, 0x00, 0x2A]
    );
}
#[test]
fn encode_rejects_oversize_topic() {
    let oversize: Arc<str> = Arc::from("x".repeat(65_536).as_str());
    let publish = PublishPacket {
        topic: oversize,
        payload: Bytes::new(),
        dup: false,
        qos: QoS::AtMostOnce,
        retain: false,
        packet_id: None,
        properties: Properties::default(),
    };
    let err = encode_packet(&Packet::Publish(publish)).unwrap_err();
    assert!(
        matches!(
            err,
            MqttError::Codec(CodecError::FieldTooLong { kind, .. })
                if kind == "publish.topic"
        ),
        "expected FieldTooLong{{kind=publish.topic}}, got {err:?}"
    );
}

#[test]
fn partial_buffer_returns_none() {
    let mut buf = BytesMut::from(&[0x10u8][..]);
    assert!(
        decode_packet_from_bytes(&mut buf, usize::MAX)
            .unwrap()
            .is_none()
    );
    assert_eq!(buf.len(), 1, "buffer must not be consumed on partial");
}
fn build_publish_wire(
    flags: u8,
    topic: &[u8],
    packet_id: Option<u16>,
    payload: &[u8],
) -> Vec<u8> {
    let mut body = Vec::new();
    body.extend_from_slice(&(topic.len() as u16).to_be_bytes());
    body.extend_from_slice(topic);
    if let Some(id) = packet_id {
        body.extend_from_slice(&id.to_be_bytes());
    }
    body.extend_from_slice(payload);
    let mut frame = vec![0x30 | (flags & 0x0F)];
    frame.extend(encode_remaining_length(body.len()));
    frame.extend(body);
    frame
}

fn must_violation(err: MqttError) -> Violation {
    match err {
        MqttError::Protocol(v) => v,
        other => panic!("expected MqttError::Protocol, got {:?}", other),
    }
}

#[test]
fn publish_with_dup_set_on_qos0_rejected() {
    let wire = build_publish_wire(0x08, b"a", None, b"x");
    let mut buf = BytesMut::from(&wire[..]);
    let err = decode_packet_from_bytes(&mut buf, usize::MAX)
        .err()
        .expect("DUP+QoS0 must be rejected");
    assert_eq!(must_violation(err), Violation::DupSetOnQos0);
}

#[test]
fn publish_packet_id_zero_rejected() {
    let wire = build_publish_wire(0x02, b"a", Some(0), b"x");
    let mut buf = BytesMut::from(&wire[..]);
    let err = decode_packet_from_bytes(&mut buf, usize::MAX)
        .err()
        .expect("packet_id=0 on QoS>0 must be rejected");
    assert_eq!(must_violation(err), Violation::PacketIdZero);
}

#[test]
fn publish_empty_topic_rejected() {
    let wire = build_publish_wire(0x00, b"", None, b"x");
    let mut buf = BytesMut::from(&wire[..]);
    let err = decode_packet_from_bytes(&mut buf, usize::MAX)
        .err()
        .expect("empty topic must be rejected");
    assert_eq!(must_violation(err), Violation::EmptyPublishTopic);
}

#[test]
fn connack_reserved_bits_rejected() {
    let wire = [0x20, 0x02, 0x02, 0x00];
    let mut buf = BytesMut::from(&wire[..]);
    let err = decode_packet_from_bytes(&mut buf, usize::MAX)
        .err()
        .expect("CONNACK reserved bits must be rejected");
    assert_eq!(must_violation(err), Violation::ConnackReservedBits);
}

#[test]
fn connack_session_present_with_non_accepted_rejected() {
    let wire = [0x20, 0x02, 0x01, 0x05];
    let mut buf = BytesMut::from(&wire[..]);
    let err = decode_packet_from_bytes(&mut buf, usize::MAX)
        .err()
        .expect("SessionPresent + error code must be rejected");
    assert_eq!(must_violation(err), Violation::SessionPresentWithError);
}

#[test]
fn publish_wildcard_in_topic_rejected() {
    let wire = build_publish_wire(0x00, b"a/+/b", None, b"x");
    let mut buf = BytesMut::from(&wire[..]);
    let err = decode_packet_from_bytes(&mut buf, usize::MAX)
        .err()
        .expect("wildcard topic must be rejected");
    assert_eq!(must_violation(err), Violation::WildcardInPublishTopic);
}
fn build_subscribe_wire(reserved_bits: u8, topic: &[u8]) -> Vec<u8> {
    let mut body = Vec::new();
    body.extend_from_slice(&7u16.to_be_bytes());
    body.extend_from_slice(&(topic.len() as u16).to_be_bytes());
    body.extend_from_slice(topic);
    body.push(0x00);
    let mut frame = vec![0x80 | (reserved_bits & 0x0F)];
    frame.extend(encode_remaining_length(body.len()));
    frame.extend(body);
    frame
}

fn build_unsubscribe_wire(reserved_bits: u8, topic: &[u8]) -> Vec<u8> {
    let mut body = Vec::new();
    body.extend_from_slice(&7u16.to_be_bytes());
    body.extend_from_slice(&(topic.len() as u16).to_be_bytes());
    body.extend_from_slice(topic);
    let mut frame = vec![0xA0 | (reserved_bits & 0x0F)];
    frame.extend(encode_remaining_length(body.len()));
    frame.extend(body);
    frame
}

#[test]
fn subscribe_reserved_bits_must_be_0010() {
    let wire = build_subscribe_wire(0x00, b"a/b");
    let mut buf = BytesMut::from(&wire[..]);
    let err = decode_packet_from_bytes(&mut buf, usize::MAX)
        .err()
        .expect("SUBSCRIBE low-nibble 0000 must be rejected");
    assert_eq!(must_violation(err), Violation::SubscribeReservedBits);
    let wire_ok = build_subscribe_wire(0x02, b"a/b");
    let mut buf_ok = BytesMut::from(&wire_ok[..]);
    assert!(decode_packet_from_bytes(&mut buf_ok, usize::MAX).is_ok());
}

#[test]
fn unsubscribe_reserved_bits_must_be_0010() {
    let wire = build_unsubscribe_wire(0x04, b"a/b");
    let mut buf = BytesMut::from(&wire[..]);
    let err = decode_packet_from_bytes(&mut buf, usize::MAX)
        .err()
        .expect("UNSUBSCRIBE non-0010 must be rejected");
    assert_eq!(must_violation(err), Violation::UnsubscribeReservedBits);
}

#[test]
fn utf8_null_in_topic_rejected() {
    let wire = build_publish_wire(0x00, b"a\0b", None, b"x");
    let mut buf = BytesMut::from(&wire[..]);
    let err = decode_packet_from_bytes(&mut buf, usize::MAX)
        .err()
        .expect("U+0000 in UTF-8 string must be rejected");
    assert_eq!(must_violation(err), Violation::Utf8NullCharacter);
}
fn build_connect_wire(flags: u8, client_id: &[u8]) -> Vec<u8> {
    let mut body = Vec::new();
    body.extend_from_slice(&[0x00, 0x04, b'M', b'Q', b'T', b'T']);
    body.push(0x04);
    body.push(flags);
    body.extend_from_slice(&60u16.to_be_bytes());
    body.extend_from_slice(&(client_id.len() as u16).to_be_bytes());
    body.extend_from_slice(client_id);
    let mut frame = vec![0x10];
    frame.extend(encode_remaining_length(body.len()));
    frame.extend(body);
    frame
}

#[test]
fn connect_reserved_bit_rejected() {
    let wire = build_connect_wire(0x01, b"cid");
    let mut buf = BytesMut::from(&wire[..]);
    let err = decode_packet_from_bytes(&mut buf, usize::MAX)
        .err()
        .expect("reserved bit must be rejected");
    assert_eq!(must_violation(err), Violation::ReservedHeaderBits);
}

#[test]
fn connect_will_qos_set_without_will_flag_rejected() {
    let wire = build_connect_wire(0x18, b"cid");
    let mut buf = BytesMut::from(&wire[..]);
    let err = decode_packet_from_bytes(&mut buf, usize::MAX)
        .err()
        .expect("will QoS without will flag must be rejected");
    assert_eq!(must_violation(err), Violation::ReservedHeaderBits);
}

#[test]
fn connect_will_retain_without_will_flag_rejected() {
    let wire = build_connect_wire(0x20, b"cid");
    let mut buf = BytesMut::from(&wire[..]);
    let err = decode_packet_from_bytes(&mut buf, usize::MAX)
        .err()
        .expect("will retain without will flag must be rejected");
    assert_eq!(must_violation(err), Violation::ReservedHeaderBits);
}

#[test]
fn connect_password_flag_without_username_flag_rejected() {
    let wire = build_connect_wire(0x40, b"cid");
    let mut buf = BytesMut::from(&wire[..]);
    let err = decode_packet_from_bytes(&mut buf, usize::MAX)
        .err()
        .expect("password without username must be rejected");
    assert_eq!(must_violation(err), Violation::ReservedHeaderBits);
}

#[test]
fn read_packet_rejects_oversize_before_alloc() {
    let mut wire = vec![0x30, 0x05];
    wire.extend_from_slice(&[0u8; 5]);
    let err = read_header(&wire[..2], 4).err().expect("oversize must be rejected");
    match must_violation(err) {
        Violation::PacketTooLarge { len, max } => {
            assert_eq!(len, 5);
            assert_eq!(max, 4);
        }
        other => panic!("expected PacketTooLarge, got {:?}", other),
    }
}

fn must_codec_error(err: MqttError) -> CodecError {
    match err {
        MqttError::Codec(c) => c,
        other => panic!("expected CodecError, got {:?}", other),
    }
}

#[test]
fn encode_publish_rejects_qos1_without_packet_id() {
    let pkt = Packet::Publish(PublishPacket {
        topic: Arc::from("sensors/temp"),
        payload: Bytes::from_static(b"21"),
        dup: false,
        qos: QoS::AtLeastOnce,
        retain: false,
        packet_id: None,
        properties: Properties::default(),
    });
    let err = encode_packet(&pkt).err().expect("QoS1 without pkt-id must fail");
    assert!(matches!(
        must_codec_error(err),
        CodecError::QosRequiresPacketId
    ));
}

#[test]
fn encode_publish_rejects_qos2_with_zero_packet_id() {
    let pkt = Packet::Publish(PublishPacket {
        topic: Arc::from("sensors/temp"),
        payload: Bytes::from_static(b"21"),
        dup: false,
        qos: QoS::ExactlyOnce,
        retain: false,
        packet_id: Some(0),
        properties: Properties::default(),
    });
    let err = encode_packet(&pkt).err().expect("QoS2 with pkt-id 0 must fail");
    assert!(matches!(
        must_codec_error(err),
        CodecError::QosRequiresPacketId
    ));
}

#[test]
fn encode_publish_qos0_still_accepts_none_packet_id() {
    let pkt = Packet::Publish(PublishPacket {
        topic: Arc::from("sensors/temp"),
        payload: Bytes::from_static(b"21"),
        dup: false,
        qos: QoS::AtMostOnce,
        retain: false,
        packet_id: None,
        properties: Properties::default(),
    });
    let bytes = encode_packet(&pkt).expect("QoS0 + None must encode fine");
    assert!(!bytes.is_empty());
}
