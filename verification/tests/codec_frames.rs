use bytes::{Bytes, BytesMut};
use hotaru_mqtt::buffer::SecretBytes;
use hotaru_mqtt::codec::{
    decode_packet_from_bytes, encode_packet, packet_type, parse_packet, publish_header, read_header,
};
use hotaru_mqtt::packet::PacketType;
use hotaru_mqtt::{
    CodecError, ConnackPacket, ConnackReturnCode, ConnectPacket, MqttError, Packet, Properties,
    ProtocolVersion, PublishPacket, QoS, SubackCode, SubackPacket, SubscribePacket,
    TopicSubscription, UnsubackPacket, UnsubscribePacket, Violation, WillPacket,
};
use std::sync::Arc;

fn publish(topic: &str, payload: &'static [u8], qos: QoS, packet_id: Option<u16>) -> PublishPacket {
    PublishPacket {
        topic: Arc::from(topic),
        payload: Bytes::from_static(payload),
        dup: false,
        qos,
        retain: false,
        packet_id,
        properties: Properties::default(),
    }
}

fn decode(wire: &[u8]) -> Result<Option<Packet>, MqttError> {
    let mut buf = BytesMut::from(wire);
    decode_packet_from_bytes(&mut buf, usize::MAX)
}

fn codec_error(wire: &[u8]) -> CodecError {
    match decode(wire) {
        Err(MqttError::Codec(e)) => e,
        Err(other) => panic!("expected a codec error, got {:?}", other),
        Ok(_) => panic!("expected a codec error"),
    }
}

fn violation(wire: &[u8]) -> Violation {
    match decode(wire) {
        Err(MqttError::Protocol(v)) => v,
        Err(other) => panic!("expected a violation, got {:?}", other),
        Ok(_) => panic!("expected a violation"),
    }
}

#[test]
fn connect_frame_is_exact() {
    let connect = ConnectPacket {
        version: ProtocolVersion::V311,
        properties: Properties::default(),
        client_id: Arc::from("c"),
        clean_session: true,
        keep_alive: 258,
        username: Some(Arc::from("u")),
        password: Some(SecretBytes::new(vec![1, 2])),
        will: Some(WillPacket {
            topic: Arc::from("t"),
            payload: Bytes::from_static(b"p"),
            qos: QoS::ExactlyOnce,
            retain: true,
            properties: Properties::default(),
        }),
    };
    let wire = encode_packet(&Packet::Connect(connect)).unwrap();
    assert_eq!(
        wire,
        vec![
            0x10, 26, 0, 4, b'M', b'Q', b'T', b'T', 4, 0xF6, 1, 2, 0, 1, b'c', 0, 1, b't', 0, 1,
            b'p', 0, 1, b'u', 0, 2, 1, 2,
        ]
    );
    match decode(&wire).unwrap().unwrap() {
        Packet::Connect(c) => {
            assert_eq!(c.version, ProtocolVersion::V311);
            assert_eq!(c.client_id.as_ref(), "c");
            assert_eq!(c.keep_alive, 258);
            assert_eq!(c.username.unwrap().as_ref(), "u");
            assert_eq!(c.password.unwrap().as_slice(), &[1, 2]);
            let will = c.will.unwrap();
            assert_eq!(will.topic.as_ref(), "t");
            assert_eq!(&will.payload[..], b"p");
            assert_eq!(will.qos, QoS::ExactlyOnce);
            assert!(will.retain);
        }
        _ => panic!("expected Connect"),
    }
}

#[test]
fn short_frames_are_exact() {
    let cases: Vec<(Packet, Vec<u8>)> = vec![
        (
            Packet::Connack(ConnackPacket {
                session_present: true,
                return_code: ConnackReturnCode::Accepted,
                properties: Properties::default(),
            }),
            vec![0x20, 2, 1, 0],
        ),
        (
            Packet::Connack(ConnackPacket {
                session_present: false,
                return_code: ConnackReturnCode::NotAuthorized,
                properties: Properties::default(),
            }),
            vec![0x20, 2, 0, 5],
        ),
        (Packet::Puback(258), vec![0x40, 2, 1, 2]),
        (Packet::Pubrec(1), vec![0x50, 2, 0, 1]),
        (Packet::Pubrel(1), vec![0x62, 2, 0, 1]),
        (Packet::Pubcomp(65535), vec![0x70, 2, 255, 255]),
        (
            Packet::Suback(SubackPacket {
                packet_id: 3,
                return_codes: vec![SubackCode::Granted(QoS::ExactlyOnce), SubackCode::Failure],
            }),
            vec![0x90, 4, 0, 3, 2, 0x80],
        ),
        (
            Packet::Subscribe(SubscribePacket {
                packet_id: 4,
                subscriptions: vec![TopicSubscription {
                    topic: Arc::from("a/+"),
                    qos: QoS::AtLeastOnce,
                }],
            }),
            vec![0x82, 8, 0, 4, 0, 3, b'a', b'/', b'+', 1],
        ),
        (
            Packet::Unsubscribe(UnsubscribePacket {
                packet_id: 5,
                topics: vec![Arc::from("#")],
            }),
            vec![0xA2, 5, 0, 5, 0, 1, b'#'],
        ),
        (
            Packet::Unsuback(UnsubackPacket {
                packet_id: 6,
                reason_codes: vec![0, 0],
            }),
            vec![0xB0, 2, 0, 6],
        ),
    ];
    for (packet, wire) in cases {
        assert_eq!(encode_packet(&packet).unwrap(), wire);
        let read = decode(&wire).unwrap().unwrap();
        assert_eq!(read.name(), packet.name());
        assert_eq!(encode_packet(&read).unwrap(), wire);
    }
}

#[test]
fn publish_frame_is_exact() {
    let mut p = publish("a/b", b"xy", QoS::AtLeastOnce, Some(10));
    p.dup = true;
    p.retain = true;
    let wire = encode_packet(&Packet::Publish(p.clone())).unwrap();
    assert_eq!(wire, vec![0x3B, 9, 0, 3, b'a', b'/', b'b', 0, 10, b'x', b'y']);
    assert_eq!(publish_header(&p).unwrap(), &wire[..wire.len() - 2]);
    match decode(&wire).unwrap().unwrap() {
        Packet::Publish(q) => {
            assert!(q.dup);
            assert!(q.retain);
            assert_eq!(q.packet_id, Some(10));
            assert_eq!(&q.payload[..], b"xy");
        }
        _ => panic!("expected Publish"),
    }
}

#[test]
fn long_bodies_take_more_length_bytes() {
    let cases: Vec<(usize, Vec<u8>)> = vec![
        (125, vec![127]),
        (126, vec![0x80, 1]),
        (16381, vec![0xFF, 0x7F]),
        (16382, vec![0x80, 0x80, 1]),
    ];
    for (n, length) in cases {
        let mut p = publish("", b"", QoS::AtMostOnce, None);
        p.payload = Bytes::from(vec![7u8; n]);
        let wire = encode_packet(&Packet::Publish(p)).unwrap();
        assert_eq!(&wire[1..1 + length.len()], &length[..]);
        assert_eq!(wire.len(), 1 + length.len() + 2 + n);
    }
}

#[test]
fn one_frame_leaves_the_buffer_at_a_time() {
    let mut wire = encode_packet(&Packet::Puback(9)).unwrap();
    wire.extend(encode_packet(&Packet::Pingreq).unwrap());
    wire.push(0x30);
    let mut buf = BytesMut::from(&wire[..]);
    match decode_packet_from_bytes(&mut buf, usize::MAX).unwrap().unwrap() {
        Packet::Puback(id) => assert_eq!(id, 9),
        _ => panic!("expected Puback"),
    }
    assert_eq!(&buf[..], &[0xC0, 0, 0x30]);
    match decode_packet_from_bytes(&mut buf, usize::MAX).unwrap().unwrap() {
        Packet::Pingreq => {}
        _ => panic!("expected Pingreq"),
    }
    assert!(decode_packet_from_bytes(&mut buf, usize::MAX).unwrap().is_none());
    assert_eq!(&buf[..], &[0x30]);
}

#[test]
fn packets_append_to_a_buffer() {
    let mut buf = BytesMut::from(&[9u8][..]);
    Packet::Pingresp.encode(&mut buf).unwrap();
    assert_eq!(&buf[..], &[9, 0xD0, 0]);
    let refused = Packet::Publish(publish("a", b"", QoS::AtLeastOnce, None));
    assert!(refused.encode(&mut buf).is_err());
    assert_eq!(&buf[..], &[9, 0xD0, 0]);
    let mut whole = BytesMut::from(&[0xC0u8, 0][..]);
    assert!(matches!(Packet::decode(&mut whole), Ok(Some(Packet::Pingreq))));
    assert!(whole.is_empty());
}

#[test]
fn headers_of_a_stream() {
    assert!(matches!(read_header(&[], 100), Ok(None)));
    assert!(matches!(read_header(&[0x30], 100), Ok(None)));
    assert!(matches!(read_header(&[0x30, 0x80], 100), Ok(None)));
    assert!(matches!(
        read_header(&[0x30, 0x80, 1], 200),
        Ok(Some((0x30, PacketType::Publish, 128)))
    ));
    assert!(matches!(
        read_header(&[0x30, 0x80, 1], 127),
        Err(MqttError::Protocol(Violation::PacketTooLarge { len: 128, max: 127 }))
    ));
    assert!(matches!(
        read_header(&[0x30, 0xFF, 0xFF, 0xFF, 0xFF], 127),
        Err(MqttError::Codec(CodecError::MalformedLength))
    ));
    assert!(matches!(
        read_header(&[0x00, 0], 127),
        Err(MqttError::Codec(CodecError::InvalidPacketType(0)))
    ));
    assert_eq!(packet_type(0xFF), Some(PacketType::Auth));
    assert_eq!(packet_type(0x0F), None);
}

#[test]
fn each_codec_error_has_an_input() {
    assert_eq!(codec_error(&[0x00, 0x00]), CodecError::InvalidPacketType(0));
    assert_eq!(
        codec_error(&[0x30, 0x80, 0x80, 0x80, 0x80, 1]),
        CodecError::MalformedLength
    );
    assert_eq!(codec_error(&[0x30, 1, 0]), CodecError::UnexpectedEof);
    assert_eq!(codec_error(&[0x30, 4, 0, 3, b'a', b'b']), CodecError::UnexpectedEof);
    assert_eq!(codec_error(&[0x30, 3, 0, 1, 0xFF]), CodecError::InvalidUtf8);
    assert_eq!(codec_error(&[0x36, 3, 0, 1, b'a']), CodecError::QosInvalid(3));
    assert_eq!(codec_error(&[0x41, 2, 0, 1]), CodecError::ReservedFlagSet);
    assert_eq!(codec_error(&[0x60, 2, 0, 1]), CodecError::ReservedFlagSet);
    assert_eq!(
        codec_error(&[0x40, 3, 0, 1, 0]),
        CodecError::PayloadTooLong { len: 3, max: 2 }
    );
    assert_eq!(
        codec_error(&[0xC0, 1, 0]),
        CodecError::PayloadTooLong { len: 1, max: 0 }
    );
    assert_eq!(
        codec_error(&[0x82, 6, 0, 1, 0, 1, b'a', 3]),
        CodecError::QosInvalid(3)
    );
    assert_eq!(
        codec_error(&[0x90, 3, 0, 1, 3]),
        CodecError::InvalidPacketType(3)
    );
    assert_eq!(codec_error(&[0x20, 2, 0, 6]), CodecError::InvalidPacketType(6));
    let oversize = "x".repeat(65536);
    let cases: Vec<(Packet, &str)> = vec![
        (
            Packet::Subscribe(SubscribePacket {
                packet_id: 1,
                subscriptions: vec![TopicSubscription {
                    topic: Arc::from(oversize.as_str()),
                    qos: QoS::AtMostOnce,
                }],
            }),
            "subscribe.filter",
        ),
        (
            Packet::Unsubscribe(UnsubscribePacket {
                packet_id: 1,
                topics: vec![Arc::from(oversize.as_str())],
            }),
            "unsubscribe.filter",
        ),
        (
            Packet::Connect(ConnectPacket {
                version: ProtocolVersion::V311,
                properties: Properties::default(),
                client_id: Arc::from(oversize.as_str()),
                clean_session: true,
                keep_alive: 0,
                username: None,
                password: None,
                will: None,
            }),
            "client_id",
        ),
    ];
    for (packet, field) in cases {
        match encode_packet(&packet) {
            Err(MqttError::Codec(CodecError::FieldTooLong { kind, len })) => {
                assert_eq!(kind, field);
                assert_eq!(len, 65536);
            }
            _ => panic!("expected FieldTooLong"),
        }
    }
}

#[test]
fn each_frame_violation_has_an_input() {
    assert_eq!(violation(&[0xF0, 0]), Violation::UnexpectedAuthPacket);
    for wire in [
        &[0x40, 2, 0, 0][..],
        &[0x50, 2, 0, 0],
        &[0x62, 2, 0, 0],
        &[0x70, 2, 0, 0],
        &[0x90, 3, 0, 0, 0],
        &[0xB0, 2, 0, 0],
    ] {
        assert_eq!(violation(wire), Violation::PacketIdZero);
    }
    assert_eq!(
        violation(&[0x10, 12, 0, 4, b'M', b'Q', b'T', b'X', 4, 2, 0, 0, 0, 0]),
        Violation::InvalidProtocolName
    );
    assert_eq!(
        violation(&[0x10, 12, 0, 4, b'M', b'Q', b'T', b'T', 3, 2, 0, 0, 0, 0]),
        Violation::UnsupportedProtocolLevel(3)
    );
    let mut buf = BytesMut::from(&[0x30u8, 5, 0, 0, 0, 0, 0][..]);
    assert!(matches!(
        decode_packet_from_bytes(&mut buf, 4),
        Err(MqttError::Protocol(Violation::PacketTooLarge { len: 5, max: 4 }))
    ));
    assert_eq!(buf.len(), 7);
}

#[test]
fn bodies_are_read_under_their_type() {
    assert!(matches!(
        parse_packet(0xC0, PacketType::Pingreq, &[]),
        Ok(Packet::Pingreq)
    ));
    match parse_packet(0x62, PacketType::Pubrel, &[1, 0]) {
        Ok(Packet::Pubrel(id)) => assert_eq!(id, 256),
        _ => panic!("expected Pubrel"),
    }
}

#[test]
fn return_codes_and_levels_round_trip() {
    for v in 0..=255u8 {
        match ConnackReturnCode::from_u8(v) {
            Some(c) => assert_eq!(c.as_u8(), v),
            None => assert!(v > 5),
        }
        match QoS::from_u8(v) {
            Some(q) => assert_eq!(q.as_u8(), v),
            None => assert!(v > 2),
        }
        match SubackCode::from_u8(v) {
            Some(c) => assert_eq!(c.as_u8(), v),
            None => assert!(v > 2 && v != 0x80),
        }
        match PacketType::from_u8(v) {
            Some(t) => assert_eq!(t.as_u8(), v),
            None => assert!(v == 0 || v > 15),
        }
        match ProtocolVersion::from_level(v) {
            Some(l) => assert_eq!(l.level(), v),
            None => assert!(v != 4 && v != 5),
        }
    }
    assert_eq!(ConnackReturnCode::NotAuthorized.text(), "Not Authorized");
    assert_eq!(QoS::ExactlyOnce.lower(QoS::AtLeastOnce), QoS::AtLeastOnce);
}

#[test]
fn with_id_changes_the_identifier_only() {
    let p = publish("a", b"x", QoS::AtLeastOnce, None).with_id(7);
    assert_eq!(p.packet_id, Some(7));
    assert_eq!(p.topic.as_ref(), "a");
    assert_eq!(&p.payload[..], b"x");
}

#[test]
fn an_incomplete_frame_waits() {
    let packets = [
        Packet::Pingreq,
        Packet::Puback(7),
        Packet::Publish(publish("a/b", &[5; 200], QoS::AtLeastOnce, Some(1))),
    ];
    for packet in packets {
        let wire = encode_packet(&packet).unwrap();
        for k in 0..wire.len() {
            let mut buf = BytesMut::from(&wire[..k]);
            assert!(matches!(decode_packet_from_bytes(&mut buf, 300), Ok(None)));
            assert_eq!(&buf[..], &wire[..k]);
        }
        let mut buf = BytesMut::from(&wire[..]);
        assert!(matches!(decode_packet_from_bytes(&mut buf, 300), Ok(Some(_))));
        assert!(buf.is_empty());
    }
}
