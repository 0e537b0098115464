use bytes::Bytes;
use hotaru_mqtt::properties::{kind_of, PropKind};
use hotaru_mqtt::{properties, CodecError, MqttError, Properties, Violation};
use std::sync::Arc;

fn assert_same(a: &Properties, b: &Properties) {
    assert_eq!(format!("{:?}", a), format!("{:?}", b));
}

fn roundtrip(props: &Properties) -> Properties {
    let mut buf = Vec::new();
    props.encode(&mut buf).unwrap();
    let mut cursor = 0usize;
    let parsed = Properties::parse(&buf, &mut cursor).unwrap();
    assert_eq!(cursor, buf.len(), "cursor must land on block end");
    parsed
}

#[test]
fn empty_block_is_single_zero_byte() {
    let props = Properties::default();
    let mut buf = Vec::new();
    props.encode(&mut buf).unwrap();
    assert_eq!(buf, vec![0x00]);
    assert!(roundtrip(&props).is_empty());
}

#[test]
fn full_roundtrip() {
    let props = Properties {
        payload_format_indicator: Some(1),
        message_expiry_interval: Some(300),
        content_type: Some(Arc::from("application/json")),
        response_topic: Some(Arc::from("reply/here")),
        correlation_data: Some(Bytes::from_static(b"corr")),
        subscription_identifiers: vec![1, 268_435_455],
        session_expiry_interval: Some(0xFFFF_FFFF),
        receive_maximum: Some(20),
        topic_alias_maximum: Some(0),
        user_properties: vec![
            (Arc::from("k1"), Arc::from("v1")),
            (Arc::from("k1"), Arc::from("v2")),
        ],
        maximum_packet_size: Some(1024),
        ..Default::default()
    };
    assert_same(&roundtrip(&props), &props);
}

#[test]
fn duplicate_scalar_property_rejected() {
    let mut buf = Vec::new();
    let mut body = Vec::new();
    for _ in 0..2 {
        body.push(properties::SESSION_EXPIRY_INTERVAL);
        body.extend_from_slice(&10u32.to_be_bytes());
    }
    buf.push(body.len() as u8);
    buf.extend_from_slice(&body);
    let mut cursor = 0;
    let err = Properties::parse(&buf, &mut cursor).err().unwrap();
    match err {
        MqttError::Protocol(Violation::DuplicateProperty(pid)) => {
            assert_eq!(pid, properties::SESSION_EXPIRY_INTERVAL)
        }
        other => panic!("expected DuplicateProperty, got {other:?}"),
    }
}

#[test]
fn unknown_property_rejected() {
    let buf = vec![0x02, 0x7F, 0x00];
    let mut cursor = 0;
    let err = Properties::parse(&buf, &mut cursor).err().unwrap();
    match err {
        MqttError::Protocol(Violation::UnknownProperty(0x7F)) => {}
        other => panic!("expected UnknownProperty, got {other:?}"),
    }
}

#[test]
fn zero_subscription_identifier_rejected() {
    let buf = vec![0x02, properties::SUBSCRIPTION_IDENTIFIER, 0x00];
    let mut cursor = 0;
    let err = Properties::parse(&buf, &mut cursor).err().unwrap();
    match err {
        MqttError::Protocol(Violation::MalformedProperty(pid)) => {
            assert_eq!(pid, properties::SUBSCRIPTION_IDENTIFIER)
        }
        other => panic!("expected MalformedProperty, got {other:?}"),
    }
}

#[test]
fn value_overrunning_block_length_rejected() {
    let buf = vec![0x02, properties::CONTENT_TYPE, 0x00];
    let mut cursor = 0;
    assert!(Properties::parse(&buf, &mut cursor).is_err());
}

#[test]
fn every_property_round_trips() {
    let props = Properties {
        payload_format_indicator: Some(1),
        message_expiry_interval: Some(2),
        content_type: Some(Arc::from("c")),
        response_topic: Some(Arc::from("r")),
        correlation_data: Some(Bytes::from_static(&[0, 255])),
        subscription_identifiers: vec![1, 128],
        session_expiry_interval: Some(3),
        assigned_client_identifier: Some(Arc::from("a")),
        server_keep_alive: Some(4),
        authentication_method: Some(Arc::from("m")),
        authentication_data: Some(Bytes::from_static(&[7])),
        request_problem_information: Some(0),
        will_delay_interval: Some(5),
        request_response_information: Some(1),
        response_information: Some(Arc::from("i")),
        server_reference: Some(Arc::from("s")),
        reason_string: Some(Arc::from("é")),
        receive_maximum: Some(6),
        topic_alias_maximum: Some(7),
        topic_alias: Some(8),
        maximum_qos: Some(1),
        retain_available: Some(1),
        user_properties: vec![(Arc::from("k"), Arc::from(""))],
        maximum_packet_size: Some(9),
        wildcard_subscription_available: Some(1),
        subscription_identifier_available: Some(0),
        shared_subscription_available: Some(1),
    };
    assert_same(&roundtrip(&props), &props);
    assert_same(&props.clone(), &props);
    assert!(!props.is_empty());
}

#[test]
fn blocks_are_written_exactly() {
    let props = Properties {
        receive_maximum: Some(258),
        user_properties: vec![(Arc::from("k"), Arc::from("v"))],
        ..Default::default()
    };
    let mut out = vec![9];
    props.encode(&mut out).unwrap();
    assert_eq!(
        out,
        vec![9, 10, 0x21, 1, 2, 0x26, 0, 1, b'k', 0, 1, b'v']
    );
    let mut cursor = 1;
    let read = Properties::parse(&out, &mut cursor).unwrap();
    assert_eq!(cursor, 12);
    assert_same(&read, &props);
}

#[test]
fn a_block_that_cannot_be_written_leaves_the_buffer_alone() {
    let long = "x".repeat(65536);
    let props = Properties {
        content_type: Some(Arc::from(long.as_str())),
        ..Default::default()
    };
    let mut out = vec![1, 2];
    assert!(matches!(
        props.encode(&mut out),
        Err(MqttError::Codec(CodecError::FieldTooLong { len: 65536, .. }))
    ));
    assert_eq!(out, vec![1, 2]);
}

#[test]
fn blocks_end_where_they_say() {
    let mut cursor = 0;
    assert!(matches!(
        Properties::parse(&[5, 0x21, 0, 1], &mut cursor),
        Err(MqttError::Codec(CodecError::UnexpectedEof))
    ));
    let mut cursor = 0;
    assert!(matches!(
        Properties::parse(&[], &mut cursor),
        Err(MqttError::Codec(CodecError::UnexpectedEof))
    ));
    let mut cursor = 0;
    assert!(matches!(
        Properties::parse(&[0xFF, 0xFF, 0xFF, 0xFF, 1], &mut cursor),
        Err(MqttError::Codec(CodecError::MalformedLength))
    ));
}

#[test]
fn kinds_of_identifiers() {
    assert_eq!(kind_of(0x01), Some(PropKind::Byte));
    assert_eq!(kind_of(0x13), Some(PropKind::Two));
    assert_eq!(kind_of(0x02), Some(PropKind::Four));
    assert_eq!(kind_of(0x03), Some(PropKind::Text));
    assert_eq!(kind_of(0x09), Some(PropKind::Data));
    assert_eq!(kind_of(0x26), None);
    assert_eq!(kind_of(0x7F), None);
}

#[test]
fn an_undefined_identifier_is_unknown_whatever_came_before() {
    for pid in [0x00u8, 0x41, 0x42, 0x51, 0x81, 0xFF] {
        let mut cursor = 0;
        match Properties::parse(&[0x03, 0x01, 0x00, pid], &mut cursor) {
            Err(MqttError::Protocol(Violation::UnknownProperty(p))) => assert_eq!(p, pid),
            _ => panic!("expected UnknownProperty"),
        }
    }
}

#[test]
fn a_block_that_fails_leaves_the_cursor_where_it_failed() {
    let cases: [(&[u8], usize); 6] = [
        (&[], 0),
        (&[0x03, 0x01, 0x00, 0x41], 4),
        (&[0x04, 0x01, 0x00, 0x01, 0x01], 4),
        (&[0x02, 0x0B, 0x00], 3),
        (&[5, 0x21, 0, 1], 1),
        (&[0x02, 0x21, 0x00, 0x00], 4),
    ];
    for (body, stop) in cases {
        let mut cursor = 0;
        assert!(Properties::parse(body, &mut cursor).is_err());
        assert_eq!(cursor, stop, "{body:?}");
    }
}
