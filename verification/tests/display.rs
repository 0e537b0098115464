use bytes::Bytes;
use hotaru_mqtt::buffer::SecretBytes;
use hotaru_mqtt::{
    CodecError, ConnackReturnCode, ConnectPacket, Credentials, MqttError, Properties,
    ProtocolVersion, QoS, TimeoutKind, Violation, WillPacket,
};
use std::sync::Arc;

#[test]
fn credentials_debug_redacts_password_bytes() {
    let c = Credentials::new("alice", Bytes::from_static(b"super-secret-pw"));
    let rendered = c.debug_text();
    assert!(rendered.contains("alice"), "username should be visible");
    assert!(
        !rendered.contains("super-secret-pw"),
        "password bytes MUST NOT appear in Debug; got {rendered:?}"
    );
    assert!(
        rendered.contains("<redacted: 15 bytes>"),
        "Debug should show byte length only; got {rendered:?}"
    );
    assert_eq!(
        rendered,
        "Credentials { username: \"alice\", password: <redacted: 15 bytes> }"
    );
}

#[test]
fn connect_packet_debug_redacts_password() {
    let conn = ConnectPacket {
        properties: Default::default(),
        version: Default::default(),
        client_id: Arc::from("cid"),
        clean_session: true,
        keep_alive: 60,
        username: Some(Arc::from("alice")),
        password: Some(SecretBytes::new(b"supersecret-2025".to_vec())),
        will: None,
    };
    let dbg = conn.debug_text();
    assert!(
        !dbg.contains("supersecret"),
        "password leaked into Debug: {dbg}"
    );
    assert!(
        dbg.contains("redacted"),
        "debug missing redaction marker: {dbg}"
    );
    assert!(dbg.contains("alice"));
    assert!(dbg.contains("cid"));
}

#[test]
fn connect_packet_debug_keeps_none_password_visible() {
    let conn = ConnectPacket {
        properties: Default::default(),
        version: Default::default(),
        client_id: Arc::from("cid"),
        clean_session: true,
        keep_alive: 60,
        username: None,
        password: None,
        will: None,
    };
    let dbg = conn.debug_text();
    assert!(dbg.contains("password: None"), "{dbg}");
}

#[test]
fn a_connect_is_shown_in_full() {
    let properties = Properties {
        content_type: Some(Arc::from("a\"b")),
        correlation_data: Some(Bytes::from_static(b"x\n\x01")),
        subscription_identifiers: vec![1, 2],
        user_properties: vec![(Arc::from("k"), Arc::from("v")), (Arc::from("l"), Arc::from("w"))],
        receive_maximum: Some(5),
        ..Default::default()
    };
    let shown_properties = format!("{:?}", properties);
    let shown_empty = format!("{:?}", Properties::default());
    let will = WillPacket {
        topic: Arc::from("t"),
        payload: Bytes::from_static(b"\\\0\"~\x7f"),
        qos: QoS::ExactlyOnce,
        retain: true,
        properties: Properties::default(),
    };
    let shown_will = format!("{:?}", will);
    let conn = ConnectPacket {
        properties,
        version: ProtocolVersion::V5,
        client_id: Arc::from("cid"),
        clean_session: false,
        keep_alive: 300,
        username: Some(Arc::from("u")),
        password: Some(SecretBytes::new(vec![0; 10])),
        will: Some(will),
    };
    assert_eq!(
        conn.debug_text(),
        format!(
            "ConnectPacket {{ version: V5, properties: {}, client_id: \"cid\", clean_session: false, \
             keep_alive: 300, username: Some(\"u\"), password: Some(\"<redacted: 10 bytes>\"), \
             will: Some({}) }}",
            shown_properties, shown_will
        )
    );
    assert!(shown_will.contains(&shown_empty));
}

#[test]
fn every_error_has_a_message() {
    let violations = vec![
        Violation::ExpectedConnack,
        Violation::ExpectedConnect,
        Violation::ConnectionRefused(ConnackReturnCode::NotAuthorized),
        Violation::UnexpectedPacket {
            expected: "CONNACK",
            got: "PUBLISH",
        },
        Violation::InvalidProtocolName,
        Violation::UnsupportedProtocolLevel(3),
        Violation::EmptyTopic,
        Violation::TopicTooLong,
        Violation::WildcardInPublishTopic,
        Violation::HashWildcardNotTerminal,
        Violation::WildcardMixedWithLiteral,
        Violation::SessionAlreadyBound,
        Violation::DupSetOnQos0,
        Violation::PacketIdZero,
        Violation::EmptyPublishTopic,
        Violation::ReservedHeaderBits,
        Violation::ConnackReservedBits,
        Violation::SessionPresentWithError,
        Violation::Utf8NullCharacter,
        Violation::PacketTooLarge { len: 10, max: 9 },
        Violation::SubscribeReservedBits,
        Violation::UnsubscribeReservedBits,
        Violation::ReceiveMaximumExceeded { limit: 64 },
        Violation::TooManyFilters { count: 65, max: 64 },
        Violation::DuplicateProperty(17),
        Violation::MalformedProperty(11),
        Violation::UnknownProperty(127),
        Violation::TopicAliasNotAccepted,
        Violation::UnexpectedAuthPacket,
    ];
    for v in violations {
        let expected = format!("protocol violation: {:?}", v);
        assert_eq!(MqttError::from(v).message(), expected);
    }
    let codec_errors = vec![
        CodecError::UnexpectedEof,
        CodecError::InvalidPacketType(0),
        CodecError::MalformedLength,
        CodecError::InvalidUtf8,
        CodecError::PayloadTooLong { len: 3, max: 2 },
        CodecError::QosInvalid(3),
        CodecError::ReservedFlagSet,
        CodecError::FieldTooLong {
            kind: "client_id",
            len: 65536,
        },
        CodecError::QosRequiresPacketId,
    ];
    for c in codec_errors {
        let expected = format!("codec: {:?}", c);
        assert_eq!(MqttError::from(c).message(), expected);
    }
    for code in [
        ConnackReturnCode::Accepted,
        ConnackReturnCode::UnacceptableProtocolVersion,
        ConnackReturnCode::IdentifierRejected,
        ConnackReturnCode::ServerUnavailable,
        ConnackReturnCode::BadUsernameOrPassword,
    ] {
        assert_eq!(
            MqttError::Protocol(Violation::ConnectionRefused(code)).message(),
            format!("protocol violation: ConnectionRefused({:?})", code)
        );
    }
    for k in [TimeoutKind::Connack, TimeoutKind::ConnectReceive, TimeoutKind::Ack] {
        assert_eq!(MqttError::Timeout(k).message(), format!("timeout: {:?}", k));
    }
    assert_eq!(MqttError::io("gone".to_string()).message(), "I/O: gone");
    assert_eq!(MqttError::ChannelClosed.message(), "channel closed");
    assert_eq!(MqttError::AckTimeout.message(), "ack timeout");
    assert_eq!(
        MqttError::Configuration("c".to_string()).message(),
        "configuration: c"
    );
    assert_eq!(
        MqttError::NotConnected("n".to_string()).message(),
        "not connected: n"
    );
    assert_eq!(
        MqttError::Backpressure.message(),
        "write queue full (backpressure)"
    );
    assert_eq!(
        MqttError::TooManyInflight { limit: 20 }.message(),
        "too many inflight outbound ops (limit 20)"
    );
    assert_eq!(
        MqttError::Unsupported("u".to_string()).message(),
        "unsupported: u"
    );
    assert!(!MqttError::AckTimeout.can_continue());
}
