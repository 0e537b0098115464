use bytes::Bytes;
use hotaru_mqtt::broker::inbound::ServerEvent;
use hotaru_mqtt::{
    AclChecker, AclDecision, AuthResult, Authenticator, Broker, BrokerSafety, ConnackReturnCode,
    ConnectPacket, DefaultRetainedStore, DefaultSessionStore, JsonAclChecker, MqttError,
    MqttServerProtocol, Packet, Properties, ProtocolVersion, PublishPacket, QoS, SessionStore,
    SocketAddress, SubackCode, TenantId, TenantResolver, TopicFilter, Violation, WriteCmd,
};
use std::sync::Arc;

fn connect(client_id: &str) -> ConnectPacket {
    ConnectPacket {
        version: ProtocolVersion::V311,
        properties: Properties::default(),
        client_id: Arc::from(client_id),
        clean_session: true,
        keep_alive: 60,
        username: None,
        password: None,
        will: None,
    }
}

fn message(topic: &str) -> PublishPacket {
    PublishPacket {
        topic: Arc::from(topic),
        payload: Bytes::from_static(b"v"),
        dup: false,
        qos: QoS::AtMostOnce,
        retain: false,
        packet_id: None,
        properties: Properties::default(),
    }
}

struct OnlyRoot;

impl Authenticator for OnlyRoot {
    fn authenticate(
        &self,
        _tenant: Option<&TenantId>,
        connect: &ConnectPacket,
        _remote_addr: Option<SocketAddress>,
    ) -> AuthResult {
        match connect.username.as_deref() {
            Some("root") => AuthResult::accept(),
            _ => AuthResult::reject(ConnackReturnCode::NotAuthorized),
        }
    }
}

#[test]
fn an_authenticator_of_ones_own_decides() {
    let broker = Broker::with_authenticator(OnlyRoot);
    assert!(!broker.authenticate(None, &connect("a"), None).accepted);
    let mut root = connect("a");
    root.username = Some(Arc::from("root"));
    assert!(broker.authenticate(None, &root, None).accepted);
}

#[test]
fn stores_of_ones_own_are_kept() {
    let broker = Broker::insecure()
        .with_retained_store(DefaultRetainedStore::new())
        .with_session_store(DefaultSessionStore::new());
    assert_eq!(broker.active_connection_count(), 0);
}

#[test]
fn whoever_registers_is_reached_until_they_leave() {
    let mut broker = Broker::insecure();
    broker.channels.insert(1, MqttServerProtocol::new().open_channel(1));
    let client: Arc<str> = Arc::from("c");
    let (present, generation) =
        broker.register_session(None, client.clone(), None, 1, None, true);
    assert!(!present);
    let codes = broker.subscribe(&None, &client, &[TopicFilter::new("t/+", QoS::AtMostOnce)]);
    assert_eq!(codes, vec![SubackCode::Granted(QoS::AtMostOnce)]);
    let other: Arc<str> = Arc::from("other");
    broker.publish(&None, &other, message("t/1"));
    broker.publish_with_source_username(&None, &other, Some(Arc::from("u")), message("t/2"));
    broker.publish(&None, &client, message("t/3"));
    broker.unregister_session(&None, &client, generation + 1, true);
    broker.publish(&None, &other, message("t/4"));
    broker.unregister_session(&None, &client, generation, true);
    broker.publish(&None, &other, message("t/5"));
    let mut channel = broker.channels.remove(1).unwrap();
    for topic in ["t/1", "t/2", "t/4"] {
        match channel.take_cmd() {
            Some(WriteCmd::Publish(p)) => assert_eq!(&*p.topic, topic),
            _ => panic!("nothing came"),
        }
    }
    assert!(channel.take_cmd().is_none());
}

#[test]
fn a_second_connect_is_a_violation() {
    let mut broker = Broker::insecure();
    broker.channels.insert(1, MqttServerProtocol::new().open_channel(1));
    let first = Packet::Connect(connect("c"));
    assert!(broker.begin_connect(1, &first).is_ok());
    let mut conn = broker.finish_connect(1, &connect("c")).ok().unwrap();
    assert!(matches!(
        broker.dispatch_server_inbound(&mut conn, first),
        Err(MqttError::Protocol(Violation::SessionAlreadyBound))
    ));
    assert!(broker.dispatch_server_inbound(&mut conn, Packet::Pingreq).is_ok());
    let _step = broker.server_step(&mut conn, ServerEvent::TimedOut);
    broker.end_connection(&conn, false);
    assert_eq!(broker.active_connection_count(), 0);
}

#[test]
fn anything_but_connect_ends_a_new_connection() {
    let mut broker = Broker::insecure();
    broker.channels.insert(1, MqttServerProtocol::new().open_channel(1));
    assert!(matches!(
        broker.begin_connect(1, &Packet::Pingreq),
        Err(MqttError::Protocol(Violation::ExpectedConnect))
    ));
    assert_eq!(broker.active_connection_count(), 0);
}

#[test]
fn rules_from_a_document() {
    let document = hotaru_core::Value::from_json(
        r#"{"users": {"u": {"acl": {"publish": ["a/#"], "subscribe": []}}}}"#,
    )
    .unwrap();
    let rules = JsonAclChecker::from_snapshot(document);
    let client: Arc<str> = Arc::from("c");
    let user: Arc<str> = Arc::from("u");
    assert_eq!(
        rules.check_publish(None, &client, Some(&user), "a/b"),
        AclDecision::Allow
    );
    assert_eq!(
        rules.check_subscribe(None, &client, Some(&user), "a/b"),
        AclDecision::Deny
    );
}

#[test]
fn return_codes_have_reasons_of_the_later_version() {
    assert_eq!(ConnackReturnCode::Accepted.to_v5_reason(), 0x00);
    for code in [
        ConnackReturnCode::Accepted,
        ConnackReturnCode::UnacceptableProtocolVersion,
        ConnackReturnCode::IdentifierRejected,
        ConnackReturnCode::ServerUnavailable,
        ConnackReturnCode::BadUsernameOrPassword,
        ConnackReturnCode::NotAuthorized,
    ] {
        assert_eq!(ConnackReturnCode::from_v5_reason(code.to_v5_reason()), Ok(code));
    }
}

#[test]
fn a_registered_client_has_its_tenant() {
    let mut broker = Broker::insecure();
    broker.channels.insert(1, MqttServerProtocol::new().open_channel(1));
    let client: Arc<str> = Arc::from("c");
    let tenant: Option<Arc<str>> = Some(Arc::from("t"));
    assert_eq!(broker.tenant_of(&tenant, &client), None);
    let (_, generation) =
        broker.register_session(tenant.clone(), client.clone(), None, 1, None, true);
    assert_eq!(broker.tenant_of(&tenant, &client), tenant);
    assert_eq!(broker.tenant_of(&None, &client), None);
    broker.unregister_session(&tenant, &client, generation, true);
    assert_eq!(broker.tenant_of(&tenant, &client), None);
}

/// Lets in whoever comes from one address.
struct OnlyFrom(SocketAddress);

impl Authenticator for OnlyFrom {
    fn authenticate(
        &self,
        tenant: Option<&TenantId>,
        _connect: &ConnectPacket,
        remote_addr: Option<SocketAddress>,
    ) -> AuthResult {
        assert_eq!(tenant.map(|t| &**t), Some("near"));
        if remote_addr == Some(self.0) {
            AuthResult::accept()
        } else {
            AuthResult::reject(ConnackReturnCode::NotAuthorized)
        }
    }
}

/// Knows one tenant, for whose address is known.
struct NearIsKnown;

impl TenantResolver for NearIsKnown {
    fn resolve(
        &self,
        _connect: &ConnectPacket,
        remote_addr: Option<SocketAddress>,
    ) -> Option<TenantId> {
        remote_addr.map(|_| Arc::from("near"))
    }
}

#[test]
fn hooks_are_told_where_a_client_connects_from() {
    let near = SocketAddress::V4 { ip: 0x7F00_0001, port: 1883 };
    let far = SocketAddress::V6 { ip: 1, port: 1883, flow_info: 0, scope_id: 0 };
    for (from, accepted) in [(near, true), (far, false)] {
        let mut broker =
            Broker::with_authenticator(OnlyFrom(near)).with_tenant_resolver(NearIsKnown);
        let channel = MqttServerProtocol::new()
            .open_channel(1)
            .with_addresses(None, Some(from));
        assert_eq!(channel.local_addr(), None);
        assert_eq!(channel.remote_addr(), Some(from));
        broker.channels.insert(1, channel);
        let packet = connect("c");
        assert!(broker.begin_connect(1, &Packet::Connect(packet.clone())).is_ok());
        assert_eq!(broker.finish_connect(1, &packet).is_ok(), accepted);
        assert_eq!(broker.active_connection_count(), if accepted { 1 } else { 0 });
    }
}

#[test]
fn a_session_outlives_a_connack_that_cannot_be_sent() {
    for (limit, saved) in [(1, 1), (0, 0)] {
        let mut broker = Broker::insecure().with_broker_safety(
            BrokerSafety::new().with_max_persistent_sessions_per_tenant(limit),
        );
        broker.channels.insert(1, MqttServerProtocol::new().open_channel(1));
        let mut packet = connect("c");
        packet.clean_session = false;
        assert!(broker.begin_connect(1, &Packet::Connect(packet.clone())).is_ok());
        let mut channel = broker.channels.remove(1).unwrap();
        channel.writer_stopped();
        broker.channels.insert(1, channel);
        assert!(matches!(
            broker.finish_connect(1, &packet),
            Err(MqttError::ChannelClosed)
        ));
        assert_eq!(broker.session_store().count(None), saved);
        assert_eq!(broker.active_connection_count(), 0);
    }
}
