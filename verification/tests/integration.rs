use bytes::{Bytes, BytesMut};
use hotaru_mqtt::broker::fanout::FanoutStep;
use hotaru_mqtt::broker::inbound::{ChainOutcome, Pending, ServerEvent, ServerStep};
use hotaru_mqtt::broker::server::{read_timeout_secs, ServerConnection};
use hotaru_mqtt::channel::{writer_action, WriterAction};
use hotaru_mqtt::codec;
use hotaru_mqtt::{
    AclChecker, AclDecision, Authenticator, Broker, BrokerSafety, ConnackPacket, ConnackReturnCode,
    ConnectPacket, DefaultRetainedStore, DefaultSessionStore, MqttClientConfig, MqttClientProtocol,
    MqttError, MqttServerProtocol, Packet, Properties, ProtocolVersion, PublishPacket, QoS,
    ShutdownReport, SlowConsumerPolicy, SocketAddress, SubackCode, SubackPacket, SubscribePacket, TenantId, TenantResolver,
    TopicSubscription, UnsubscribePacket, WillPacket,
};
use std::sync::atomic::{AtomicUsize, Ordering};
use std::sync::Arc;
use std::time::Duration;

const VERSION: &str = "0.8.0";

/// A broker with connections that pass bytes in memory.
struct Net<A, C, T> {
    broker: Broker<A, C, T, DefaultRetainedStore, DefaultSessionStore>,
    connections: Vec<Option<ServerConnection>>,
    lost: Vec<bool>,
}

fn start_broker_with<A: Authenticator, C: AclChecker, T: TenantResolver>(
    broker: Broker<A, C, T, DefaultRetainedStore, DefaultSessionStore>,
) -> Net<A, C, T> {
    Net {
        broker,
        connections: Vec::new(),
        lost: Vec::new(),
    }
}

impl<A: Authenticator, C: AclChecker, T: TenantResolver> Net<A, C, T> {
    fn connect_raw(&mut self) -> usize {
        let id = self.connections.len();
        let channel = MqttServerProtocol::new().open_channel(id as u64 + 1);
        self.broker.channels.insert(id as u64, channel);
        self.connections.push(None);
        self.lost.push(false);
        id
    }

    fn close_channel(&mut self, c: usize) {
        let mut channel = self.broker.channels.remove(c as u64).unwrap();
        let _waiters = channel.close();
        self.broker.channels.insert(c as u64, channel);
    }

    fn is_open(&self, c: usize) -> bool {
        self.broker.channels.get(c as u64).unwrap().is_open()
    }

    fn on_event(&mut self, c: usize, event: ServerEvent) {
        let mut conn = match self.connections[c].take() {
            Some(conn) => conn,
            None => return,
        };
        match self.broker.server_step(&mut conn, event) {
            ServerStep::Continue => self.connections[c] = Some(conn),
            ServerStep::Stop { graceful, .. } => {
                while let Some(p) = conn.next_fanout() {
                    self.broker.publish(&conn.tenant, &conn.client_id, p);
                }
                self.broker.end_connection(&conn, graceful);
                self.close_channel(c);
            }
        }
    }

    /// Runs whatever is due until nothing is.
    fn settle(&mut self) {
        loop {
            let mut busy = false;
            for c in 0..self.connections.len() {
                if self.connections[c].is_some() && !self.is_open(c) {
                    self.on_event(c, ServerEvent::Closed);
                    busy = true;
                }
                if let Some(mut conn) = self.connections[c].take() {
                    while let Some(p) = conn.next_fanout() {
                        self.broker.publish(&conn.tenant, &conn.client_id, p);
                        busy = true;
                    }
                    self.connections[c] = Some(conn);
                }
            }
            if !busy {
                return;
            }
        }
    }

    fn feed(&mut self, c: usize, wire: &[u8]) {
        if self.lost[c] {
            return;
        }
        let mut buf = BytesMut::from(wire);
        let max = self.broker.safety().max_packet_size();
        let decoded = codec::decode_packet_from_bytes(&mut buf, max);
        if self.connections[c].is_some() {
            match decoded {
                Ok(Some(p)) => self.on_event(c, ServerEvent::Packet(p)),
                Ok(None) => {}
                Err(e) => self.on_event(c, ServerEvent::Failed(e)),
            }
        } else {
            self.broker.init_sys(VERSION);
            let accepted = match decoded {
                Ok(Some(packet)) => match self.broker.begin_connect(c as u64, &packet) {
                    Ok(()) => match packet {
                        Packet::Connect(connect) => {
                            match self.broker.finish_connect(c as u64, &connect) {
                                Ok(conn) => {
                                    self.connections[c] = Some(conn);
                                    true
                                }
                                Err(_) => false,
                            }
                        }
                        _ => false,
                    },
                    Err(_) => false,
                },
                _ => false,
            };
            if !accepted {
                self.close_channel(c);
            }
        }
        self.settle();
    }

    fn send_packet(&mut self, c: usize, packet: &Packet) {
        let bytes = codec::encode_packet(packet).expect("encode_packet (test fixture)");
        self.feed(c, &bytes);
    }

    /// What the server wrote next, if it wrote anything more.
    fn next_packet(&mut self, c: usize) -> Option<Packet> {
        let mut channel = self.broker.channels.remove(c as u64).unwrap();
        let cmd = channel.take_cmd();
        self.broker.channels.insert(c as u64, channel);
        match writer_action(&cmd?) {
            WriterAction::Write(bytes) => {
                let mut buf = BytesMut::from(&bytes[..]);
                let packet = codec::decode_packet_from_bytes(&mut buf, usize::MAX).unwrap();
                assert!(buf.is_empty());
                packet
            }
            _ => None,
        }
    }

    fn read_packet(&mut self, c: usize) -> Packet {
        self.next_packet(c).expect("a packet")
    }

    fn read_publish(&mut self, c: usize) -> PublishPacket {
        match self.read_packet(c) {
            Packet::Publish(p) => p,
            other => panic!("expected PUBLISH, got {}", other.name()),
        }
    }

    fn read_connack(&mut self, c: usize) -> ConnackPacket {
        match self.read_packet(c) {
            Packet::Connack(p) => p,
            other => panic!("expected CONNACK, got {}", other.name()),
        }
    }

    /// The peer is gone without a word.
    fn lose(&mut self, c: usize) {
        self.lost[c] = true;
        self.on_event(c, ServerEvent::Failed(MqttError::io("connection reset".to_string())));
        self.settle();
    }

    fn subscribe(&mut self, c: usize, packet_id: u16, topic: &str, qos: QoS) {
        self.send_packet(
            c,
            &Packet::Subscribe(SubscribePacket {
                packet_id,
                subscriptions: vec![TopicSubscription {
                    topic: Arc::from(topic),
                    qos,
                }],
            }),
        );
        match self.read_packet(c) {
            Packet::Suback(s) => assert_eq!(s.packet_id, packet_id),
            other => panic!("expected SUBACK, got {}", other.name()),
        }
    }
}

fn connect(client_id: &str, clean_session: bool, username: Option<&str>, will: Option<WillPacket>) -> Packet {
    Packet::Connect(ConnectPacket {
        version: ProtocolVersion::V311,
        properties: Properties::default(),
        client_id: Arc::from(client_id),
        clean_session,
        keep_alive: 60,
        username: username.map(Arc::from),
        password: None,
        will,
    })
}

fn connect_packet(client_id: &str) -> Packet {
    connect(client_id, true, None, None)
}

fn connect_packet_persistent(client_id: &str) -> Packet {
    connect(client_id, false, None, None)
}

fn will(topic: &str, payload: &'static [u8]) -> Option<WillPacket> {
    Some(WillPacket {
        topic: Arc::from(topic),
        payload: Bytes::from_static(payload),
        qos: QoS::AtMostOnce,
        retain: false,
        properties: Properties::default(),
    })
}

fn publish(topic: &str, payload: &[u8], qos: QoS, retain: bool, packet_id: Option<u16>) -> Packet {
    Packet::Publish(PublishPacket {
        topic: Arc::from(topic),
        payload: Bytes::from(payload.to_vec()),
        dup: false,
        qos,
        retain,
        packet_id,
        properties: Properties::default(),
    })
}

#[test]
fn smoke_lib_constructible() {
    let _broker = Broker::insecure();
    let _config = MqttClientConfig::new("test-client");
    let _server = MqttServerProtocol::new();
    let _client = MqttClientProtocol::new();
}

/// The tenant is what stands before a colon in the client identifier.
struct PrefixTenantResolver;

impl TenantResolver for PrefixTenantResolver {
    fn resolve(
        &self,
        connect: &ConnectPacket,
        _remote_addr: Option<SocketAddress>,
    ) -> Option<TenantId> {
        let id = connect.client_id.as_ref();
        id.split_once(':').map(|(t, _)| Arc::from(t))
    }
}

#[test]
fn cross_tenant_fanout_is_blocked() {
    let mut net = start_broker_with(Broker::insecure().with_tenant_resolver(PrefixTenantResolver));
    let s = net.connect_raw();
    net.send_packet(s, &connect_packet("ta:vacuum-sub"));
    let _ = net.read_packet(s);
    net.subscribe(s, 1, "#", QoS::AtMostOnce);

    let p = net.connect_raw();
    net.send_packet(p, &connect_packet("tb:leak-attempt"));
    net.send_packet(
        p,
        &publish("secret/cross-tenant", b"should-not-leak", QoS::AtMostOnce, false, None),
    );
    assert!(net.next_packet(s).is_none());
}

#[test]
fn same_tenant_fanout_still_works() {
    let mut net = start_broker_with(Broker::insecure().with_tenant_resolver(PrefixTenantResolver));
    let s = net.connect_raw();
    net.send_packet(s, &connect_packet("ta:listener"));
    let _ = net.read_packet(s);
    net.subscribe(s, 1, "greet/+", QoS::AtMostOnce);

    let p = net.connect_raw();
    net.send_packet(p, &connect_packet("ta:speaker"));
    net.send_packet(p, &publish("greet/world", b"hello", QoS::AtMostOnce, false, None));
    let m = net.read_publish(s);
    assert_eq!(m.topic.as_ref(), "greet/world");
    assert_eq!(&m.payload[..], b"hello");
}

#[test]
fn retained_message_replayed_on_subscribe() {
    let mut net = start_broker_with(Broker::insecure());
    let p = net.connect_raw();
    net.send_packet(p, &connect_packet("ret-publisher"));
    net.send_packet(p, &publish("status/online", b"true", QoS::AtMostOnce, true, None));
    net.lose(p);

    let s = net.connect_raw();
    net.send_packet(s, &connect_packet("ret-subscriber"));
    let _ = net.read_packet(s);
    net.subscribe(s, 1, "status/+", QoS::AtMostOnce);
    let m = net.read_publish(s);
    assert_eq!(m.topic.as_ref(), "status/online");
    assert_eq!(&m.payload[..], b"true");
    assert!(m.retain, "retained replay MUST carry retain=1");
}

#[test]
fn retained_empty_payload_clears_store() {
    let mut net = start_broker_with(Broker::insecure());
    let p = net.connect_raw();
    net.send_packet(p, &connect_packet("clearer"));
    net.send_packet(p, &publish("status/x", b"v1", QoS::AtMostOnce, true, None));
    net.send_packet(p, &publish("status/x", b"", QoS::AtMostOnce, true, None));
    net.lose(p);

    let s = net.connect_raw();
    net.send_packet(s, &connect_packet("listener"));
    let _ = net.read_packet(s);
    net.subscribe(s, 1, "status/+", QoS::AtMostOnce);
    assert!(net.next_packet(s).is_none());
}

#[test]
fn sys_broker_version_visible_to_subscriber() {
    let mut net = start_broker_with(Broker::insecure());
    let s = net.connect_raw();
    net.send_packet(s, &connect_packet("version-probe"));
    let _ = net.read_packet(s);
    net.subscribe(s, 1, "$SYS/broker/version", QoS::AtMostOnce);
    let m = net.read_publish(s);
    assert_eq!(m.topic.as_ref(), "$SYS/broker/version");
    assert!(m.retain, "broker-emitted $SYS MUST replay with retain=1");
    assert_eq!(&m.payload[..], VERSION.as_bytes());
}

#[test]
fn dollar_topic_retain_from_client_is_silently_dropped() {
    let mut net = start_broker_with(Broker::insecure());
    let p = net.connect_raw();
    net.send_packet(p, &connect_packet("syspoison"));
    net.send_packet(p, &publish("$SYS/poison/attempt", b"BAD", QoS::AtMostOnce, true, None));
    net.lose(p);

    let s = net.connect_raw();
    net.send_packet(s, &connect_packet("sys-listener"));
    let _ = net.read_packet(s);
    net.subscribe(s, 1, "$SYS/poison/+", QoS::AtMostOnce);
    assert!(net.next_packet(s).is_none());
}

/// One client may not publish under one prefix.
struct DenyBlockedPubOnSecretAcl;

impl AclChecker for DenyBlockedPubOnSecretAcl {
    fn check_subscribe(
        &self,
        _tenant: Option<&TenantId>,
        _client_id: &Arc<str>,
        _username: Option<&Arc<str>>,
        _filter: &str,
    ) -> AclDecision {
        AclDecision::Allow
    }

    fn check_publish(
        &self,
        _tenant: Option<&TenantId>,
        client_id: &Arc<str>,
        _username: Option<&Arc<str>>,
        topic: &str,
    ) -> AclDecision {
        if client_id.as_ref() == "blocked-pub" && topic.starts_with("secret/") {
            AclDecision::Deny
        } else {
            AclDecision::Allow
        }
    }
}

#[test]
fn acl_denied_publisher_cannot_modify_retained_store() {
    let mut net = start_broker_with(Broker::insecure().with_acl_checker(DenyBlockedPubOnSecretAcl));
    let a = net.connect_raw();
    net.send_packet(a, &connect_packet("allowed-pub"));
    net.send_packet(a, &publish("secret/z", b"original", QoS::AtMostOnce, true, None));
    net.lose(a);

    let b = net.connect_raw();
    net.send_packet(b, &connect_packet("blocked-pub"));
    net.send_packet(b, &publish("secret/z", b"MUTATED", QoS::AtMostOnce, true, None));
    net.send_packet(b, &publish("secret/z", b"", QoS::AtMostOnce, true, None));
    net.lose(b);

    let s = net.connect_raw();
    net.send_packet(s, &connect_packet("witness"));
    let _ = net.read_packet(s);
    net.subscribe(s, 1, "secret/z", QoS::AtMostOnce);
    let m = net.read_publish(s);
    assert_eq!(m.topic.as_ref(), "secret/z");
    assert_eq!(
        &m.payload[..],
        b"original",
        "ACL-denied publisher must not be able to overwrite retained"
    );
    assert!(m.retain, "retained replay carries retain=1");
}

#[test]
fn reconnect_with_clean_session_false_preserves_subscriptions() {
    let mut net = start_broker_with(Broker::insecure());
    let s1 = net.connect_raw();
    net.send_packet(s1, &connect_packet_persistent("persistent-sub"));
    assert!(!net.read_connack(s1).session_present);
    net.subscribe(s1, 1, "p7/topic", QoS::AtMostOnce);
    net.lose(s1);

    let s2 = net.connect_raw();
    net.send_packet(s2, &connect_packet_persistent("persistent-sub"));
    assert!(net.read_connack(s2).session_present);

    let p = net.connect_raw();
    net.send_packet(p, &connect_packet("p7-publisher"));
    net.send_packet(p, &publish("p7/topic", b"resumed-delivery", QoS::AtMostOnce, false, None));
    let m = net.read_publish(s2);
    assert_eq!(m.topic.as_ref(), "p7/topic");
    assert_eq!(&m.payload[..], b"resumed-delivery");
}

#[test]
fn reconnect_with_clean_session_true_resets_state() {
    let mut net = start_broker_with(Broker::insecure());
    let s1 = net.connect_raw();
    net.send_packet(s1, &connect_packet_persistent("reset-sub"));
    let _ = net.read_packet(s1);
    net.subscribe(s1, 1, "p7/reset", QoS::AtMostOnce);
    net.lose(s1);

    let s2 = net.connect_raw();
    net.send_packet(s2, &connect_packet("reset-sub"));
    assert!(!net.read_connack(s2).session_present);

    let p = net.connect_raw();
    net.send_packet(p, &connect_packet("reset-pub"));
    net.send_packet(p, &publish("p7/reset", b"should-not-arrive", QoS::AtMostOnce, false, None));
    assert!(net.next_packet(s2).is_none());
}

#[test]
fn reconnect_retransmits_unacked_qos1_with_dup() {
    let mut net = start_broker_with(Broker::insecure());
    let s1 = net.connect_raw();
    net.send_packet(s1, &connect_packet_persistent("retransmit-sub"));
    let _ = net.read_packet(s1);
    net.subscribe(s1, 1, "p7/inflight", QoS::AtLeastOnce);

    let p = net.connect_raw();
    net.send_packet(p, &connect_packet("retransmit-pub"));
    net.send_packet(p, &publish("p7/inflight", b"unacked", QoS::AtLeastOnce, false, Some(42)));

    let m = net.read_publish(s1);
    assert_eq!(m.topic.as_ref(), "p7/inflight");
    assert_eq!(m.qos, QoS::AtLeastOnce);
    assert!(!m.dup, "first delivery has dup=0");
    net.lose(s1);

    let s2 = net.connect_raw();
    net.send_packet(s2, &connect_packet_persistent("retransmit-sub"));
    assert!(net.read_connack(s2).session_present);
    let again = net.read_publish(s2);
    assert_eq!(again.topic.as_ref(), "p7/inflight");
    assert_eq!(&again.payload[..], b"unacked");
    assert_eq!(again.qos, QoS::AtLeastOnce);
    assert!(again.dup, "retransmitted PUBLISH MUST have dup=1");
    assert!(again.packet_id.is_some());
    assert_eq!(again.packet_id, m.packet_id);
}

#[test]
fn fanout_enforces_max_inflight_messages_per_subscriber() {
    let broker =
        Broker::insecure().with_broker_safety(BrokerSafety::new().with_max_inflight_messages(2));
    let mut net = start_broker_with(broker);
    let s = net.connect_raw();
    net.send_packet(s, &connect_packet_persistent("g7-sub"));
    let _ = net.read_packet(s);
    net.subscribe(s, 1, "g7/topic", QoS::AtLeastOnce);

    let p = net.connect_raw();
    net.send_packet(p, &connect_packet("g7-pub"));
    let _ = net.read_packet(p);
    for i in 0..3u16 {
        net.send_packet(
            p,
            &publish(
                "g7/topic",
                format!("msg-{i}").as_bytes(),
                QoS::AtLeastOnce,
                false,
                Some(100 + i),
            ),
        );
        let _ = net.read_packet(p);
    }
    let mut delivered = 0;
    while let Some(Packet::Publish(_)) = net.next_packet(s) {
        delivered += 1;
    }
    assert_eq!(delivered, 2, "exactly the cap's worth of PUBLISH should arrive");
    assert!(!net.is_open(s), "subscriber MUST be disconnected once inflight cap is hit");
}

/// Nobody may publish to one topic.
struct DenyPubOnWillTopicAcl;

impl AclChecker for DenyPubOnWillTopicAcl {
    fn check_subscribe(
        &self,
        _tenant: Option<&TenantId>,
        _client_id: &Arc<str>,
        _username: Option<&Arc<str>>,
        _filter: &str,
    ) -> AclDecision {
        AclDecision::Allow
    }

    fn check_publish(
        &self,
        _tenant: Option<&TenantId>,
        _client_id: &Arc<str>,
        _username: Option<&Arc<str>>,
        topic: &str,
    ) -> AclDecision {
        if topic == "g5/forbidden" {
            AclDecision::Deny
        } else {
            AclDecision::Allow
        }
    }
}

#[test]
fn will_publish_blocked_by_acl_at_dispatch() {
    let mut net = start_broker_with(Broker::insecure().with_acl_checker(DenyPubOnWillTopicAcl));
    let s = net.connect_raw();
    net.send_packet(s, &connect_packet("g5-witness"));
    let _ = net.read_packet(s);
    net.subscribe(s, 1, "g5/forbidden", QoS::AtMostOnce);

    let w = net.connect_raw();
    net.send_packet(
        w,
        &connect("g5-will-pub", true, Some("alice"), will("g5/forbidden", b"last-words")),
    );
    net.lose(w);
    assert!(net.next_packet(s).is_none());
}

#[test]
fn publish_sys_retained_respects_max_inflight_cap() {
    let broker =
        Broker::insecure().with_broker_safety(BrokerSafety::new().with_max_inflight_messages(2));
    let mut net = start_broker_with(broker);
    let s = net.connect_raw();
    net.send_packet(s, &connect_packet_persistent("u1-sys-sub"));
    let _ = net.read_packet(s);
    net.subscribe(s, 1, "$SYS/broker/version", QoS::AtLeastOnce);
    let _ = net.read_packet(s);

    for i in 0..8u32 {
        net.broker.publish_sys_retained(
            &None,
            Arc::from("$SYS/broker/version"),
            Bytes::from(format!("test-{i}").into_bytes()),
            QoS::AtLeastOnce,
        );
    }
    net.settle();
    let mut delivered = 0;
    while let Some(Packet::Publish(p)) = net.next_packet(s) {
        assert_eq!(p.topic.as_ref(), "$SYS/broker/version");
        assert_eq!(p.qos, QoS::AtLeastOnce);
        delivered += 1;
    }
    assert_eq!(delivered, 2);
    assert!(!net.is_open(s), "subscriber MUST be disconnected once $SYS inflight cap is hit");
}

#[test]
fn takeover_closes_prior_session_and_releases_slot() {
    let broker = Broker::insecure().with_broker_safety(
        BrokerSafety::new()
            .with_max_connections(2)
            .with_shutdown_grace_period(Duration::from_millis(500)),
    );
    let mut net = start_broker_with(broker);
    let c1 = net.connect_raw();
    net.send_packet(c1, &connect_packet("u2-victim"));
    let _ = net.read_packet(c1);
    assert_eq!(net.broker.active_connection_count(), 1);

    let c2 = net.connect_raw();
    net.send_packet(c2, &connect_packet("u2-victim"));
    let _ = net.read_packet(c2);
    assert_eq!(
        net.broker.active_connection_count(),
        1,
        "prior session's slot MUST be released"
    );
    assert!(!net.is_open(c1));
    assert!(net.is_open(c2));
}

#[test]
fn client_cannot_publish_to_dollar_sys_even_non_retained() {
    let mut net = start_broker_with(Broker::insecure());
    let s = net.connect_raw();
    net.send_packet(s, &connect_packet("u3-monitor"));
    let _ = net.read_packet(s);
    net.subscribe(s, 1, "$SYS/broker/version", QoS::AtMostOnce);
    let m = net.read_publish(s);
    assert_eq!(m.topic.as_ref(), "$SYS/broker/version");
    assert_eq!(&m.payload[..], VERSION.as_bytes());

    let a = net.connect_raw();
    net.send_packet(a, &connect_packet("u3-spoofer"));
    net.send_packet(a, &publish("$SYS/broker/version", b"0wned", QoS::AtMostOnce, false, None));
    assert!(net.next_packet(s).is_none());
}

#[test]
fn shutdown_drains_active_sessions_within_grace_period() {
    let broker = Broker::insecure().with_broker_safety(
        BrokerSafety::new().with_shutdown_grace_period(Duration::from_millis(500)),
    );
    let mut net = start_broker_with(broker);
    for i in 0..3 {
        let c = net.connect_raw();
        net.send_packet(c, &connect_packet(&format!("shutdown-{i}")));
        let _ = net.read_packet(c);
    }
    assert_eq!(net.broker.active_connection_count(), 3);

    let initial = net.broker.begin_shutdown();
    net.settle();
    let report = ShutdownReport::new(
        initial,
        net.broker.active_connection_count(),
        Duration::from_millis(0),
    );
    assert_eq!(report.initial, 3, "initial count should reflect 3 live");
    assert_eq!(report.remaining, 0, "all sessions MUST drain");
    assert!(!report.timed_out, "grace period should not have elapsed");
}

#[test]
fn broker_drops_connection_on_malformed_subscribe_header() {
    let mut net = start_broker_with(Broker::insecure());
    let c = net.connect_raw();
    net.send_packet(c, &connect_packet("malformed-sub"));
    let _ = net.read_packet(c);
    let bytes: Vec<u8> = vec![
        0x80, 0x08, 0x00, 0x07, 0x00, 0x03, b'a', b'/', b'b', 0x00,
    ];
    net.feed(c, &bytes);
    assert!(net.next_packet(c).is_none());
    assert!(!net.is_open(c), "broker should have closed the wire");
    assert_eq!(
        net.broker.active_connection_count(),
        0,
        "malformed post-CONNECT packet MUST unregister the session and release the slot"
    );
}

#[test]
fn broker_rejects_empty_id_with_persistent_session() {
    let mut net = start_broker_with(Broker::insecure());
    let c = net.connect_raw();
    net.send_packet(c, &connect_packet_persistent(""));
    let ack = net.read_connack(c);
    assert_eq!(ack.return_code, ConnackReturnCode::IdentifierRejected);
    assert!(!ack.session_present);
}

#[test]
fn broker_rejects_connect_at_max_connections() {
    let broker = Broker::insecure().with_broker_safety(BrokerSafety::new().with_max_connections(1));
    let mut net = start_broker_with(broker);
    let c1 = net.connect_raw();
    net.send_packet(c1, &connect_packet("client-1"));
    assert_eq!(net.read_connack(c1).return_code, ConnackReturnCode::Accepted);
    assert_eq!(net.broker.active_connection_count(), 1);

    let c2 = net.connect_raw();
    net.send_packet(c2, &connect_packet("client-2"));
    assert_eq!(net.read_connack(c2).return_code, ConnackReturnCode::ServerUnavailable);
    assert_eq!(net.broker.active_connection_count(), 1);
}

#[test]
fn connect_returns_connack() {
    let mut net = start_broker_with(Broker::insecure());
    let c = net.connect_raw();
    net.send_packet(c, &connect_packet("test-client-1"));
    let ack = net.read_connack(c);
    assert!(!ack.session_present);
    assert_eq!(ack.return_code, ConnackReturnCode::Accepted);
}

#[test]
fn broker_new_denies_anonymous_connect_by_default() {
    let mut net = start_broker_with(Broker::new());
    let c = net.connect_raw();
    net.send_packet(c, &connect_packet("denied-by-default"));
    let ack = net.read_connack(c);
    assert!(!ack.session_present);
    assert_eq!(ack.return_code, ConnackReturnCode::NotAuthorized);
    assert_eq!(net.broker.active_connection_count(), 0);
}

#[test]
fn subscribe_returns_suback() {
    let mut net = start_broker_with(Broker::insecure());
    let c = net.connect_raw();
    net.send_packet(c, &connect_packet("sub-client"));
    let _ = net.read_packet(c);
    net.send_packet(
        c,
        &Packet::Subscribe(SubscribePacket {
            packet_id: 7,
            subscriptions: vec![TopicSubscription {
                topic: Arc::from("sensors/+/temp"),
                qos: QoS::AtLeastOnce,
            }],
        }),
    );
    match net.read_packet(c) {
        Packet::Suback(SubackPacket {
            packet_id,
            return_codes,
        }) => {
            assert_eq!(packet_id, 7);
            assert_eq!(return_codes.len(), 1);
            assert!(matches!(
                return_codes[0],
                SubackCode::Granted(QoS::AtLeastOnce)
            ));
        }
        other => panic!("expected SUBACK, got {}", other.name()),
    }
}

#[test]
fn publish_q0_fanout_to_subscriber() {
    let mut net = start_broker_with(Broker::insecure());
    let s = net.connect_raw();
    net.send_packet(s, &connect_packet("sub"));
    let _ = net.read_packet(s);
    net.subscribe(s, 1, "hello/world", QoS::AtMostOnce);

    let p = net.connect_raw();
    net.send_packet(p, &connect_packet("pub"));
    let _ = net.read_packet(p);
    net.send_packet(p, &publish("hello/world", b"greetings", QoS::AtMostOnce, false, None));
    let m = net.read_publish(s);
    assert_eq!(m.topic.as_ref(), "hello/world");
    assert_eq!(&m.payload[..], b"greetings");
    assert_eq!(m.qos, QoS::AtMostOnce);
}

#[test]
fn publish_q1_round_trip_with_puback() {
    let mut net = start_broker_with(Broker::insecure());
    let s = net.connect_raw();
    net.send_packet(s, &connect_packet("sub"));
    let _ = net.read_packet(s);
    net.subscribe(s, 1, "q1/topic", QoS::AtLeastOnce);

    let p = net.connect_raw();
    net.send_packet(p, &connect_packet("pub"));
    let _ = net.read_packet(p);
    net.send_packet(p, &publish("q1/topic", b"q1-payload", QoS::AtLeastOnce, false, Some(42)));
    match net.read_packet(p) {
        Packet::Puback(id) => assert_eq!(id, 42),
        other => panic!("expected PUBACK, got {}", other.name()),
    }
    let m = net.read_publish(s);
    assert_eq!(m.topic.as_ref(), "q1/topic");
    assert_eq!(&m.payload[..], b"q1-payload");
    assert_eq!(m.qos, QoS::AtLeastOnce);
    assert!(m.packet_id.is_some());
    net.send_packet(s, &Packet::Puback(m.packet_id.unwrap()));
    let channel = net.broker.channels.get(s as u64).unwrap();
    assert_eq!(channel.session().outbound_inflight_len(), 0);
}

#[test]
fn wildcard_plus_matches() {
    let mut net = start_broker_with(Broker::insecure());
    let s = net.connect_raw();
    net.send_packet(s, &connect_packet("wildsub"));
    let _ = net.read_packet(s);
    net.subscribe(s, 1, "a/+/c", QoS::AtMostOnce);

    let p = net.connect_raw();
    net.send_packet(p, &connect_packet("wildpub"));
    let _ = net.read_packet(p);
    net.send_packet(p, &publish("a/b/c", b"hit", QoS::AtMostOnce, false, None));
    let m = net.read_publish(s);
    assert_eq!(m.topic.as_ref(), "a/b/c");
    assert_eq!(&m.payload[..], b"hit");
}

#[test]
fn unsubscribe_stops_delivery() {
    let mut net = start_broker_with(Broker::insecure());
    let s = net.connect_raw();
    net.send_packet(s, &connect_packet("unsub-test"));
    let _ = net.read_packet(s);
    net.subscribe(s, 1, "u/topic", QoS::AtMostOnce);
    net.send_packet(
        s,
        &Packet::Unsubscribe(UnsubscribePacket {
            packet_id: 2,
            topics: vec![Arc::from("u/topic")],
        }),
    );
    match net.read_packet(s) {
        Packet::Unsuback(u) => assert_eq!(u.packet_id, 2),
        other => panic!("expected UNSUBACK, got {}", other.name()),
    }

    let p = net.connect_raw();
    net.send_packet(p, &connect_packet("u-pub"));
    net.send_packet(p, &publish("u/topic", b"should not arrive", QoS::AtMostOnce, false, None));
    assert!(net.next_packet(s).is_none());
}

#[test]
fn pingreq_returns_pingresp() {
    let mut net = start_broker_with(Broker::insecure());
    let c = net.connect_raw();
    net.send_packet(c, &connect_packet("pinger"));
    let _ = net.read_packet(c);
    net.send_packet(c, &Packet::Pingreq);
    match net.read_packet(c) {
        Packet::Pingresp => {}
        other => panic!("expected PINGRESP, got {}", other.name()),
    }
}

#[test]
fn self_fanout_suppression() {
    let mut net = start_broker_with(Broker::insecure());
    let c = net.connect_raw();
    net.send_packet(c, &connect_packet("self"));
    let _ = net.read_packet(c);
    net.subscribe(c, 1, "self/topic", QoS::AtMostOnce);
    net.send_packet(c, &publish("self/topic", b"echo", QoS::AtMostOnce, false, None));
    assert!(net.next_packet(c).is_none());
}

#[test]
fn broker_constructs_cleanly() {
    let _broker = Broker::insecure();
}

#[test]
fn publish_q2_full_handshake() {
    let mut net = start_broker_with(Broker::insecure());
    let s = net.connect_raw();
    net.send_packet(s, &connect_packet("q2-sub"));
    let _ = net.read_packet(s);
    net.subscribe(s, 1, "q2/topic", QoS::ExactlyOnce);

    let p = net.connect_raw();
    net.send_packet(p, &connect_packet("q2-pub"));
    let _ = net.read_packet(p);
    net.send_packet(p, &publish("q2/topic", b"q2-payload", QoS::ExactlyOnce, false, Some(99)));
    match net.read_packet(p) {
        Packet::Pubrec(id) => assert_eq!(id, 99),
        other => panic!("expected PUBREC, got {}", other.name()),
    }
    assert!(net.next_packet(s).is_none());
    net.send_packet(p, &Packet::Pubrel(99));
    match net.read_packet(p) {
        Packet::Pubcomp(id) => assert_eq!(id, 99),
        other => panic!("expected PUBCOMP, got {}", other.name()),
    }
    let m = net.read_publish(s);
    assert_eq!(m.topic.as_ref(), "q2/topic");
    assert_eq!(&m.payload[..], b"q2-payload");
    assert_eq!(m.qos, QoS::ExactlyOnce);
    assert!(m.packet_id.is_some());
    net.send_packet(s, &Packet::Pubrec(m.packet_id.unwrap()));
    match net.read_packet(s) {
        Packet::Pubrel(id) => {
            assert_eq!(id, m.packet_id.unwrap());
            net.send_packet(s, &Packet::Pubcomp(id));
        }
        other => panic!("expected PUBREL, got {}", other.name()),
    }
    net.send_packet(p, &Packet::Pubrel(99));
    assert!(matches!(net.read_packet(p), Packet::Pubcomp(99)));
    assert!(net.next_packet(s).is_none(), "a second release sends nothing on");
}

#[test]
fn wildcard_hash_matches() {
    let mut net = start_broker_with(Broker::insecure());
    let s = net.connect_raw();
    net.send_packet(s, &connect_packet("hsub"));
    let _ = net.read_packet(s);
    net.subscribe(s, 1, "sensors/#", QoS::AtMostOnce);

    let p = net.connect_raw();
    net.send_packet(p, &connect_packet("hpub"));
    net.send_packet(p, &publish("sensors/floor/3/temp", b"deep", QoS::AtMostOnce, false, None));
    assert_eq!(net.read_publish(s).topic.as_ref(), "sensors/floor/3/temp");
}

#[test]
fn fanout_to_multiple_subscribers() {
    let mut net = start_broker_with(Broker::insecure());
    let mut subs = Vec::new();
    for i in 0..3 {
        let s = net.connect_raw();
        net.send_packet(s, &connect_packet(&format!("sub-{}", i)));
        let _ = net.read_packet(s);
        net.subscribe(s, 1, "broadcast/topic", QoS::AtMostOnce);
        subs.push(s);
    }
    let p = net.connect_raw();
    net.send_packet(p, &connect_packet("broadcaster"));
    net.send_packet(p, &publish("broadcast/topic", b"to all", QoS::AtMostOnce, false, None));
    for (i, s) in subs.into_iter().enumerate() {
        let m = net.read_publish(s);
        assert_eq!(m.topic.as_ref(), "broadcast/topic", "sub {}", i);
        assert_eq!(&m.payload[..], b"to all", "sub {}", i);
    }
}

#[test]
fn external_broker_publish_reaches_mqtt_subscriber() {
    let mut net = start_broker_with(Broker::insecure());
    let s = net.connect_raw();
    net.send_packet(s, &connect_packet("aiot-sub"));
    let _ = net.read_packet(s);
    net.subscribe(s, 1, "aiot/event", QoS::AtMostOnce);
    net.broker.publish(
        &None,
        &Arc::from("http-bridge"),
        PublishPacket {
            topic: Arc::from("aiot/event"),
            payload: Bytes::from_static(b"from-http"),
            dup: false,
            qos: QoS::AtMostOnce,
            retain: false,
            packet_id: None,
            properties: Properties::default(),
        },
    );
    let m = net.read_publish(s);
    assert_eq!(m.topic.as_ref(), "aiot/event");
    assert_eq!(&m.payload[..], b"from-http");
}

#[test]
fn will_message_fires_on_abrupt_disconnect() {
    let mut net = start_broker_with(Broker::insecure());
    let s = net.connect_raw();
    net.send_packet(s, &connect_packet("lwt-sub"));
    let _ = net.read_packet(s);
    net.subscribe(s, 1, "lwt/topic", QoS::AtMostOnce);

    let p = net.connect_raw();
    net.send_packet(p, &connect("crash-client", true, None, will("lwt/topic", b"gone")));
    let _ = net.read_packet(p);
    net.lose(p);
    let m = net.read_publish(s);
    assert_eq!(m.topic.as_ref(), "lwt/topic");
    assert_eq!(&m.payload[..], b"gone");
}

#[test]
fn a_client_that_says_goodbye_leaves_no_will() {
    let mut net = start_broker_with(Broker::insecure());
    let s = net.connect_raw();
    net.send_packet(s, &connect_packet("lwt-sub"));
    let _ = net.read_packet(s);
    net.subscribe(s, 1, "lwt/topic", QoS::AtMostOnce);
    let p = net.connect_raw();
    net.send_packet(p, &connect("polite", true, None, will("lwt/topic", b"gone")));
    net.send_packet(p, &Packet::Disconnect);
    assert!(net.next_packet(s).is_none());
    assert_eq!(net.broker.active_connection_count(), 1);
}

#[test]
fn publisher_ordering_preserved_under_load() {
    let mut net = start_broker_with(Broker::insecure());
    let s = net.connect_raw();
    net.send_packet(s, &connect_packet("order-sub"));
    let _ = net.read_packet(s);
    net.subscribe(s, 1, "seq/test", QoS::AtMostOnce);

    const N: usize = 50;
    let p = net.connect_raw();
    net.send_packet(p, &connect_packet("order-pub"));
    for i in 0..N {
        net.send_packet(
            p,
            &publish("seq/test", format!("{}", i).as_bytes(), QoS::AtMostOnce, false, None),
        );
    }
    for expected in 0..N {
        let m = net.read_publish(s);
        let got = std::str::from_utf8(&m.payload).unwrap().parse::<usize>().unwrap();
        assert_eq!(got, expected, "out-of-order delivery at position {expected}: got {got}");
    }
}

#[test]
fn v1_retransmit_uses_stashed_adjusted_packet_retain_zero() {
    let mut net = start_broker_with(Broker::insecure());
    let s1 = net.connect_raw();
    net.send_packet(s1, &connect_packet_persistent("v1-sub"));
    let _ = net.read_packet(s1);
    net.subscribe(s1, 1, "v1/topic", QoS::AtLeastOnce);

    let p = net.connect_raw();
    net.send_packet(p, &connect_packet("v1-pub"));
    let _ = net.read_packet(p);
    net.send_packet(p, &publish("v1/topic", b"retained-q1", QoS::AtLeastOnce, true, Some(7)));
    let _ = net.read_packet(p);

    let m = net.read_publish(s1);
    assert_eq!(m.topic.as_ref(), "v1/topic");
    assert!(!m.retain, "current delivery MUST be retain=0");
    assert!(!m.dup, "first delivery has dup=0");
    net.lose(s1);

    let s2 = net.connect_raw();
    net.send_packet(s2, &connect_packet_persistent("v1-sub"));
    assert!(net.read_connack(s2).session_present);
    let again = net.read_publish(s2);
    assert_eq!(again.topic.as_ref(), "v1/topic");
    assert_eq!(&again.payload[..], b"retained-q1");
    assert_eq!(again.qos, QoS::AtLeastOnce);
    assert!(again.dup, "retransmitted PUBLISH MUST have dup=1");
    assert!(!again.retain, "retransmit MUST carry retain=0");
}

#[test]
fn v3_takeover_does_not_wipe_new_session_after_prior_unregister() {
    let mut net = start_broker_with(Broker::insecure());
    let c1 = net.connect_raw();
    net.send_packet(c1, &connect_packet("v3-race-sub"));
    let c2 = net.connect_raw();
    net.send_packet(c2, &connect_packet("v3-race-sub"));
    let _ = net.read_packet(c2);
    net.subscribe(c2, 1, "v3/race/topic", QoS::AtMostOnce);
    net.lose(c1);

    let p = net.connect_raw();
    net.send_packet(p, &connect_packet("v3-race-pub"));
    net.send_packet(p, &publish("v3/race/topic", b"survived", QoS::AtMostOnce, false, None));
    let m = net.read_publish(c2);
    assert_eq!(m.topic.as_ref(), "v3/race/topic");
    assert_eq!(&m.payload[..], b"survived");
}

#[test]
fn v3_takeover_fires_prior_session_will() {
    let mut net = start_broker_with(Broker::insecure());
    let w = net.connect_raw();
    net.send_packet(w, &connect_packet("v3-will-rx"));
    let _ = net.read_packet(w);
    net.subscribe(w, 1, "v3/will", QoS::AtMostOnce);

    let c1 = net.connect_raw();
    net.send_packet(c1, &connect("v3-will-victim", true, None, will("v3/will", b"taken-over")));
    let _ = net.read_packet(c1);
    let c2 = net.connect_raw();
    net.send_packet(c2, &connect_packet("v3-will-victim"));
    let _ = net.read_packet(c2);
    let m = net.read_publish(w);
    assert_eq!(m.topic.as_ref(), "v3/will");
    assert_eq!(&m.payload[..], b"taken-over");
}

fn retained_seen<A: Authenticator, C: AclChecker, T: TenantResolver>(
    net: &mut Net<A, C, T>,
    client_id: &str,
    filter: &str,
) -> Vec<String> {
    let s = net.connect_raw();
    net.send_packet(s, &connect_packet(client_id));
    let _ = net.read_packet(s);
    net.subscribe(s, 1, filter, QoS::AtMostOnce);
    let mut topics = Vec::new();
    while let Some(Packet::Publish(m)) = net.next_packet(s) {
        assert!(m.retain);
        topics.push(m.topic.to_string());
    }
    topics.sort();
    topics
}

fn retained_payload<A: Authenticator, C: AclChecker, T: TenantResolver>(
    net: &mut Net<A, C, T>,
    client_id: &str,
    topic: &str,
) -> Vec<u8> {
    let s = net.connect_raw();
    net.send_packet(s, &connect_packet(client_id));
    let _ = net.read_packet(s);
    net.subscribe(s, 1, topic, QoS::AtMostOnce);
    net.read_publish(s).payload.to_vec()
}

#[test]
fn a_tenant_keeps_no_more_retained_messages_than_allowed() {
    let broker = Broker::insecure()
        .with_tenant_resolver(PrefixTenantResolver)
        .with_broker_safety(BrokerSafety::new().with_max_retained_messages_per_tenant(2));
    let mut net = start_broker_with(broker);
    let p = net.connect_raw();
    net.send_packet(p, &connect_packet("t:keeper"));
    for (topic, payload) in [("k/1", b"v"), ("k/2", b"v"), ("k/3", b"v"), ("k/2", b"w")] {
        net.send_packet(p, &publish(topic, payload, QoS::AtMostOnce, true, None));
    }
    assert_eq!(retained_payload(&mut net, "t:reader", "k/1"), b"v");
    assert_eq!(retained_payload(&mut net, "t:other", "k/2"), b"w");
    assert_eq!(retained_seen(&mut net, "t:late", "k/#"), vec!["k/1", "k/2"]);
    net.send_packet(p, &publish("k/1", b"", QoS::AtMostOnce, true, None));
    net.send_packet(p, &publish("k/3", b"v", QoS::AtMostOnce, true, None));
    assert_eq!(retained_seen(&mut net, "t:later", "k/#"), vec!["k/2", "k/3"]);
}

#[test]
fn a_tenant_keeps_no_more_retained_bytes_than_allowed() {
    let broker = Broker::insecure()
        .with_tenant_resolver(PrefixTenantResolver)
        .with_broker_safety(BrokerSafety::new().with_max_retained_bytes_per_tenant(10));
    let mut net = start_broker_with(broker);
    let p = net.connect_raw();
    net.send_packet(p, &connect_packet("t:keeper"));
    net.send_packet(p, &publish("b/1", b"123456", QoS::AtMostOnce, true, None));
    net.send_packet(p, &publish("b/2", b"12345", QoS::AtMostOnce, true, None));
    net.send_packet(p, &publish("b/3", b"1234", QoS::AtMostOnce, true, None));
    assert_eq!(retained_seen(&mut net, "t:late", "b/#"), vec!["b/1", "b/3"]);
}

fn subscribe_codes<A: Authenticator, C: AclChecker, T: TenantResolver>(
    net: &mut Net<A, C, T>,
    c: usize,
    topics: &[&str],
) -> Vec<SubackCode> {
    net.send_packet(
        c,
        &Packet::Subscribe(SubscribePacket {
            packet_id: 9,
            subscriptions: topics
                .iter()
                .map(|t| TopicSubscription {
                    topic: Arc::from(*t),
                    qos: QoS::AtMostOnce,
                })
                .collect(),
        }),
    );
    match net.read_packet(c) {
        Packet::Suback(s) => s.return_codes,
        other => panic!("expected SUBACK, got {}", other.name()),
    }
}

#[test]
fn a_client_has_no_more_subscriptions_than_allowed() {
    let broker = Broker::insecure()
        .with_broker_safety(BrokerSafety::new().with_max_subscriptions_per_client(2));
    let mut net = start_broker_with(broker);
    let c = net.connect_raw();
    net.send_packet(c, &connect_packet("greedy"));
    let _ = net.read_packet(c);
    let granted = SubackCode::Granted(QoS::AtMostOnce);
    assert_eq!(
        subscribe_codes(&mut net, c, &["a", "b", "c", "a"]),
        vec![granted, granted, SubackCode::Failure, granted]
    );
    assert_eq!(subscribe_codes(&mut net, c, &["c"]), vec![SubackCode::Failure]);
}

#[test]
fn a_filter_that_is_not_well_formed_is_refused_alone() {
    let mut net = start_broker_with(Broker::insecure());
    let c = net.connect_raw();
    net.send_packet(c, &connect_packet("odd"));
    let _ = net.read_packet(c);
    let granted = SubackCode::Granted(QoS::AtMostOnce);
    assert_eq!(
        subscribe_codes(&mut net, c, &["a/#/b", "a/+", "x+"]),
        vec![SubackCode::Failure, granted, SubackCode::Failure]
    );
}

#[test]
fn too_many_filters_in_one_packet_end_the_connection() {
    let broker = Broker::insecure()
        .with_safety(hotaru_mqtt::MqttSafety::new().with_max_filters_per_subscribe(2));
    let mut net = start_broker_with(broker);
    let c = net.connect_raw();
    net.send_packet(c, &connect_packet("many"));
    let _ = net.read_packet(c);
    let granted = SubackCode::Granted(QoS::AtMostOnce);
    assert_eq!(subscribe_codes(&mut net, c, &["a", "b"]), vec![granted, granted]);
    net.send_packet(
        c,
        &Packet::Unsubscribe(UnsubscribePacket {
            packet_id: 3,
            topics: vec![Arc::from("a"), Arc::from("b"), Arc::from("c")],
        }),
    );
    assert!(!net.is_open(c));
    assert_eq!(net.broker.active_connection_count(), 0);
}

#[test]
fn one_unreleased_message_too_many_ends_the_connection() {
    let broker = Broker::insecure()
        .with_safety(hotaru_mqtt::MqttSafety::new().with_receive_maximum_inbound(1));
    let mut net = start_broker_with(broker);
    let c = net.connect_raw();
    net.send_packet(c, &connect_packet("flood"));
    let _ = net.read_packet(c);
    net.send_packet(c, &publish("t", b"1", QoS::ExactlyOnce, false, Some(1)));
    assert!(net.is_open(c));
    net.send_packet(c, &publish("t", b"2", QoS::ExactlyOnce, false, Some(2)));
    assert!(!net.is_open(c));
}

#[test]
fn a_tenant_keeps_no_more_sessions_than_allowed() {
    let broker = Broker::insecure()
        .with_broker_safety(BrokerSafety::new().with_max_persistent_sessions_per_tenant(1));
    let mut net = start_broker_with(broker);
    for client in ["first", "second"] {
        let c = net.connect_raw();
        net.send_packet(c, &connect_packet_persistent(client));
        let _ = net.read_packet(c);
        net.subscribe(c, 1, "x", QoS::AtLeastOnce);
        net.lose(c);
    }
    let c = net.connect_raw();
    net.send_packet(c, &connect_packet_persistent("first"));
    assert!(net.read_connack(c).session_present);
    let c = net.connect_raw();
    net.send_packet(c, &connect_packet_persistent("second"));
    assert!(!net.read_connack(c).session_present);
}

fn one_publisher<A: Authenticator, C: AclChecker, T: TenantResolver>(
    net: &mut Net<A, C, T>,
) -> (usize, ServerConnection) {
    let c = net.connect_raw();
    net.send_packet(c, &connect_packet("pub"));
    let _ = net.read_packet(c);
    let conn = net.connections[c].take().unwrap();
    (c, conn)
}

fn flood<A: Authenticator, C: AclChecker, T: TenantResolver>(
    net: &mut Net<A, C, T>,
    conn: &mut ServerConnection,
    n: usize,
) {
    for i in 0..n {
        let _step = net.broker.server_step(
            conn,
            ServerEvent::Packet(publish("t", &[i as u8], QoS::AtMostOnce, false, None)),
        );
    }
}

#[test]
fn a_full_line_drops_what_nothing_was_promised_for() {
    let broker = Broker::insecure()
        .with_safety(hotaru_mqtt::MqttSafety::new().with_max_queued_messages(2));
    let mut net = start_broker_with(broker);
    let (c, mut conn) = one_publisher(&mut net);
    flood(&mut net, &mut conn, 4);
    assert!(net.is_open(c));
    assert_eq!(&conn.next_fanout().unwrap().payload[..], &[0]);
    assert_eq!(&conn.next_fanout().unwrap().payload[..], &[1]);
    assert!(conn.next_fanout().is_none());
}

#[test]
fn a_full_line_closes_a_laggard() {
    let broker = Broker::insecure()
        .with_safety(hotaru_mqtt::MqttSafety::new().with_max_queued_messages(2))
        .with_broker_safety(
            BrokerSafety::new().with_slow_consumer_policy(SlowConsumerPolicy::DisconnectLaggard),
        );
    let mut net = start_broker_with(broker);
    let (c, mut conn) = one_publisher(&mut net);
    flood(&mut net, &mut conn, 2);
    assert!(net.is_open(c));
    flood(&mut net, &mut conn, 1);
    assert!(!net.is_open(c));
}

#[test]
fn handlers_decide_whether_a_message_goes_on() {
    let packet = |topic: &str| match publish(topic, b"v", QoS::AtMostOnce, false, Some(3)) {
        Packet::Publish(p) => p,
        _ => unreachable!(),
    };
    let changed = || hotaru_mqtt::incoming_from_packet(&packet("other"));
    let p = Pending::new(packet("t"))
        .after(ChainOutcome::Ran {
            propagate: true,
            incoming: Some(changed()),
        })
        .decide()
        .unwrap();
    assert_eq!(&*p.topic, "other");
    assert_eq!(p.packet_id, Some(3));
    assert!(Pending::new(packet("t"))
        .after(ChainOutcome::Failed)
        .after(ChainOutcome::Ran {
            propagate: true,
            incoming: None
        })
        .decide()
        .is_none());
    assert!(Pending::new(packet("t"))
        .after(ChainOutcome::Ran {
            propagate: false,
            incoming: None
        })
        .decide()
        .is_none());
    assert!(Pending::new(packet("t")).decide().is_some());
}

#[test]
fn a_silent_client_is_given_up_after_one_and_a_half_keep_alives() {
    assert_eq!(read_timeout_secs(60), 90);
    assert_eq!(read_timeout_secs(1), 1);
    assert_eq!(read_timeout_secs(65535), 98302);
    assert_eq!(read_timeout_secs(0), 2_592_000);
}

#[test]
fn a_connection_is_recognised_by_its_connect() {
    assert!(MqttServerProtocol::detect(&[0x10, 0x0C]));
    assert!(!MqttServerProtocol::detect(&[0x20]));
    assert!(!MqttServerProtocol::detect(b"GET / HTTP/1.1"));
    assert!(!MqttClientProtocol::detect(&[]));
    assert_eq!(MqttServerProtocol::new().name(), "mqtt-server");
    assert_eq!(MqttServerProtocol::lit_parser("a/b"), vec!["a", "b"]);
    assert!(MqttServerProtocol::new().acquire_channel().is_err());
    assert!(MqttServerProtocol::new().send().is_err());
}

#[test]
fn a_resumed_session_counts_the_subscriptions_it_has() {
    let broker = Broker::insecure()
        .with_broker_safety(BrokerSafety::new().with_max_subscriptions_per_client(2));
    let mut net = start_broker_with(broker);
    let granted = SubackCode::Granted(QoS::AtMostOnce);
    let c = net.connect_raw();
    net.send_packet(c, &connect_packet_persistent("greedy"));
    let _ = net.read_packet(c);
    assert_eq!(subscribe_codes(&mut net, c, &["a", "b"]), vec![granted, granted]);
    net.lose(c);

    let c = net.connect_raw();
    net.send_packet(c, &connect_packet_persistent("greedy"));
    assert!(net.read_connack(c).session_present);
    assert_eq!(
        subscribe_codes(&mut net, c, &["c", "a"]),
        vec![SubackCode::Failure, granted]
    );
    net.send_packet(
        c,
        &Packet::Unsubscribe(UnsubscribePacket {
            packet_id: 3,
            topics: vec![Arc::from("b")],
        }),
    );
    let _ = net.read_packet(c);
    assert_eq!(subscribe_codes(&mut net, c, &["c"]), vec![granted]);
    net.lose(c);

    let c = net.connect_raw();
    net.send_packet(c, &connect_packet("greedy"));
    assert!(!net.read_connack(c).session_present);
    assert_eq!(
        subscribe_codes(&mut net, c, &["x", "y", "z"]),
        vec![granted, granted, SubackCode::Failure]
    );
}

/// Lets everybody, and counts how often it is asked about a message.
struct CountingAcl(Arc<AtomicUsize>);

impl AclChecker for CountingAcl {
    fn check_subscribe(
        &self,
        _tenant: Option<&TenantId>,
        _client_id: &Arc<str>,
        _username: Option<&Arc<str>>,
        _filter: &str,
    ) -> AclDecision {
        AclDecision::Allow
    }

    fn check_publish(
        &self,
        _tenant: Option<&TenantId>,
        client_id: &Arc<str>,
        _username: Option<&Arc<str>>,
        topic: &str,
    ) -> AclDecision {
        assert_eq!((&**client_id, topic), ("", "gone"));
        self.0.fetch_add(1, Ordering::SeqCst);
        AclDecision::Allow
    }
}

#[test]
fn nobody_is_asked_about_a_will_that_is_not_due() {
    let asked = Arc::new(AtomicUsize::new(0));
    let mut broker = Broker::insecure().with_acl_checker(CountingAcl(asked.clone()));
    let client: Arc<str> = Arc::from("c");
    let last_words = || {
        Some(hotaru_mqtt::WillMessage {
            topic: Arc::from("gone"),
            payload: Bytes::from_static(b"bye"),
            qos: QoS::AtMostOnce,
            retain: false,
        })
    };
    for id in [7, 8] {
        broker.channels.insert(id, MqttServerProtocol::new().open_channel(id));
    }
    let (_, first) = broker.register_session(None, client.clone(), None, 7, last_words(), true);
    assert_eq!(asked.load(Ordering::SeqCst), 0);
    let (_, second) = broker.register_session(None, client.clone(), None, 8, last_words(), true);
    assert!(first < second);
    assert_eq!(asked.load(Ordering::SeqCst), 1);
    broker.unregister_session(&None, &client, first, false);
    assert_eq!(asked.load(Ordering::SeqCst), 1);
    broker.unregister_session(&None, &client, second, true);
    assert_eq!(asked.load(Ordering::SeqCst), 1);
    broker.unregister_session(&None, &client, second, false);
    assert_eq!(asked.load(Ordering::SeqCst), 1);
    let (_, third) = broker.register_session(None, client.clone(), None, 8, last_words(), true);
    broker.unregister_session(&None, &client, third, false);
    assert_eq!(asked.load(Ordering::SeqCst), 2);
}

#[test]
fn a_whole_connection_leaves_the_count_as_it_was() {
    let broker = Broker::insecure().with_broker_safety(BrokerSafety::new().with_max_connections(1));
    let mut net = start_broker_with(broker);
    assert_eq!(net.broker.active_connection_count(), 0);
    let c = net.connect_raw();
    net.send_packet(c, &connect_packet("one"));
    assert_eq!(net.broker.active_connection_count(), 1);
    let d = net.connect_raw();
    net.send_packet(d, &connect_packet("two"));
    assert_eq!(
        net.read_connack(d).return_code,
        ConnackReturnCode::ServerUnavailable
    );
    assert_eq!(net.broker.active_connection_count(), 1);
    net.send_packet(c, &Packet::Pingreq);
    net.send_packet(c, &Packet::Disconnect);
    assert_eq!(net.broker.active_connection_count(), 0);
    let e = net.connect_raw();
    net.send_packet(e, &connect_packet("three"));
    net.lose(e);
    assert_eq!(net.broker.active_connection_count(), 0);
}

#[test]
fn the_worker_drains_the_line_before_it_stops() {
    let mut net = start_broker_with(Broker::insecure());
    let (_c, mut conn) = one_publisher(&mut net);
    assert!(matches!(conn.fanout_step(false), FanoutStep::Wait));
    flood(&mut net, &mut conn, 3);
    for expected in 0..3u8 {
        match conn.fanout_step(expected > 0) {
            FanoutStep::Handle(p) => assert_eq!(&p.payload[..], &[expected]),
            _ => panic!("expected a message"),
        }
    }
    assert!(matches!(conn.fanout_step(true), FanoutStep::Done));
}
