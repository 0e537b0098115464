use bytes::Bytes;
use hotaru_mqtt::broker::defaults::is_dollar_topic;
use hotaru_mqtt::{
    AcceptAllAuthenticator, AclChecker, AclDecision, AllowAllAclChecker, Authenticator,
    ConnackReturnCode, ConnectPacket, DefaultRetainedStore, DefaultSessionStore,
    DenyAllAuthenticator, MqttSession, Properties, ProtocolVersion, QoS, RetainedStore,
    SessionStore, SingleTenantResolver, TenantId, TenantResolver,
};
use std::sync::Arc;

fn ten(s: &str) -> Option<TenantId> {
    Some(Arc::from(s))
}

#[test]
fn store_and_match_round_trip() {
    let mut s = DefaultRetainedStore::new();
    s.store(
        None,
        Arc::from("home/temp"),
        Bytes::from_static(b"21C"),
        QoS::AtMostOnce,
    );

    let hits = s.matching(None, "home/temp");
    assert_eq!(hits.len(), 1);
    assert_eq!(hits[0].topic.as_ref(), "home/temp");
    assert_eq!(&hits[0].payload[..], b"21C");
}

#[test]
fn store_overwrites_prior_entry_for_same_topic() {
    let mut s = DefaultRetainedStore::new();
    s.store(
        None,
        Arc::from("x"),
        Bytes::from_static(b"1"),
        QoS::AtMostOnce,
    );
    s.store(
        None,
        Arc::from("x"),
        Bytes::from_static(b"2"),
        QoS::AtMostOnce,
    );
    let hits = s.matching(None, "x");
    assert_eq!(hits.len(), 1);
    assert_eq!(&hits[0].payload[..], b"2");
}

#[test]
fn remove_clears_entry() {
    let mut s = DefaultRetainedStore::new();
    s.store(
        None,
        Arc::from("x"),
        Bytes::from_static(b"v"),
        QoS::AtMostOnce,
    );
    s.remove(None, "x");
    assert!(s.matching(None, "x").is_empty());
}

#[test]
fn wildcard_filter_does_not_match_dollar_prefix() {
    let mut s = DefaultRetainedStore::new();
    s.store(
        None,
        Arc::from("$SYS/broker/version"),
        Bytes::from_static(b"1.0"),
        QoS::AtMostOnce,
    );
    let via_hash = s.matching(None, "#");
    assert!(via_hash.is_empty(), "`#` MUST NOT harvest $SYS topics");
    let via_literal = s.matching(None, "$SYS/broker/version");
    assert_eq!(via_literal.len(), 1);
}

#[test]
fn tenants_are_isolated() {
    let mut s = DefaultRetainedStore::new();
    let ta = ten("ta");
    let tb = ten("tb");
    s.store(
        ta.as_ref(),
        Arc::from("x"),
        Bytes::from_static(b"A"),
        QoS::AtMostOnce,
    );
    s.store(
        tb.as_ref(),
        Arc::from("x"),
        Bytes::from_static(b"B"),
        QoS::AtMostOnce,
    );

    let a = s.matching(ta.as_ref(), "x");
    assert_eq!(a.len(), 1);
    assert_eq!(&a[0].payload[..], b"A");
    let b = s.matching(tb.as_ref(), "x");
    assert_eq!(b.len(), 1);
    assert_eq!(&b[0].payload[..], b"B");
    let none = s.matching(None, "x");
    assert!(none.is_empty());
}

#[test]
fn bytes_accumulates_across_topics() {
    let mut s = DefaultRetainedStore::new();
    assert_eq!(s.bytes(None), 0);
    s.store(None, Arc::from("a"), Bytes::from_static(b"hello"), QoS::AtMostOnce);
    s.store(None, Arc::from("b"), Bytes::from_static(b"hi"), QoS::AtMostOnce);
    assert_eq!(s.bytes(None), 7);
}

#[test]
fn bytes_tracks_overwrite_delta_not_sum() {
    let mut s = DefaultRetainedStore::new();
    s.store(None, Arc::from("x"), Bytes::from_static(b"1234"), QoS::AtMostOnce);
    assert_eq!(s.bytes(None), 4);
    s.store(None, Arc::from("x"), Bytes::from_static(b"9"), QoS::AtMostOnce);
    assert_eq!(s.bytes(None), 1);
}

#[test]
fn bytes_decrements_on_remove() {
    let mut s = DefaultRetainedStore::new();
    s.store(None, Arc::from("x"), Bytes::from_static(b"abcd"), QoS::AtMostOnce);
    s.store(None, Arc::from("y"), Bytes::from_static(b"ef"), QoS::AtMostOnce);
    assert_eq!(s.bytes(None), 6);
    s.remove(None, "x");
    assert_eq!(s.bytes(None), 2);
    s.remove(None, "y");
    assert_eq!(s.bytes(None), 0);
}

#[test]
fn bytes_are_tenant_scoped() {
    let mut s = DefaultRetainedStore::new();
    let ta = ten("ta");
    let tb = ten("tb");
    s.store(ta.as_ref(), Arc::from("x"), Bytes::from_static(b"AAAA"), QoS::AtMostOnce);
    s.store(tb.as_ref(), Arc::from("x"), Bytes::from_static(b"B"), QoS::AtMostOnce);
    assert_eq!(s.bytes(ta.as_ref()), 4);
    assert_eq!(s.bytes(tb.as_ref()), 1);
    assert_eq!(s.bytes(None), 0);
}

#[test]
fn dollar_topic_detection_matches_topic_helper() {
    assert!(is_dollar_topic("$SYS/broker/version"));
    assert!(is_dollar_topic("$SYS"));
    assert!(!is_dollar_topic("home/temp"));
    assert!(!is_dollar_topic("nodollar"));
}

#[test]
fn session_store_count_returns_tenant_scoped_size() {
    let mut s = DefaultSessionStore::new();
    s.save(ten("ta").as_ref(), Arc::from("alice"), MqttSession::new());
    s.save(ten("ta").as_ref(), Arc::from("bob"), MqttSession::new());
    s.save(ten("tb").as_ref(), Arc::from("carol"), MqttSession::new());
    s.save(None, Arc::from("dave"), MqttSession::new());

    assert_eq!(s.count(ten("ta").as_ref()), 2);
    assert_eq!(s.count(ten("tb").as_ref()), 1);
    assert_eq!(s.count(None), 1);
    assert_eq!(s.count(ten("nope").as_ref()), 0);
}

#[test]
fn session_store_count_drops_to_zero_after_destroy() {
    let mut s = DefaultSessionStore::new();
    s.save(ten("ta").as_ref(), Arc::from("alice"), MqttSession::new());
    assert_eq!(s.count(ten("ta").as_ref()), 1);
    s.destroy(ten("ta").as_ref(), "alice");
    assert_eq!(s.count(ten("ta").as_ref()), 0);
}

#[test]
fn retained_counts_are_tenant_scoped() {
    let mut s = DefaultRetainedStore::new();
    s.store(None, Arc::from("a"), Bytes::from_static(b"1"), QoS::AtMostOnce);
    s.store(None, Arc::from("a"), Bytes::from_static(b"2"), QoS::AtMostOnce);
    s.store(None, Arc::from("b"), Bytes::from_static(b"3"), QoS::AtLeastOnce);
    s.store(ten("t").as_ref(), Arc::from("a"), Bytes::from_static(b"4"), QoS::AtMostOnce);
    assert_eq!(s.count(None), 2);
    assert_eq!(s.count(ten("t").as_ref()), 1);
    assert_eq!(s.count(ten("u").as_ref()), 0);
    let hits = s.matching(None, "#");
    assert_eq!(hits.len(), 2);
    assert_eq!(hits.iter().filter(|e| e.qos == QoS::AtLeastOnce).count(), 1);
}

#[test]
fn a_session_can_be_loaded_once() {
    let mut s = DefaultSessionStore::new();
    let mut session = MqttSession::new();
    session.set_max_inflight(3);
    s.save(None, Arc::from("c"), session);
    assert!(s.load(ten("t").as_ref(), "c").is_none());
    assert_eq!(s.load(None, "c").unwrap().max_inflight(), 3);
    assert!(s.load(None, "c").is_none());
}

#[test]
fn default_hooks() {
    let connect = ConnectPacket {
        version: ProtocolVersion::V311,
        properties: Properties::default(),
        client_id: Arc::from("c"),
        clean_session: true,
        keep_alive: 0,
        username: None,
        password: None,
        will: None,
    };
    assert!(AcceptAllAuthenticator.authenticate(None, &connect, None).accepted);
    let refused = DenyAllAuthenticator.authenticate(None, &connect, None);
    assert!(!refused.accepted);
    assert_eq!(refused.return_code, ConnackReturnCode::NotAuthorized);
    let c: Arc<str> = Arc::from("c");
    assert_eq!(AllowAllAclChecker.check_publish(None, &c, None, "a"), AclDecision::Allow);
    assert_eq!(AllowAllAclChecker.check_subscribe(None, &c, None, "#"), AclDecision::Allow);
    assert!(SingleTenantResolver.resolve(&connect, None).is_none());
}

#[test]
fn a_store_exports_nothing_unless_it_says_so() {
    let mut retained = DefaultRetainedStore::new();
    retained.store(None, Arc::from("a"), Bytes::from_static(b"x"), QoS::AtMostOnce);
    let empty = retained.snapshot(None);
    assert!(matches!(&empty, hotaru_core::Value::Dict(m) if m.is_empty()));
    assert!(retained.restore(None, empty).is_ok());
    assert_eq!(retained.count(None), 1);
    let mut sessions = DefaultSessionStore::new();
    let empty = sessions.snapshot(None);
    assert!(sessions.restore(None, empty).is_ok());
    assert_eq!(sessions.count(None), 0);
}
