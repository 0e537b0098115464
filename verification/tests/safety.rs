use hotaru_mqtt::{BrokerSafety, MqttSafety, QoS, SlowConsumerPolicy};
use std::time::Duration;

#[test]
fn defaults_are_secure() {
    let s = MqttSafety::new();
    assert_eq!(s.max_packet_size(), 268_435_455);
    assert_eq!(s.max_inflight_messages(), 20);
    assert_eq!(s.max_queued_messages(), 1000);
    assert!(s.worker_idle_timeout().is_none());
    assert_eq!(s.receive_maximum_inbound(), 64);
    assert_eq!(s.max_filters_per_subscribe(), 64);
}

#[test]
fn builder_overrides_apply() {
    let s = MqttSafety::new()
        .with_max_packet_size(1024)
        .with_max_queued_messages(8)
        .with_worker_idle_timeout(Duration::from_secs(5))
        .with_receive_maximum_inbound(16)
        .with_max_filters_per_subscribe(8);
    assert_eq!(s.max_packet_size(), 1024);
    assert_eq!(s.max_queued_messages(), 8);
    assert_eq!(s.worker_idle_timeout(), Some(Duration::from_secs(5)));
    assert_eq!(s.max_inflight_messages(), 20);
    assert_eq!(s.receive_maximum_inbound(), 16);
    assert_eq!(s.max_filters_per_subscribe(), 8);
}

#[test]
fn drop_oldest_qos0_keeps_qos0_drops_higher() {
    let p = SlowConsumerPolicy::DropOldestQos0;
    assert!(!p.should_close_on_overflow(QoS::AtMostOnce));
    assert!(p.should_close_on_overflow(QoS::AtLeastOnce));
    assert!(p.should_close_on_overflow(QoS::ExactlyOnce));
}

#[test]
fn disconnect_laggard_closes_every_qos() {
    let p = SlowConsumerPolicy::DisconnectLaggard;
    assert!(p.should_close_on_overflow(QoS::AtMostOnce));
    assert!(p.should_close_on_overflow(QoS::AtLeastOnce));
    assert!(p.should_close_on_overflow(QoS::ExactlyOnce));
}

#[test]
fn default_policy_is_drop_oldest_qos0() {
    let bs = BrokerSafety::new();
    assert_eq!(
        bs.slow_consumer_policy(),
        SlowConsumerPolicy::DropOldestQos0
    );
}

#[test]
fn v5_caps_have_sensible_secure_defaults() {
    let bs = BrokerSafety::new();
    assert_eq!(bs.max_retained_messages_per_tenant(), 65_536);
    assert_eq!(bs.max_retained_bytes_per_tenant(), 16 * 1024 * 1024);
    assert_eq!(bs.max_subscriptions_per_client(), 1_024);
    assert_eq!(bs.max_persistent_sessions_per_tenant(), 4_096);
}

#[test]
fn v5_caps_round_trip_through_builders() {
    let bs = BrokerSafety::new()
        .with_max_retained_messages_per_tenant(7)
        .with_max_retained_bytes_per_tenant(99)
        .with_max_subscriptions_per_client(13)
        .with_max_persistent_sessions_per_tenant(21);
    assert_eq!(bs.max_retained_messages_per_tenant(), 7);
    assert_eq!(bs.max_retained_bytes_per_tenant(), 99);
    assert_eq!(bs.max_subscriptions_per_client(), 13);
    assert_eq!(bs.max_persistent_sessions_per_tenant(), 21);
}
