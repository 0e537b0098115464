use bytes::Bytes;
use hotaru_mqtt::dispatch::{dispatch_incoming, EndpointDispatcher, MatchedEndpoint};
use hotaru_mqtt::{IncomingPublish, Properties, QoS};
use std::sync::Arc;

fn message(n: u8) -> IncomingPublish {
    IncomingPublish {
        topic: Arc::from("t"),
        payload: Bytes::copy_from_slice(&[n]),
        qos: QoS::AtMostOnce,
        retain: false,
        dup: false,
        packet_id: None,
        properties: Properties::default(),
    }
}

fn at(key: u64) -> MatchedEndpoint {
    MatchedEndpoint { key, wild: false }
}

fn number(p: Option<IncomingPublish>) -> Option<u8> {
    p.map(|p| p.payload()[0])
}

#[test]
fn every_matching_endpoint_gets_the_message() {
    let mut d = EndpointDispatcher::new(true, 4);
    let started = dispatch_incoming(&mut d, &[at(7), at(9)], message(1));
    assert_eq!(started.endpoints, vec![7, 9]);
    assert!(!started.fallback);
    assert_eq!(number(d.take_endpoint(7)), Some(1));
    assert_eq!(number(d.take_endpoint(9)), Some(1));
    assert_eq!(number(d.take_endpoint(8)), None);
    assert_eq!(number(d.take_fallback()), None);
}

#[test]
fn an_endpoint_takes_its_messages_in_order() {
    let mut d = EndpointDispatcher::new(false, 4);
    for n in 1..4 {
        let started = dispatch_incoming(&mut d, &[at(7)], message(n));
        assert_eq!(started.endpoints.len(), if n == 1 { 1 } else { 0 });
    }
    assert_eq!(number(d.take_endpoint(7)), Some(1));
    assert_eq!(number(d.take_endpoint(7)), Some(2));
    assert_eq!(number(d.take_endpoint(7)), Some(3));
    assert_eq!(number(d.take_endpoint(7)), None);
}

#[test]
fn a_full_queue_loses_the_new_message() {
    let mut d = EndpointDispatcher::new(false, 2);
    for n in 1..5 {
        let _started = dispatch_incoming(&mut d, &[at(7)], message(n));
    }
    let _started = dispatch_incoming(&mut d, &[at(9)], message(9));
    assert_eq!(number(d.take_endpoint(7)), Some(1));
    assert_eq!(number(d.take_endpoint(7)), Some(2));
    assert_eq!(number(d.take_endpoint(7)), None);
    assert_eq!(number(d.take_endpoint(9)), Some(9));
}

#[test]
fn a_queue_holds_at_least_one_message() {
    let mut d = EndpointDispatcher::new(false, 0);
    assert!(d.dispatch_endpoint(1, message(1)));
    assert!(!d.dispatch_endpoint(1, message(2)));
    assert_eq!(number(d.take_endpoint(1)), Some(1));
    assert_eq!(number(d.take_endpoint(1)), None);
}

#[test]
fn what_no_endpoint_matches_goes_to_the_default_handler() {
    let mut d = EndpointDispatcher::new(true, 4);
    assert!(dispatch_incoming(&mut d, &[], message(1)).fallback);
    assert!(!dispatch_incoming(&mut d, &[], message(2)).fallback);
    assert_eq!(number(d.take_fallback()), Some(1));
    assert_eq!(number(d.take_fallback()), Some(2));
    assert_eq!(number(d.take_fallback()), None);
}

#[test]
fn without_a_default_handler_the_message_is_lost() {
    let mut d = EndpointDispatcher::new(false, 4);
    assert!(!dispatch_incoming(&mut d, &[], message(1)).fallback);
    assert_eq!(number(d.take_fallback()), None);
}

#[test]
fn an_idle_endpoint_starts_again() {
    let mut d = EndpointDispatcher::new(false, 4);
    assert!(d.dispatch_endpoint(1, message(1)));
    let _taken = d.take_endpoint(1);
    d.endpoint_idle(1);
    assert!(d.dispatch_endpoint(1, message(2)));
    assert_eq!(number(d.take_endpoint(1)), Some(2));
}

#[test]
fn an_idle_default_handler_does_not_start_again() {
    let mut d = EndpointDispatcher::new(true, 4);
    d.fallback_idle();
    assert!(d.dispatch_fallback(message(1)));
    let _taken = d.take_fallback();
    d.fallback_idle();
    assert!(!d.dispatch_fallback(message(2)));
    assert_eq!(number(d.take_fallback()), None);
}

#[test]
fn a_first_wildcard_does_not_stand_for_a_dollar_name() {
    let wild = |key: u64| MatchedEndpoint { key, wild: true };
    let status = |n: u8| IncomingPublish {
        topic: Arc::from("$SYS/broker"),
        ..message(n)
    };
    let mut d = EndpointDispatcher::new(true, 4);
    let started = dispatch_incoming(&mut d, &[wild(7), at(9)], status(1));
    assert_eq!(started.endpoints, vec![9]);
    assert_eq!(number(d.take_endpoint(7)), None);
    assert_eq!(number(d.take_endpoint(9)), Some(1));
    assert!(dispatch_incoming(&mut d, &[wild(7)], status(2)).fallback);
    assert_eq!(number(d.take_fallback()), Some(2));
    let started = dispatch_incoming(&mut d, &[wild(7)], message(3));
    assert_eq!(started.endpoints, vec![7]);
    assert_eq!(number(d.take_endpoint(7)), Some(3));
}
