use hotaru_mqtt::broker::tree::SubscriptionTree;
use hotaru_mqtt::{QoS, TenantId};
use std::sync::Arc;

fn ten(name: &str) -> Option<TenantId> {
    Some(Arc::from(name))
}

#[test]
fn subscription_tree_isolates_tenants_on_matching() {
    let mut tree = SubscriptionTree::new();
    let ta = ten("ta");
    let tb = ten("tb");

    tree.subscribe(
        ta.clone(),
        Arc::from("alice"),
        Arc::from("home/temp"),
        QoS::AtMostOnce,
    );
    tree.subscribe(
        tb.clone(),
        Arc::from("bob"),
        Arc::from("#"),
        QoS::AtMostOnce,
    );

    let ta_matches = tree.matching(&ta, "home/temp");
    assert_eq!(ta_matches.len(), 1);
    assert_eq!(ta_matches[0].0.as_ref(), "alice");
    assert!(
        !ta_matches.iter().any(|(c, _)| c.as_ref() == "bob"),
        "tenant B's `#` MUST NOT leak across into tenant A"
    );

    let tb_matches = tree.matching(&tb, "home/temp");
    assert_eq!(tb_matches.len(), 1);
    assert_eq!(tb_matches[0].0.as_ref(), "bob");
    assert!(
        !tb_matches.iter().any(|(c, _)| c.as_ref() == "alice"),
        "tenant A's subscribers MUST NOT surface in tenant B's lookup"
    );
}

#[test]
fn subscription_tree_remove_client_is_tenant_scoped() {
    let mut tree = SubscriptionTree::new();
    let ta = ten("ta");
    let tb = ten("tb");
    let alice: Arc<str> = Arc::from("alice");

    tree.subscribe(ta.clone(), alice.clone(), Arc::from("x"), QoS::AtMostOnce);
    tree.subscribe(tb.clone(), alice.clone(), Arc::from("x"), QoS::AtMostOnce);

    tree.remove_client(&ta, &alice);

    assert!(tree.matching(&ta, "x").is_empty());
    assert_eq!(tree.matching(&tb, "x").len(), 1);
}

#[test]
fn subscription_tree_none_tenant_isolated_from_named_tenants() {
    let mut tree = SubscriptionTree::new();
    let none_t: Option<TenantId> = None;
    let some_t = ten("paying-customer");

    tree.subscribe(
        none_t.clone(),
        Arc::from("free"),
        Arc::from("#"),
        QoS::AtMostOnce,
    );
    tree.subscribe(
        some_t.clone(),
        Arc::from("vip"),
        Arc::from("billing/+"),
        QoS::AtMostOnce,
    );

    let bill_in_paying = tree.matching(&some_t, "billing/invoice");
    assert_eq!(bill_in_paying.len(), 1);
    assert_eq!(bill_in_paying[0].0.as_ref(), "vip");
    let bill_in_default = tree.matching(&none_t, "billing/invoice");
    assert!(
        !bill_in_default.iter().any(|(c, _)| c.as_ref() == "vip"),
        "Some(...) subscriptions must not surface under None"
    );
    let own = tree.matching(&none_t, "billing/invoice");
    assert!(own.iter().any(|(c, _)| c.as_ref() == "free"));
}

#[test]
fn subs_map_shrinks_after_unsubscribe_all() {
    let mut tree = SubscriptionTree::new();
    let t = ten("t");
    let alice: Arc<str> = Arc::from("alice");

    for i in 0..100 {
        tree.subscribe(
            t.clone(),
            alice.clone(),
            Arc::from(format!("a/{i}").as_str()),
            QoS::AtMostOnce,
        );
    }
    assert_eq!(tree.filter_bucket_count(), 100);

    for i in 0..100 {
        tree.unsubscribe(&t, &alice, &format!("a/{i}"));
    }
    assert_eq!(
        tree.filter_bucket_count(),
        0,
        "empty (tenant, filter) buckets must be reclaimed on unsubscribe"
    );
}

#[test]
fn unsubscribe_keeps_bucket_with_other_subscribers() {
    let mut tree = SubscriptionTree::new();
    let t = ten("t");
    let alice: Arc<str> = Arc::from("alice");
    let bob: Arc<str> = Arc::from("bob");
    let filter: Arc<str> = Arc::from("shared/topic");

    tree.subscribe(t.clone(), alice.clone(), filter.clone(), QoS::AtMostOnce);
    tree.subscribe(t.clone(), bob.clone(), filter.clone(), QoS::AtMostOnce);
    assert_eq!(tree.filter_bucket_count(), 1);

    tree.unsubscribe(&t, &alice, "shared/topic");
    assert_eq!(tree.filter_bucket_count(), 1, "bucket still has bob");
    let m = tree.matching(&t, "shared/topic");
    assert_eq!(m.len(), 1);
    assert_eq!(m[0].0.as_ref(), "bob");

    tree.unsubscribe(&t, &bob, "shared/topic");
    assert_eq!(tree.filter_bucket_count(), 0, "last subscriber gone → reclaim");
}

#[test]
fn remove_client_reclaims_empty_buckets_tenant_scoped() {
    let mut tree = SubscriptionTree::new();
    let ta = ten("ta");
    let tb = ten("tb");
    let alice: Arc<str> = Arc::from("alice");
    let bob: Arc<str> = Arc::from("bob");
    tree.subscribe(ta.clone(), alice.clone(), Arc::from("a/f1"), QoS::AtMostOnce);
    tree.subscribe(ta.clone(), alice.clone(), Arc::from("a/shared"), QoS::AtMostOnce);
    tree.subscribe(ta.clone(), bob.clone(), Arc::from("a/shared"), QoS::AtMostOnce);
    tree.subscribe(tb.clone(), alice.clone(), Arc::from("b/f1"), QoS::AtMostOnce);
    assert_eq!(tree.filter_bucket_count(), 3);

    tree.remove_client(&ta, &alice);
    assert_eq!(tree.filter_bucket_count(), 2);
    assert!(tree.matching(&ta, "a/f1").is_empty());
    let shared = tree.matching(&ta, "a/shared");
    assert_eq!(shared.len(), 1);
    assert_eq!(shared[0].0.as_ref(), "bob");
    assert_eq!(tree.matching(&tb, "b/f1").len(), 1, "other tenant untouched");
}

#[test]
fn every_matching_filter_of_a_client_counts() {
    let mut tree = SubscriptionTree::new();
    let alice: Arc<str> = Arc::from("alice");
    tree.subscribe(None, alice.clone(), Arc::from("a/+"), QoS::AtMostOnce);
    tree.subscribe(None, alice.clone(), Arc::from("a/#"), QoS::ExactlyOnce);
    let mut hits = tree.matching(&None, "a/b");
    hits.sort();
    assert_eq!(
        hits,
        vec![(alice.clone(), QoS::AtMostOnce), (alice.clone(), QoS::ExactlyOnce)]
    );
    tree.unsubscribe(&None, &alice, "a/#");
    assert_eq!(tree.matching(&None, "a/b"), vec![(alice.clone(), QoS::AtMostOnce)]);
    tree.subscribe(None, alice.clone(), Arc::from("a/+"), QoS::AtLeastOnce);
    assert_eq!(tree.matching(&None, "a/b"), vec![(alice, QoS::AtLeastOnce)]);
}

#[test]
fn wildcards_do_not_reach_dollar_topics() {
    let mut tree = SubscriptionTree::new();
    tree.subscribe(None, Arc::from("a"), Arc::from("#"), QoS::AtMostOnce);
    tree.subscribe(None, Arc::from("b"), Arc::from("$SYS/#"), QoS::AtMostOnce);
    let hits = tree.matching(&None, "$SYS/broker/version");
    assert_eq!(hits.len(), 1);
    assert_eq!(hits[0].0.as_ref(), "b");
}
