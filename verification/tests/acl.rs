use hotaru_mqtt::auth::acl::any_matches;
use hotaru_mqtt::{AclChecker, AclDecision, JsonAclChecker, TenantId};
use std::sync::Arc;

fn alice() -> Arc<str> {
    Arc::from("alice")
}
fn cid() -> Arc<str> {
    Arc::from("client-1")
}

#[test]
fn publish_allowed_pattern_grants() {
    let acl = JsonAclChecker::from_str(
        r#"{"users":{"alice":{"acl":{"publish":["sensors/+/temp"]}}}}"#,
    )
    .unwrap();
    let d = acl
        .check_publish(None, &cid(), Some(&alice()), "sensors/kitchen/temp");
    assert_eq!(d, AclDecision::Allow);
}

#[test]
fn publish_unrelated_topic_denied() {
    let acl = JsonAclChecker::from_str(
        r#"{"users":{"alice":{"acl":{"publish":["sensors/+/temp"]}}}}"#,
    )
    .unwrap();
    let d = acl
        .check_publish(None, &cid(), Some(&alice()), "ops/secret/dump");
    assert_eq!(d, AclDecision::Deny);
}

#[test]
fn subscribe_requires_covering_pattern() {
    let acl = JsonAclChecker::from_str(
        r##"{"users":{"alice":{"acl":{"subscribe":["house/alice/#"]}}}}"##,
    )
    .unwrap();
    let allow = acl
        .check_subscribe(None, &cid(), Some(&alice()), "house/alice/temp");
    assert_eq!(allow, AclDecision::Allow);
    let deny = acl
        .check_subscribe(None, &cid(), Some(&alice()), "house/bob/temp");
    assert_eq!(deny, AclDecision::Deny);
}

#[test]
fn missing_acl_section_denies_by_default() {
    let acl = JsonAclChecker::from_str(r#"{"users":{"alice":{}}}"#).unwrap();
    let d = acl
        .check_publish(None, &cid(), Some(&alice()), "x/y");
    assert_eq!(
        d,
        AclDecision::Deny,
        "no ACL config MUST default-deny, not default-allow"
    );
}

#[test]
fn anonymous_user_denied() {
    let acl = JsonAclChecker::from_str(r##"{"users":{"alice":{"acl":{"publish":["#"]}}}}"##)
        .unwrap();
    let d = acl.check_publish(None, &cid(), None, "x/y");
    assert_eq!(d, AclDecision::Deny);
}

#[test]
fn tenant_scope_isolates_acl() {
    let acl = JsonAclChecker::from_str(
        r#"{
            "tenants": {
                "ta": {"users": {"alice": {"acl": {"publish": ["a/#"]}}}},
                "tb": {"users": {"alice": {"acl": {"publish": ["b/#"]}}}}
            }
        }"#,
    )
    .unwrap();
    let ta: TenantId = Arc::from("ta");
    let tb: TenantId = Arc::from("tb");
    assert_eq!(
        acl.check_publish(Some(&ta), &cid(), Some(&alice()), "a/x"),
        AclDecision::Allow
    );
    assert_eq!(
        acl.check_publish(Some(&ta), &cid(), Some(&alice()), "b/x"),
        AclDecision::Deny
    );
    assert_eq!(
        acl.check_publish(Some(&tb), &cid(), Some(&alice()), "b/x"),
        AclDecision::Allow
    );
    assert_eq!(
        acl.check_publish(Some(&tb), &cid(), Some(&alice()), "a/x"),
        AclDecision::Deny
    );
}

#[test]
fn dollar_sys_subscribe_requires_explicit_grant() {
    let acl = JsonAclChecker::from_str(
        r##"{"users":{"alice":{"acl":{"subscribe":["#"]}}}}"##,
    )
    .unwrap();
    let d = acl
        .check_subscribe(None, &cid(), Some(&alice()), "$SYS/broker/version");
    assert_eq!(
        d,
        AclDecision::Deny,
        "wildcard `#` MUST NOT reach $-prefixed topics per spec §4.7.2"
    );

    let acl2 = JsonAclChecker::from_str(
        r##"{"users":{"alice":{"acl":{"subscribe":["$SYS/#"]}}}}"##,
    )
    .unwrap();
    let d2 = acl2
        .check_subscribe(None, &cid(), Some(&alice()), "$SYS/broker/version");
    assert_eq!(d2, AclDecision::Allow);
}

#[test]
fn patterns_that_are_no_texts_are_passed_over() {
    let acl = JsonAclChecker::from_str(
        r#"{"users":{"alice":{"acl":{"publish":[1, "a/b", null], "subscribe":"a/b"}}}}"#,
    )
    .unwrap();
    assert_eq!(
        acl.check_publish(None, &cid(), Some(&alice()), "a/b"),
        AclDecision::Allow
    );
    assert_eq!(
        acl.check_subscribe(None, &cid(), Some(&alice()), "a/b"),
        AclDecision::Deny
    );
    assert!(JsonAclChecker::from_str("[").is_err());
}

#[test]
fn any_pattern_suffices() {
    let patterns = vec!["a/+".to_string(), "b".to_string()];
    assert!(any_matches(&patterns, "b"));
    assert!(any_matches(&patterns, "a/x"));
    assert!(!any_matches(&patterns, "c"));
    assert!(!any_matches(&Vec::new(), "a"));
}
