use hotaru_mqtt::topic::{
    filter_matches, is_dollar_prefixed_first_segment, matches_topic, parse_publish_topic,
    parse_subscribe_filter, path_to_wire_filter, split_mqtt_topic, tokenize_mqtt_filter,
    validate_publish_topic, validate_subscribe_filter, PathPattern, PatternError, RawToken,
};
use hotaru_mqtt::{MqttError, Violation};

#[test]
fn subscribe_literal() {
    let p = parse_subscribe_filter("sensors/temp").unwrap();
    assert_eq!(
        p,
        vec![
            PathPattern::Literal("sensors".into()),
            PathPattern::Literal("temp".into())
        ]
    );
}

#[test]
fn subscribe_plus() {
    let p = parse_subscribe_filter("sensors/+/temp").unwrap();
    assert_eq!(
        p,
        vec![
            PathPattern::Literal("sensors".into()),
            PathPattern::Any,
            PathPattern::Literal("temp".into())
        ]
    );
}

#[test]
fn subscribe_hash() {
    let p = parse_subscribe_filter("sensors/#").unwrap();
    assert_eq!(
        p,
        vec![PathPattern::Literal("sensors".into()), PathPattern::AnyPath]
    );
}

#[test]
fn subscribe_hash_only() {
    let p = parse_subscribe_filter("#").unwrap();
    assert_eq!(p, vec![PathPattern::AnyPath]);
}

#[test]
fn subscribe_rejects_hash_not_terminal() {
    let e = parse_subscribe_filter("a/#/b").unwrap_err();
    assert!(matches!(
        e,
        MqttError::Protocol(Violation::HashWildcardNotTerminal)
    ));
}

#[test]
fn subscribe_rejects_mixed_wildcard() {
    let e = parse_subscribe_filter("a+b").unwrap_err();
    assert!(matches!(
        e,
        MqttError::Protocol(Violation::WildcardMixedWithLiteral)
    ));
}

#[test]
fn publish_rejects_wildcards() {
    let e = parse_publish_topic("a/+/b").unwrap_err();
    assert!(matches!(
        e,
        MqttError::Protocol(Violation::WildcardInPublishTopic)
    ));
}

#[test]
fn publish_accepts_dollar_sys() {
    let p = parse_publish_topic("$SYS/broker/clients").unwrap();
    assert_eq!(p.len(), 3);
}

#[test]
fn path_to_wire_round_trip() {
    let path = parse_subscribe_filter("sensors/+/temp").unwrap();
    assert_eq!(path_to_wire_filter(&path), "sensors/+/temp");

    let path = parse_subscribe_filter("a/#").unwrap();
    assert_eq!(path_to_wire_filter(&path), "a/#");
}

#[test]
fn validate_fast_path() {
    assert!(validate_subscribe_filter("a/+/b").is_ok());
    assert!(validate_subscribe_filter("a/#/b").is_err());
    assert!(validate_publish_topic("a/b/c").is_ok());
    assert!(validate_publish_topic("a/+").is_err());
}

fn outside_token(t: &RawToken) -> hotaru_core::url::RawToken {
    match t {
        RawToken::Slash => hotaru_core::url::RawToken::Slash,
        RawToken::AngleStart => hotaru_core::url::RawToken::AngleStart,
        RawToken::AngleClose => hotaru_core::url::RawToken::AngleClose,
        RawToken::Ident(s) => hotaru_core::url::RawToken::Ident(s.clone()),
        RawToken::Type(_) => hotaru_core::url::RawToken::Type(hotaru_core::url::TypeKind::Path),
        RawToken::Literal(s) => hotaru_core::url::RawToken::Literal(s.clone()),
    }
}

fn own_pattern(p: &hotaru_core::url::PathPattern) -> PathPattern {
    match p {
        hotaru_core::url::PathPattern::Literal(s) => PathPattern::Literal(s.clone()),
        hotaru_core::url::PathPattern::Regex(_) => PathPattern::Regex(String::new()),
        hotaru_core::url::PathPattern::Any => PathPattern::Any,
        hotaru_core::url::PathPattern::AnyPath => PathPattern::AnyPath,
    }
}

fn outside_patterns(filter: &str) -> Vec<hotaru_core::url::PathPattern> {
    let tokens = tokenize_mqtt_filter(filter).expect("tokenize");
    let tokens: Vec<hotaru_core::url::RawToken> = tokens.iter().map(outside_token).collect();
    let (pats, _names) = hotaru_core::url::tokens_to_patterns(&tokens).expect("patterns");
    pats
}

fn tokens_then_patterns(filter: &str) -> Vec<PathPattern> {
    outside_patterns(filter).iter().map(own_pattern).collect()
}

#[test]
fn tokenize_literal_parity_with_parse_subscribe_filter() {
    let viahook = tokens_then_patterns("sensors/temp");
    let legacy = parse_subscribe_filter("sensors/temp").unwrap();
    assert_eq!(viahook, legacy);
}

#[test]
fn tokenize_plus_parity() {
    let viahook = tokens_then_patterns("sensors/+/temp");
    let legacy = parse_subscribe_filter("sensors/+/temp").unwrap();
    assert_eq!(viahook, legacy);
    assert_eq!(viahook[1], PathPattern::Any);
}

#[test]
fn tokenize_hash_parity() {
    let viahook = tokens_then_patterns("sensors/#");
    let legacy = parse_subscribe_filter("sensors/#").unwrap();
    assert_eq!(viahook, legacy);
    assert_eq!(viahook[1], PathPattern::AnyPath);
}

#[test]
fn tokenize_hash_only() {
    let viahook = tokens_then_patterns("#");
    assert_eq!(viahook, vec![PathPattern::AnyPath]);
}

#[test]
fn tokenize_rejects_hash_not_terminal() {
    let err = tokenize_mqtt_filter("a/#/b").unwrap_err();
    assert!(matches!(
        err,
        PatternError::AnyPathMixedWithOtherContent { .. }
    ));
}

#[test]
fn tokenize_rejects_mixed_wildcard() {
    let err = tokenize_mqtt_filter("a+b").unwrap_err();
    assert!(matches!(err, PatternError::UnexpectedToken { .. }));
}

#[test]
fn tokenize_rejects_empty_filter() {
    let err = tokenize_mqtt_filter("").unwrap_err();
    assert!(matches!(err, PatternError::UnexpectedToken { .. }));
}

#[test]
fn tokenize_dollar_prefixed_topic_passes_through() {
    let pats = tokens_then_patterns("$SYS/broker/version");
    assert_eq!(
        pats,
        vec![
            PathPattern::Literal("$SYS".into()),
            PathPattern::Literal("broker".into()),
            PathPattern::Literal("version".into()),
        ]
    );
}

#[test]
fn split_mqtt_topic_basic() {
    assert_eq!(
        split_mqtt_topic("sensors/temp/1"),
        vec!["sensors", "temp", "1"]
    );
}

#[test]
fn split_mqtt_topic_empty_returns_empty_vec() {
    assert_eq!(split_mqtt_topic(""), Vec::<&str>::new());
}

#[test]
fn pattern_and_literal_sides_align() {
    let pats = outside_patterns("sensors/+/temp");
    let segs = split_mqtt_topic("sensors/abc/temp");
    assert_eq!(pats.len(), segs.len(), "arity mismatch");
    for (p, s) in pats.iter().zip(segs.iter()) {
        assert!(
            p.matches(s),
            "pattern {:?} did not match segment {:?}",
            p,
            s
        );
    }
}

#[test]
fn dollar_prefix_detection() {
    assert!(is_dollar_prefixed_first_segment("$SYS/broker/clients"));
    assert!(is_dollar_prefixed_first_segment("$share/group/topic"));
    assert!(is_dollar_prefixed_first_segment("$"));
    assert!(!is_dollar_prefixed_first_segment("sensors/$SYS/x"));
    assert!(!is_dollar_prefixed_first_segment("sensors/temp"));
    assert!(!is_dollar_prefixed_first_segment(""));
    assert!(!is_dollar_prefixed_first_segment("/$SYS"));
}

#[test]
fn each_topic_violation_has_an_input() {
    let long = "x".repeat(65536);
    assert!(matches!(
        parse_subscribe_filter(""),
        Err(MqttError::Protocol(Violation::EmptyTopic))
    ));
    assert!(matches!(
        parse_publish_topic(""),
        Err(MqttError::Protocol(Violation::EmptyTopic))
    ));
    assert!(matches!(
        parse_subscribe_filter(&long),
        Err(MqttError::Protocol(Violation::TopicTooLong))
    ));
    assert!(matches!(
        validate_publish_topic(&long),
        Err(MqttError::Protocol(Violation::TopicTooLong))
    ));
    assert!(validate_publish_topic(&long[..65535]).is_ok());
    assert!(matches!(
        validate_subscribe_filter("a/b#"),
        Err(MqttError::Protocol(Violation::WildcardMixedWithLiteral))
    ));
}

#[test]
fn levels_may_be_empty() {
    assert_eq!(split_mqtt_topic("/"), vec!["", ""]);
    assert_eq!(split_mqtt_topic("a//b"), vec!["a", "", "b"]);
    assert_eq!(parse_subscribe_filter("/+").unwrap().len(), 2);
    assert_eq!(path_to_wire_filter(&parse_subscribe_filter("/+/").unwrap()), "/+/");
    assert_eq!(
        tokenize_mqtt_filter("+").unwrap(),
        vec![
            RawToken::AngleStart,
            RawToken::Ident("_".to_string()),
            RawToken::AngleClose
        ]
    );
}

#[test]
fn error_positions_are_byte_offsets() {
    assert_eq!(
        tokenize_mqtt_filter("é/a+").unwrap_err(),
        PatternError::UnexpectedToken {
            at: 3,
            token: RawToken::Literal("a+".to_string())
        }
    );
    assert_eq!(
        tokenize_mqtt_filter("é/#/b").unwrap_err(),
        PatternError::AnyPathMixedWithOtherContent { at: 3 }
    );
}

#[test]
fn a_topic_matches_itself_and_what_covers_it() {
    for topic in ["a", "a/b", "/a", "a//b", "$SYS/x"] {
        assert!(matches_topic(topic, topic));
    }
    assert!(matches_topic("sport/#", "sport"));
    assert!(matches_topic("#", "a/b/c"));
    assert!(!matches_topic("#", "$SYS/x"));
    assert!(!matches_topic("+/x", "$SYS/x"));
    assert!(matches_topic("$SYS/+", "$SYS/x"));
    assert!(matches_topic("+", ""));
    assert!(!matches_topic("a/+", "a"));
}

#[test]
fn filter_matches_literal() {
    let segs: Vec<&str> = "a/b/c".split('/').collect();
    assert!(filter_matches("a/b/c", &segs));
    assert!(!filter_matches("a/b/d", &segs));
}

#[test]
fn filter_matches_plus() {
    let segs: Vec<&str> = "a/b/c".split('/').collect();
    assert!(filter_matches("a/+/c", &segs));
    assert!(filter_matches("+/+/+", &segs));
    assert!(!filter_matches("a/+/d", &segs));
    assert!(!filter_matches("a/+", &segs));
}

#[test]
fn filter_matches_hash() {
    let segs: Vec<&str> = "a/b/c".split('/').collect();
    assert!(filter_matches("a/#", &segs));
    assert!(filter_matches("#", &segs));
    assert!(filter_matches("a/b/#", &segs));
    assert!(!filter_matches("b/#", &segs));
}

#[test]
fn filter_matches_partial() {
    let segs: Vec<&str> = "a/b".split('/').collect();
    assert!(!filter_matches("a/b/c", &segs));
    assert!(filter_matches("a/b", &segs));
}

#[test]
fn filter_matches_dollar_guard() {
    let sys: Vec<&str> = "$SYS/broker/version".split('/').collect();
    assert!(!filter_matches("#", &sys));
    assert!(!filter_matches("+/broker/version", &sys));
    assert!(!filter_matches("+/#", &sys));
    assert!(filter_matches("$SYS/broker/version", &sys));
    assert!(filter_matches("$SYS/#", &sys));
    assert!(filter_matches("$SYS/+/version", &sys));
}
