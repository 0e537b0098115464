use base64::{engine::general_purpose, Engine as _};
use hmac::Hmac;
use hotaru_core::Value;
use hotaru_mqtt::auth::json::{count_distinct_rounds, decide, detect_modal_rounds};
use hotaru_mqtt::buffer::SecretBytes;
use hotaru_mqtt::{
    Authenticator, ConnackReturnCode, ConnectPacket, JsonAuthenticator, PasswordVerifier,
    Properties, ProtocolVersion, TenantId,
};
use pbkdf2::pbkdf2;
use sha2::Sha512;
use std::sync::Arc;

fn make_phc(password: &[u8], salt: &[u8], rounds: u32) -> String {
    let mut hash = vec![0u8; 32];
    pbkdf2::<Hmac<Sha512>>(password, salt, rounds, &mut hash).unwrap();
    format!(
        "$pbkdf2-sha512$rounds={}${}${}",
        rounds,
        general_purpose::STANDARD_NO_PAD.encode(salt),
        general_purpose::STANDARD_NO_PAD.encode(&hash),
    )
}

fn connect_with(username: Option<&str>, password: Option<&[u8]>) -> ConnectPacket {
    ConnectPacket {
        version: ProtocolVersion::V311,
        properties: Properties::default(),
        client_id: Arc::from("cid"),
        clean_session: true,
        keep_alive: 60,
        username: username.map(Arc::from),
        password: password.map(|p| SecretBytes::new(p.to_vec())),
        will: None,
    }
}

#[test]
fn single_tenant_round_trip() {
    let phc = make_phc(b"hunter2", b"s0", 1000);
    let json = format!(r#"{{"users":{{"alice":{{"password":"{}"}}}}}}"#, phc);
    let auth = JsonAuthenticator::from_str(&json).unwrap();
    let connect = connect_with(Some("alice"), Some(b"hunter2"));
    let result = auth.authenticate(None, &connect, None);
    assert!(result.accepted);
}

#[test]
fn wrong_password_rejected_with_bad_username_or_password_code() {
    let phc = make_phc(b"hunter2", b"s0", 1000);
    let json = format!(r#"{{"users":{{"alice":{{"password":"{}"}}}}}}"#, phc);
    let auth = JsonAuthenticator::from_str(&json).unwrap();
    let connect = connect_with(Some("alice"), Some(b"WRONG"));
    let result = auth.authenticate(None, &connect, None);
    assert!(!result.accepted);
    assert_eq!(result.return_code, ConnackReturnCode::BadUsernameOrPassword);
}

#[test]
fn unknown_user_rejected() {
    let auth = JsonAuthenticator::from_str(r#"{"users":{}}"#).unwrap();
    let connect = connect_with(Some("ghost"), Some(b"x"));
    let result = auth.authenticate(None, &connect, None);
    assert!(!result.accepted);
    assert_eq!(result.return_code, ConnackReturnCode::BadUsernameOrPassword);
}

#[test]
fn missing_username_rejected() {
    let auth = JsonAuthenticator::from_str(r#"{"users":{}}"#).unwrap();
    let connect = connect_with(None, Some(b"x"));
    let result = auth.authenticate(None, &connect, None);
    assert!(!result.accepted);
}
struct CountingVerifier {
    calls: std::sync::Mutex<Vec<String>>,
    accept_match: String,
}

impl CountingVerifier {
    fn new(accept_match: impl Into<String>) -> Self {
        Self {
            calls: std::sync::Mutex::new(Vec::new()),
            accept_match: accept_match.into(),
        }
    }
    fn calls(&self) -> Vec<String> {
        self.calls.lock().unwrap().clone()
    }
}

struct Shared(Arc<CountingVerifier>);

impl PasswordVerifier for Shared {
    fn verify(&self, hash: &str, password: &[u8]) -> bool {
        self.0.verify(hash, password)
    }
}

impl PasswordVerifier for CountingVerifier {
    fn verify(&self, hash: &str, _password: &[u8]) -> bool {
        self.calls.lock().unwrap().push(hash.to_string());
        hash == self.accept_match
    }
}

#[test]
fn verifier_runs_on_every_reject_path_for_uniform_timing() {
    let real_hash = "$pbkdf2-sha512$rounds=1$AA$BB";
    let json = format!(r#"{{"users":{{"alice":{{"password":"{real_hash}"}}}}}}"#);
    let counter = Arc::new(CountingVerifier::new(real_hash));
    let auth = JsonAuthenticator::from_str(&json)
        .unwrap()
        .with_verifier(Shared(counter.clone()));
    let r = auth
        .authenticate(None, &connect_with(Some("alice"), Some(b"pw")), None);
    assert!(r.accepted);
    let bad_verifier = Arc::new(CountingVerifier::new("never-matches"));
    let auth2 = JsonAuthenticator::from_str(&json)
        .unwrap()
        .with_verifier(Shared(bad_verifier.clone()));
    let r = auth2
        .authenticate(None, &connect_with(Some("alice"), Some(b"wrong")), None);
    assert!(!r.accepted);
    let r = auth2
        .authenticate(None, &connect_with(Some("ghost"), Some(b"pw")), None);
    assert!(!r.accepted);
    let r = auth2
        .authenticate(None, &connect_with(None, Some(b"pw")), None);
    assert!(!r.accepted);
    let r = auth2
        .authenticate(None, &connect_with(Some("alice"), None), None);
    assert!(!r.accepted);
    let bad_calls = bad_verifier.calls();
    assert_eq!(
        bad_calls.len(),
        4,
        "every reject path must invoke verify exactly once for F3, saw {bad_calls:?}"
    );
    let dummy_count = bad_calls
        .iter()
        .filter(|h| h.starts_with("$pbkdf2-sha512$rounds=10000$"))
        .count();
    assert_eq!(
        dummy_count, 2,
        "unknown-user + missing-username must verify against the dummy, \
         saw hashes: {bad_calls:?}"
    );
}

#[test]
fn multi_tenant_lookup_scoped_correctly() {
    let phc_a = make_phc(b"alpha-pw", b"sa", 1000);
    let phc_b = make_phc(b"beta-pw", b"sb", 1000);
    let json = format!(
        r#"{{
            "tenants": {{
                "ta": {{"users": {{"alice": {{"password": "{phc_a}"}}}}}},
                "tb": {{"users": {{"alice": {{"password": "{phc_b}"}}}}}}
            }}
        }}"#
    );
    let auth = JsonAuthenticator::from_str(&json).unwrap();
    let ta: TenantId = Arc::from("ta");
    let connect = connect_with(Some("alice"), Some(b"alpha-pw"));
    assert!(auth.authenticate(Some(&ta), &connect, None).accepted);
    let tb: TenantId = Arc::from("tb");
    assert!(!auth.authenticate(Some(&tb), &connect, None).accepted);
    let tc: TenantId = Arc::from("does-not-exist");
    assert!(!auth.authenticate(Some(&tc), &connect, None).accepted);
}
#[test]
fn detect_modal_rounds_picks_majority() {
    let phc1 = make_phc(b"pw1", b"s1", 5000);
    let phc2 = make_phc(b"pw2", b"s2", 5000);
    let phc3 = make_phc(b"pw3", b"s3", 5000);
    let phc4 = make_phc(b"pw4", b"s4", 12000);
    let json = format!(
        r#"{{"users": {{
            "a": {{"password": "{phc1}"}},
            "b": {{"password": "{phc2}"}},
            "c": {{"password": "{phc3}"}},
            "d": {{"password": "{phc4}"}}
        }}}}"#
    );
    let snapshot = Value::from_json(&json).unwrap();
    assert_eq!(detect_modal_rounds(&snapshot), Some(5000));
}

#[test]
fn detect_modal_rounds_handles_multi_tenant() {
    let phc_a = make_phc(b"pw", b"s", 7000);
    let phc_b = make_phc(b"pw", b"s", 7000);
    let json = format!(
        r#"{{"tenants": {{
            "ta": {{"users": {{"a": {{"password": "{phc_a}"}}}}}},
            "tb": {{"users": {{"b": {{"password": "{phc_b}"}}}}}}
        }}}}"#
    );
    let snapshot = Value::from_json(&json).unwrap();
    assert_eq!(detect_modal_rounds(&snapshot), Some(7000));
}

#[test]
fn detect_modal_rounds_empty_falls_back() {
    let snapshot = Value::from_json("{}").unwrap();
    assert_eq!(detect_modal_rounds(&snapshot), None);
}
#[test]
fn strict_from_str_accepts_uniform_rounds() {
    let phc_a = make_phc(b"pwa", b"sa", 7777);
    let phc_b = make_phc(b"pwb", b"sb", 7777);
    let json = format!(
        r#"{{"users": {{
            "alice": {{"password": "{phc_a}"}},
            "bob": {{"password": "{phc_b}"}}
        }}}}"#
    );
    let auth = JsonAuthenticator::from_str_strict(&json).expect("uniform rounds accepted");
    assert!(auth.dummy_hash.contains("rounds=7777"));
}
#[test]
fn strict_from_str_rejects_mixed_rounds() {
    let phc_a = make_phc(b"pwa", b"sa", 5000);
    let phc_b = make_phc(b"pwb", b"sb", 12000);
    let json = format!(
        r#"{{"users": {{
            "alice": {{"password": "{phc_a}"}},
            "bob": {{"password": "{phc_b}"}}
        }}}}"#
    );
    let err = match JsonAuthenticator::from_str_strict(&json) {
        Err(e) => e,
        Ok(_) => panic!("strict mode should reject"),
    };
    assert!(
        err.contains("distinct PBKDF2") && err.contains("rounds"),
        "expected strict-mode mixed-rounds error, got {err}"
    );
}
#[test]
fn strict_from_str_rejects_empty_snapshot() {
    let err = match JsonAuthenticator::from_str_strict("{}") {
        Err(e) => e,
        Ok(_) => panic!("strict mode should reject empty snapshot"),
    };
    assert!(err.contains("no PBKDF2 users"));
}
#[test]
fn from_str_rejects_mixed_rounds_fail_closed() {
    let phc_a = make_phc(b"pwa", b"sa", 5000);
    let phc_b = make_phc(b"pwb", b"sb", 12000);
    let json = format!(
        r#"{{"users": {{
            "alice": {{"password": "{phc_a}"}},
            "bob": {{"password": "{phc_b}"}}
        }}}}"#
    );
    let err = match JsonAuthenticator::from_str(&json) {
        Err(e) => e,
        Ok(_) => panic!("from_str must fail-closed on mixed rounds (F2)"),
    };
    assert!(
        err.contains("distinct PBKDF2") && err.contains("rounds"),
        "expected F2 fail-closed mixed-rounds error, got {err}"
    );
}
#[test]
fn from_str_accepts_empty_snapshot_under_f2() {
    let auth = JsonAuthenticator::from_str(r#"{"users":{}}"#)
        .expect("empty snapshot is operational, F2 only rejects mixed rounds");
    assert!(auth.dummy_hash.contains("rounds="));
}

#[test]
fn a_document_that_is_none_is_refused() {
    assert!(JsonAuthenticator::from_str("{").is_err());
    assert!(JsonAuthenticator::from_str_strict("{").is_err());
}

#[test]
fn the_dummy_is_a_hash_of_the_users_rounds() {
    let phc = make_phc(b"pw", b"s", 1234);
    let json = format!(r#"{{"users": {{"a": {{"password": "{phc}"}}}}}}"#);
    let auth = JsonAuthenticator::from_str(&json).unwrap();
    assert_eq!(
        auth.dummy_hash,
        make_phc(b"hotaru-mqtt-dummy-pw", b"hotaru-mqtt-dummy-salt-v1", 1234)
    );
    let auth = auth.with_dummy_rounds(99);
    assert_eq!(
        auth.dummy_hash,
        make_phc(b"hotaru-mqtt-dummy-pw", b"hotaru-mqtt-dummy-salt-v1", 99)
    );
}

#[test]
fn rounds_are_counted_across_tenants() {
    let a = make_phc(b"pw", b"s", 10);
    let b = make_phc(b"pw", b"s", 20);
    let json = format!(
        r#"{{"users": {{"x": {{"password": "{a}"}}, "y": {{"password": "plain"}}, "z": {{}}}},
            "tenants": {{"t": {{"users": {{"x": {{"password": "{b}"}}, "w": {{"password": "{b}"}}}}}}, "u": {{}}}}}}"#
    );
    let snapshot = Value::from_json(&json).unwrap();
    assert_eq!(count_distinct_rounds(&snapshot), 2);
    assert_eq!(detect_modal_rounds(&snapshot), Some(20));
    match JsonAuthenticator::with_snapshot(snapshot) {
        Err(e) => assert_eq!(
            e,
            "JsonAuthenticator: snapshot has 2 distinct PBKDF2 `rounds` values; refusing to load \
             (SAFETY_PROOF v5 \u{a7}7 F2). \
             Re-hash all entries to a single `rounds` setting."
        ),
        Ok(_) => panic!("expected a refusal"),
    }
}

#[test]
fn only_three_yeses_accept() {
    for bits in 0..8u8 {
        let r = decide(bits & 1 != 0, bits & 2 != 0, bits & 4 != 0);
        assert_eq!(r.accepted, bits == 7);
        if bits != 7 {
            assert_eq!(r.return_code, ConnackReturnCode::BadUsernameOrPassword);
        }
    }
}
