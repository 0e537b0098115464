use base64::{engine::general_purpose, Engine as _};
use hmac::Hmac;
use hotaru_mqtt::auth::password::{key_matches, pbkdf2_from_parts};
use hotaru_mqtt::{verify_password, DefaultPasswordVerifier, PasswordHash, PasswordVerifier};
use pbkdf2::pbkdf2;
use sha2::Sha512;

fn make_pbkdf2_phc(password: &[u8], salt: &[u8], rounds: u32) -> String {
    let mut hash = vec![0u8; 32];
    pbkdf2::<Hmac<Sha512>>(password, salt, rounds, &mut hash).unwrap();
    format!(
        "$pbkdf2-sha512$rounds={}${}${}",
        rounds,
        general_purpose::STANDARD_NO_PAD.encode(salt),
        general_purpose::STANDARD_NO_PAD.encode(&hash),
    )
}

#[test]
fn pbkdf2_round_trip_verifies() {
    let phc = make_pbkdf2_phc(b"hunter2", b"saltsalt", 1000);
    assert!(verify_password(&phc, b"hunter2"));
}

#[test]
fn pbkdf2_wrong_password_rejected() {
    let phc = make_pbkdf2_phc(b"hunter2", b"saltsalt", 1000);
    assert!(!verify_password(&phc, b"hunter3"));
}

#[test]
fn pbkdf2_tampered_salt_rejected() {
    let phc = make_pbkdf2_phc(b"hunter2", b"saltsalt", 1000);
    let parts: Vec<&str> = phc.splitn(5, '$').collect();
    let bad_salt = general_purpose::STANDARD_NO_PAD.encode(b"different");
    let tampered = format!(
        "${}${}${}${}",
        parts[1], parts[2], bad_salt, parts[4],
    );
    assert!(!verify_password(&tampered, b"hunter2"));
}

#[test]
fn malformed_phc_strings_rejected() {
    for bad in [
        "",
        "$",
        "$pbkdf2-sha512$rounds=1000",
        "$pbkdf2-sha512$rounds=0$AAAA$BBBB",
        "$pbkdf2-sha512$rounds=notanumber$AAAA$BBBB",
        "$pbkdf2-sha512$rounds=1000$$BBBB",
        "$pbkdf2-sha512$rounds=1000$AAAA$",
        "$unknown-scheme$rounds=1$AAAA$BBBB",
        "plain-text-password",
    ] {
        assert!(
            !verify_password(bad, b"hunter2"),
            "should not verify: {bad:?}"
        );
    }
}

#[test]
fn parse_extracts_canonical_form() {
    let phc = make_pbkdf2_phc(b"x", b"abcd", 42);
    let parsed = PasswordHash::parse(&phc).expect("parse");
    match parsed {
        PasswordHash::Pbkdf2Sha512 { rounds, salt, hash } => {
            assert_eq!(rounds, 42);
            assert_eq!(salt, b"abcd");
            assert_eq!(hash.len(), 32);
        }
        PasswordHash::Bcrypt(_) => panic!("expected Pbkdf2Sha512"),
    }
}
#[test]
fn debug_redacts_salt_and_hash_bytes() {
    let phc = PasswordHash::Pbkdf2Sha512 {
        rounds: 10_000,
        salt: b"super-secret-salt-bytes".to_vec(),
        hash: b"\xde\xad\xbe\xef\xca\xfeUNIQUE_HASH_TOKEN".to_vec(),
    };
    let rendered = phc.debug_text();
    assert!(
        !rendered.contains("super-secret-salt-bytes"),
        "salt bytes leaked into Debug: {rendered}"
    );
    assert!(
        !rendered.contains("UNIQUE_HASH_TOKEN"),
        "hash bytes leaked into Debug: {rendered}"
    );
    assert!(rendered.contains("rounds: 10000"));
    assert!(rendered.contains("<redacted:"));
}

#[test]
fn known_pbkdf2_sha512_vector_verifies() {
    // PBKDF2-HMAC-SHA512, "password", "salt", 1 round.
    let key: [u8; 64] = [
        0x86, 0x7f, 0x70, 0xcf, 0x1a, 0xde, 0x02, 0xcf, 0xf3, 0x75, 0x25, 0x99, 0xa3, 0xa5, 0x3d,
        0xc4, 0xaf, 0x34, 0xc7, 0xa6, 0x69, 0x81, 0x5a, 0xe5, 0xd5, 0x13, 0x55, 0x4e, 0x1c, 0x8c,
        0xf2, 0x52, 0xc0, 0x2d, 0x47, 0x0a, 0x28, 0x5a, 0x05, 0x01, 0xba, 0xd9, 0x99, 0xbf, 0xe9,
        0x43, 0xc0, 0x8f, 0x05, 0x02, 0x35, 0xd7, 0xd6, 0x8b, 0x1d, 0xa5, 0x5e, 0x63, 0xf7, 0x3b,
        0x60, 0xa5, 0x7f, 0xce,
    ];
    let phc = format!(
        "$pbkdf2-sha512$rounds=1${}${}",
        general_purpose::STANDARD_NO_PAD.encode(b"salt"),
        general_purpose::STANDARD_NO_PAD.encode(key),
    );
    assert!(verify_password(&phc, b"password"));
    assert!(!verify_password(&phc, b"passwore"));
    assert!(DefaultPasswordVerifier.verify(&phc, b"password"));
}

#[test]
fn every_base64_alphabet_is_read() {
    let salt = [0xFBu8, 0xEF, 0xBE, 0xFF];
    let hash = [0xFFu8; 32];
    for (s, h) in [
        (
            general_purpose::STANDARD_NO_PAD.encode(salt),
            general_purpose::STANDARD_NO_PAD.encode(hash),
        ),
        (general_purpose::STANDARD.encode(salt), general_purpose::STANDARD.encode(hash)),
        (
            general_purpose::URL_SAFE_NO_PAD.encode(salt),
            general_purpose::URL_SAFE_NO_PAD.encode(hash),
        ),
        (general_purpose::URL_SAFE.encode(salt), general_purpose::URL_SAFE.encode(hash)),
    ] {
        match PasswordHash::parse(&format!("$pbkdf2-sha512$rounds=7${}${}", s, h)) {
            Some(PasswordHash::Pbkdf2Sha512 { rounds, salt: s, hash: h }) => {
                assert_eq!(rounds, 7);
                assert_eq!(s, salt);
                assert_eq!(h, hash);
            }
            _ => panic!("expected Pbkdf2Sha512"),
        }
    }
}

#[test]
fn rounds_are_an_unsigned_number_above_zero() {
    for (text, expected) in [
        ("1", Some(1)),
        ("+5", Some(5)),
        ("007", Some(7)),
        ("4294967295", Some(4294967295)),
        ("4294967296", None),
        ("0", None),
        ("", None),
        ("-1", None),
        ("1 ", None),
    ] {
        let parsed = pbkdf2_from_parts(&format!("rounds={text}"), Some(vec![1]), Some(vec![2]));
        match parsed {
            Some(PasswordHash::Pbkdf2Sha512 { rounds, .. }) => assert_eq!(Some(rounds), expected),
            _ => assert_eq!(None, expected),
        }
    }
    assert!(pbkdf2_from_parts("rounds=1", None, Some(vec![2])).is_none());
    assert!(pbkdf2_from_parts("rounds=1", Some(vec![1]), None).is_none());
    assert!(pbkdf2_from_parts("1", Some(vec![1]), Some(vec![2])).is_none());
    assert!(pbkdf2_from_parts("rounds=1", Some(vec![]), Some(vec![2])).is_none());
}

#[test]
fn bcrypt_hashes_verify() {
    let hash = bcrypt::hash("hunter2", 4).unwrap();
    assert!(matches!(PasswordHash::parse(&hash), Some(PasswordHash::Bcrypt(_))));
    assert!(verify_password(&hash, b"hunter2"));
    assert!(!verify_password(&hash, b"hunter3"));
    assert!(!verify_password("$2b$broken", b"hunter2"));
    assert_eq!(
        PasswordHash::parse(&hash).unwrap().debug_text(),
        "Bcrypt { phc: \"<redacted>\" }"
    );
}

#[test]
fn keys_match_byte_for_byte() {
    assert!(key_matches(&[1, 2, 3], &[1, 2, 3]));
    assert!(!key_matches(&[1, 2, 3], &[1, 2, 4]));
    assert!(!key_matches(&[1, 2, 3], &[1, 2]));
    assert!(key_matches(&[], &[]));
}
