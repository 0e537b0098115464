//! Password hashes.
//!
//! A hash is a text `$pbkdf2-sha512$rounds=N$<salt>$<hash>`, with salt and hash in
//! base64, or a bcrypt text.
use crate::buffer;
use crate::buffer::{secret_from_vec, secret_slice, SecretBytes};
use crate::text;
use crate::text::{decimal_text, split_once_ascii, str_eq};
use base64::engine::general_purpose;
use base64::Engine;
use hmac::Hmac;
use sha2::Sha512;
use subtle::ConstantTimeEq;
use vstd::prelude::*;
use vstd::string::*;

verus! {

/// Checks a password against a stored hash.
pub trait PasswordVerifier {
    fn verify(&self, hash: &str, password: &[u8]) -> bool;
}

/// A parsed hash.
#[derive(Clone)]
pub enum PasswordHash {
    Pbkdf2Sha512 { rounds: u32, salt: Vec<u8>, hash: Vec<u8> },
    /// The whole text, for the `bcrypt` crate.
    Bcrypt(String),
}

#[verifier::ext_equal]
pub enum HashModel {
    Pbkdf2Sha512 { rounds: u32, salt: Seq<u8>, hash: Seq<u8> },
    Bcrypt(Seq<char>),
}

impl View for PasswordHash {
    type V = HashModel;

    open spec fn view(&self) -> HashModel {
        match *self {
            PasswordHash::Pbkdf2Sha512 { rounds, salt, hash } => HashModel::Pbkdf2Sha512 {
                rounds,
                salt: salt@,
                hash: hash@,
            },
            PasswordHash::Bcrypt(s) => HashModel::Bcrypt(s@),
        }
    }
}

pub open spec fn opt_hash(h: Option<PasswordHash>) -> Option<HashModel> {
    match h {
        Some(h) => Some(h@),
        None => None,
    }
}

// ----------------------------------------------------------------------------
// base64
// ----------------------------------------------------------------------------

/// What a text stands for in the standard alphabet without padding.
pub uninterp spec fn standard_no_pad(s: Seq<char>) -> Option<Seq<u8>>;

/// What a text stands for in the standard alphabet with padding.
pub uninterp spec fn standard(s: Seq<char>) -> Option<Seq<u8>>;

/// What a text stands for in the alphabet for URLs without padding.
pub uninterp spec fn url_safe_no_pad(s: Seq<char>) -> Option<Seq<u8>>;

/// What a text stands for in the alphabet for URLs with padding.
pub uninterp spec fn url_safe(s: Seq<char>) -> Option<Seq<u8>>;

/// The text of bytes in the standard alphabet without padding.
pub uninterp spec fn standard_text(b: Seq<u8>) -> Seq<char>;

/// The bytes of an optional vector.
pub open spec fn opt_vec(o: Option<Vec<u8>>) -> Option<Seq<u8>> {
    match o {
        Some(v) => Some(v@),
        None => None,
    }
}

/// `base64::Engine::decode` with `general_purpose::STANDARD_NO_PAD`: the bytes, or
/// nothing where the text is not valid.
#[verifier::external_body]
fn decode_standard_no_pad(s: &str) -> (r: Option<Vec<u8>>)
    ensures
        opt_vec(r) == standard_no_pad(s@),
{
    general_purpose::STANDARD_NO_PAD.decode(s).ok()
}

/// `base64::Engine::decode` with `general_purpose::STANDARD`: the bytes, or nothing
/// where the text is not valid.
#[verifier::external_body]
fn decode_standard(s: &str) -> (r: Option<Vec<u8>>)
    ensures
        opt_vec(r) == standard(s@),
{
    general_purpose::STANDARD.decode(s).ok()
}

/// `base64::Engine::decode` with `general_purpose::URL_SAFE_NO_PAD`: the bytes, or
/// nothing where the text is not valid.
#[verifier::external_body]
fn decode_url_safe_no_pad(s: &str) -> (r: Option<Vec<u8>>)
    ensures
        opt_vec(r) == url_safe_no_pad(s@),
{
    general_purpose::URL_SAFE_NO_PAD.decode(s).ok()
}

/// `base64::Engine::decode` with `general_purpose::URL_SAFE`: the bytes, or nothing
/// where the text is not valid.
#[verifier::external_body]
fn decode_url_safe(s: &str) -> (r: Option<Vec<u8>>)
    ensures
        opt_vec(r) == url_safe(s@),
{
    general_purpose::URL_SAFE.decode(s).ok()
}

/// `base64::Engine::encode` with `general_purpose::STANDARD_NO_PAD`: a text of
/// letters, digits, `+` and `/`, which stands for the bytes.
#[verifier::external_body]
pub(crate) fn encode_standard_no_pad(b: &[u8]) -> (r: String)
    requires
        b@.len() <= 0x1000_0000,
    ensures
        r@ == standard_text(b@),
        standard_no_pad(r@) == Some(b@),
        !r@.contains('$'),
{
    general_purpose::STANDARD_NO_PAD.encode(b)
}

/// What a text stands for in any of the four forms, the standard alphabet first and
/// without padding first.
pub open spec fn decoded(s: Seq<char>) -> Option<Seq<u8>> {
    if standard_no_pad(s) is Some {
        standard_no_pad(s)
    } else if standard(s) is Some {
        standard(s)
    } else if url_safe_no_pad(s) is Some {
        url_safe_no_pad(s)
    } else {
        url_safe(s)
    }
}

fn decode_b64_any(s: &str) -> (r: Option<Vec<u8>>)
    ensures
        opt_vec(r) == decoded(s@),
{
    match decode_standard_no_pad(s) {
        Some(v) => {
            return Some(v);
        },
        None => {},
    }
    match decode_standard(s) {
        Some(v) => {
            return Some(v);
        },
        None => {},
    }
    match decode_url_safe_no_pad(s) {
        Some(v) => {
            return Some(v);
        },
        None => {},
    }
    decode_url_safe(s)
}

// ----------------------------------------------------------------------------
// Numbers
// ----------------------------------------------------------------------------

pub open spec fn is_digit(c: char) -> bool {
    '0' <= c <= '9'
}

/// The number that decimal digits stand for.
pub open spec fn number(s: Seq<char>) -> nat
    decreases s.len(),
{
    if s.len() == 0 {
        0
    } else {
        number(s.drop_last()) * 10 + (s.last() as nat - '0' as nat) as nat
    }
}

/// The number that a text stands for: an optional `+` and then digits, not more
/// than fits.
pub open spec fn number_u32(s: Seq<char>) -> Option<u32> {
    let digits = unsigned(s);
    if digits.len() > 0 && all_digits(digits) && number(digits) <= u32::MAX {
        Some(number(digits) as u32)
    } else {
        None
    }
}

/// A text without the `+` that it may start with.
pub open spec fn unsigned(s: Seq<char>) -> Seq<char> {
    if s.len() > 0 && s[0] == '+' {
        s.drop_first()
    } else {
        s
    }
}

pub open spec fn all_digits(s: Seq<char>) -> bool {
    forall|i: int| 0 <= i < s.len() ==> is_digit(#[trigger] s[i])
}

/// A longer run of digits does not stand for less.
proof fn lemma_number_grows(s: Seq<char>, n: int)
    requires
        0 <= n <= s.len(),
        all_digits(s),
    ensures
        number(s.take(n)) <= number(s),
    decreases s.len() - n,
{
    if n < s.len() {
        lemma_number_grows(s, n + 1);
        assert(s.take(n + 1).drop_last() =~= s.take(n));
        assert(number(s.take(n)) * 10 >= number(s.take(n)));
    } else {
        assert(s.take(n) =~= s);
    }
}

/// Digits are the number that they were made from.
pub(crate) proof fn lemma_number_of_decimal(n: nat)
    ensures
        text::decimal(n).len() > 0,
        all_digits(text::decimal(n)),
        number(text::decimal(n)) == n,
    decreases n,
{
    let s = text::decimal(n);
    if n < 10 {
        assert(s.drop_last() =~= Seq::<char>::empty());
        assert(number(s.drop_last()) == 0);
    } else {
        lemma_number_of_decimal(n / 10);
        let front = text::decimal(n / 10);
        assert(s.drop_last() =~= front);
        assert forall|i: int| 0 <= i < s.len() implies is_digit(#[trigger] s[i]) by {
            if i < front.len() {
                assert(s[i] == front[i]);
            }
        }
    }
}

/// Reads a number.
fn parse_u32(s: &str) -> (r: Option<u32>)
    ensures
        r == number_u32(s@),
{
    let n: usize = s.unicode_len();
    let ghost all = s@;
    let start: usize = if n > 0 && s.get_char(0) == '+' {
        1
    } else {
        0
    };
    let ghost digits = unsigned(all);
    if start == n {
        return None;
    }
    let mut value: u32 = 0;
    let mut i: usize = start;
    assert(number(digits.take(0)) == 0);
    while i < n
        invariant
            n == all.len(),
            all == s@,
            start <= 1,
            start <= i <= n,
            start < n,
            digits == unsigned(all),
            start == (if all.len() > 0 && all[0] == '+' {
                1int
            } else {
                0
            }),
            forall|j: int| 0 <= j < i - start ==> is_digit(#[trigger] digits[j]),
            value == number(digits.take(i - start)),
        decreases n - i,
    {
        let c: char = s.get_char(i);
        let ghost k = i - start;
        assert(digits[k] == c);
        if !('0' <= c && c <= '9') {
            assert(!all_digits(digits)) by {
                assert(!is_digit(digits[k]));
            }
            return None;
        }
        let d: u32 = c as u32 - '0' as u32;
        proof {
            assert(digits.take(k + 1).drop_last() =~= digits.take(k));
            assert(digits.take(k + 1).last() == c);
            assert(number(digits.take(k + 1)) == value * 10 + d);
        }
        if value > (u32::MAX - d) / 10 {
            proof {
                assert(value * 10 + d > u32::MAX);
                if all_digits(digits) {
                    lemma_number_grows(digits, k + 1);
                }
            }
            return None;
        }
        value = value * 10 + d;
        i += 1;
    }
    assert(digits.take(n - start) =~= digits);
    Some(value)
}

// ----------------------------------------------------------------------------
// Parsing
// ----------------------------------------------------------------------------

/// A text before and behind the first occurrence of a character.
pub open spec fn cut(s: Seq<char>, c: char) -> Option<(Seq<char>, Seq<char>)> {
    if s.contains(c) {
        let i = text::first_index(s, c);
        Some((s.take(i), s.skip(i + 1)))
    } else {
        None
    }
}

/// What comes behind a prefix.
pub open spec fn behind(s: Seq<char>, prefix: Seq<char>) -> Option<Seq<char>> {
    if prefix.is_prefix_of(s) {
        Some(s.skip(prefix.len() as int))
    } else {
        None
    }
}

/// A hash from the text of its rounds and its decoded parts: the rounds are not 0,
/// and neither part is empty.
pub open spec fn pbkdf2_model(rounds: Seq<char>, salt: Option<Seq<u8>>, hash: Option<Seq<u8>>) -> Option<
    HashModel,
> {
    match (behind(rounds, "rounds="@), salt, hash) {
        (Some(n), Some(salt), Some(hash)) => match number_u32(n) {
            Some(rounds) => if rounds == 0 || salt.len() == 0 || hash.len() == 0 {
                None
            } else {
                Some(HashModel::Pbkdf2Sha512 { rounds, salt, hash })
            },
            None => None,
        },
        _ => None,
    }
}

/// The three parts of the body of a PBKDF2 hash.
pub open spec fn three_parts(body: Seq<char>) -> Option<(Seq<char>, Seq<char>, Seq<char>)> {
    match cut(body, '$') {
        Some((rounds, more)) => match cut(more, '$') {
            Some((salt, hash)) => Some((rounds, salt, hash)),
            None => None,
        },
        None => None,
    }
}

/// What a text stands for as a hash.
pub open spec fn parsed(s: Seq<char>) -> Option<HashModel> {
    match cut(s, '$') {
        Some((nothing, rest)) => if nothing.len() > 0 {
            None
        } else {
            match cut(rest, '$') {
                Some((scheme, body)) => if scheme == "pbkdf2-sha512"@ {
                    match three_parts(body) {
                        Some((rounds, salt, hash)) => pbkdf2_model(
                            rounds,
                            decoded(salt),
                            decoded(hash),
                        ),
                        None => None,
                    }
                } else if scheme == "2b"@ || scheme == "2y"@ || scheme == "2a"@ {
                    Some(HashModel::Bcrypt(s))
                } else {
                    None
                },
                None => None,
            }
        },
        None => None,
    }
}

fn cut_at_dollar<'a>(s: &'a str) -> (r: Option<(&'a str, &'a str)>)
    ensures
        match r {
            Some((a, b)) => cut(s@, '$') == Some((a@, b@)),
            None => cut(s@, '$') is None,
        },
{
    let r = split_once_ascii(s, 0x24);
    proof {
        text::lemma_first_index(s@, '$');
        if let Some((a, b)) = r {
            let i = text::first_index(s@, '$');
            assert(a@ =~= s@.take(i));
            assert(b@ =~= s@.skip(i + 1));
        }
    }
    r
}

fn rounds_text<'a>(s: &'a str) -> (r: Option<&'a str>)
    ensures
        match r {
            Some(n) => behind(s@, "rounds="@) == Some(n@),
            None => behind(s@, "rounds="@) is None,
        },
{
    proof {
        reveal_strlit("rounds=");
        reveal_strlit("rounds");
        assert("rounds="@ =~= "rounds"@.push('='));
        assert(!"rounds"@.contains('=')) by {
            assert forall|i: int| 0 <= i < 6 implies "rounds"@[i] != '=' by {}
        }
    }
    match split_once_ascii(s, 0x3D) {
        Some((name, n)) => {
            proof {
                text::lemma_first_index(s@, '=');
            }
            if str_eq(name, "rounds") {
                assert("rounds="@.is_prefix_of(s@));
                assert(n@ =~= s@.skip(7));
                Some(n)
            } else {
                proof {
                    if "rounds="@.is_prefix_of(s@) {
                        assert(s@[6] == "rounds="@[6]);
                        assert forall|i: int| 0 <= i < 6 implies s@[i] != '=' by {
                            assert(s@[i] == "rounds="@[i]);
                        }
                        text::lemma_first_index_unique(s@, '=', 6);
                        assert(name@ =~= "rounds"@);
                    }
                }
                None
            }
        },
        None => {
            proof {
                if "rounds="@.is_prefix_of(s@) {
                    assert(s@[6] == "rounds="@[6]);
                    assert(s@.contains('='));
                }
            }
            None
        },
    }
}

/// A hash from the text of its rounds and its decoded parts.
pub fn pbkdf2_from_parts(rounds: &str, salt: Option<Vec<u8>>, hash: Option<Vec<u8>>) -> (r: Option<
    PasswordHash,
>)
    ensures
        opt_hash(r) == pbkdf2_model(rounds@, opt_vec(salt), opt_vec(hash)),
{
    let n: &str = match rounds_text(rounds) {
        Some(n) => n,
        None => {
            return None;
        },
    };
    let rounds: u32 = match parse_u32(n) {
        Some(v) => v,
        None => {
            return None;
        },
    };
    if rounds == 0 {
        return None;
    }
    match (salt, hash) {
        (Some(salt), Some(hash)) => {
            if salt.len() == 0 || hash.len() == 0 {
                None
            } else {
                Some(PasswordHash::Pbkdf2Sha512 { rounds, salt, hash })
            }
        },
        _ => None,
    }
}

impl PasswordHash {
    /// Reads a hash. A text that is not one must be treated as one that no password
    /// matches.
    pub fn parse(s: &str) -> (r: Option<PasswordHash>)
        ensures
            opt_hash(r) == parsed(s@),
    {
        let rest: &str = match cut_at_dollar(s) {
            Some((nothing, rest)) => {
                if !nothing.is_empty() {
                    return None;
                }
                rest
            },
            None => {
                return None;
            },
        };
        let (scheme, body): (&str, &str) = match cut_at_dollar(rest) {
            Some(x) => x,
            None => {
                return None;
            },
        };
        if str_eq(scheme, "pbkdf2-sha512") {
            parse_pbkdf2_sha512(body)
        } else if str_eq(scheme, "2b") || str_eq(scheme, "2y") || str_eq(scheme, "2a") {
            Some(PasswordHash::Bcrypt(s.to_owned()))
        } else {
            None
        }
    }

    /// A text for logs: how long salt and hash are, and not what they are.
    pub fn debug_text(&self) -> (r: String)
        ensures
            r@ == redacted(self@),
    {
        match self {
            PasswordHash::Pbkdf2Sha512 { rounds, salt, hash } => {
                let mut s: String = "Pbkdf2Sha512 { rounds: ".to_owned();
                let rounds_digits: String = decimal_text(*rounds as u64);
                s.append(rounds_digits.as_str());
                s.append(", salt: <");
                let salt_digits: String = decimal_text(salt.len() as u64);
                s.append(salt_digits.as_str());
                s.append(" bytes>, hash: <redacted: ");
                let hash_digits: String = decimal_text(hash.len() as u64);
                s.append(hash_digits.as_str());
                s.append(" bytes> }");
                s
            },
            PasswordHash::Bcrypt(_) => "Bcrypt { phc: \"<redacted>\" }".to_owned(),
        }
    }
}

/// What a log shows of a hash.
pub open spec fn redacted(h: HashModel) -> Seq<char> {
    match h {
        HashModel::Pbkdf2Sha512 { rounds, salt, hash } => "Pbkdf2Sha512 { rounds: "@
            + text::decimal(rounds as nat) + ", salt: <"@ + text::decimal(salt.len())
            + " bytes>, hash: <redacted: "@ + text::decimal(hash.len()) + " bytes> }"@,
        HashModel::Bcrypt(_) => "Bcrypt { phc: \"<redacted>\" }"@,
    }
}

/// What a log shows depends on the lengths of salt and hash alone, and not at all
/// on a bcrypt text.
pub proof fn law_redacted(a: HashModel, b: HashModel)
    requires
        match (a, b) {
            (
                HashModel::Pbkdf2Sha512 { rounds: r, salt: s, hash: h },
                HashModel::Pbkdf2Sha512 { rounds: q, salt: t, hash: g },
            ) => r == q && s.len() == t.len() && h.len() == g.len(),
            (HashModel::Bcrypt(_), HashModel::Bcrypt(_)) => true,
            _ => false,
        },
    ensures
        redacted(a) == redacted(b),
{
}

fn parse_pbkdf2_sha512(body: &str) -> (r: Option<PasswordHash>)
    ensures
        opt_hash(r) == (match three_parts(body@) {
            Some((rounds, salt, hash)) => pbkdf2_model(rounds, decoded(salt), decoded(hash)),
            None => None,
        }),
{
    match cut_at_dollar(body) {
        Some((rounds, more)) => match cut_at_dollar(more) {
            Some((salt, hash)) => pbkdf2_from_parts(
                rounds,
                decode_b64_any(salt),
                decode_b64_any(hash),
            ),
            None => None,
        },
        None => None,
    }
}

// ----------------------------------------------------------------------------
// Verifying
// ----------------------------------------------------------------------------

/// The longest key that can be derived.
pub const MAX_KEY_LEN: u64 = 274_877_906_880;

/// The key of this length that PBKDF2 with HMAC-SHA-512 derives.
pub uninterp spec fn derived_key(password: Seq<u8>, salt: Seq<u8>, rounds: u32, len: nat) -> Seq<u8>;

/// Whether bcrypt says that a password matches a text; nothing where the text is
/// not one of bcrypt's.
pub uninterp spec fn bcrypt_says(password: Seq<u8>, hash: Seq<char>) -> Option<bool>;

/// `pbkdf2::pbkdf2` with `hmac::Hmac<sha2::Sha512>`: a key of the length that is
/// asked for. HMAC takes a key of any length, so there always is one.
#[verifier::external_body]
pub(crate) fn derive_key(
    password: &[u8],
    salt: &[u8],
    rounds: u32,
    len: usize,
) -> (r: Option<SecretBytes>)
    requires
        len <= MAX_KEY_LEN,
    ensures
        buffer::opt_secret(r) == Some(derived_key(password@, salt@, rounds, len as nat)),
        r matches Some(k) ==> buffer::secret_of(k).len() == len,
{
    let mut key = vec![0u8; len];
    let r = pbkdf2::pbkdf2::<Hmac<Sha512>>(password, salt, rounds, &mut key);
    r.ok().map(|_| secret_from_vec(key))
}

/// `subtle::ConstantTimeEq::ct_eq` on byte slices: whether they are the same, in a
/// time that depends on their lengths alone.
#[verifier::external_body]
fn constant_time_eq(a: &[u8], b: &[u8]) -> (r: bool)
    ensures
        r == (a@ == b@),
{
    a.ct_eq(b).into()
}

/// `bcrypt::verify`: whether the password matches, or nothing where the text is not
/// a hash.
#[verifier::external_body]
fn bcrypt_verify(password: &[u8], hash: &str) -> (r: Option<bool>)
    ensures
        r == bcrypt_says(password@, hash@),
{
    bcrypt::verify(password, hash).ok()
}

/// Whether a password matches a parsed hash.
pub open spec fn hash_accepts(h: HashModel, password: Seq<u8>) -> bool {
    match h {
        HashModel::Pbkdf2Sha512 { rounds, salt, hash } => hash.len() <= MAX_KEY_LEN && derived_key(
            password,
            salt,
            rounds,
            hash.len(),
        ) == hash,
        HashModel::Bcrypt(s) => bcrypt_says(password, s) == Some(true),
    }
}

/// Whether a password matches a text: never one that is not a hash.
pub open spec fn accepts(hash: Seq<char>, password: Seq<u8>) -> bool {
    match parsed(hash) {
        Some(h) => hash_accepts(h, password),
        None => false,
    }
}

/// Whether a derived key is the one that is expected.
pub fn key_matches(computed: &[u8], expected: &[u8]) -> (r: bool)
    ensures
        r == (computed@ == expected@),
{
    constant_time_eq(computed, expected)
}

fn verify_pbkdf2_sha512(password: &[u8], salt: &[u8], rounds: u32, expected: &[u8]) -> (r: bool)
    ensures
        r == (expected@.len() <= MAX_KEY_LEN && derived_key(
            password@,
            salt@,
            rounds,
            expected@.len(),
        ) == expected@),
{
    if expected.len() as u64 > MAX_KEY_LEN {
        return false;
    }
    match derive_key(password, salt, rounds, expected.len()) {
        Some(key) => key_matches(secret_slice(&key), expected),
        None => false,
    }
}

/// Checks a password against a stored hash.
pub fn verify_password(hash: &str, password: &[u8]) -> (r: bool)
    ensures
        r == accepts(hash@, password@),
{
    match PasswordHash::parse(hash) {
        None => false,
        Some(PasswordHash::Pbkdf2Sha512 { rounds, salt, hash }) => verify_pbkdf2_sha512(
            password,
            salt.as_slice(),
            rounds,
            hash.as_slice(),
        ),
        Some(PasswordHash::Bcrypt(phc)) => match bcrypt_verify(password, phc.as_str()) {
            Some(ok) => ok,
            None => false,
        },
    }
}

/// Knows every scheme that a hash can have.
pub struct DefaultPasswordVerifier;

impl PasswordVerifier for DefaultPasswordVerifier {
    fn verify(&self, hash: &str, password: &[u8]) -> (r: bool)
        ensures
            r == accepts(hash@, password@),
    {
        verify_password(hash, password)
    }
}

// ----------------------------------------------------------------------------
// Making hashes
// ----------------------------------------------------------------------------

/// The text of a PBKDF2 hash.
pub open spec fn pbkdf2_text(rounds: u32, salt: Seq<u8>, hash: Seq<u8>) -> Seq<char> {
    "$pbkdf2-sha512$rounds="@ + text::decimal(rounds as nat) + "$"@ + standard_text(salt) + "$"@
        + standard_text(hash)
}

/// The text of a PBKDF2 hash.
pub(crate) fn write_pbkdf2(rounds: u32, salt: &[u8], hash: &[u8]) -> (r: String)
    requires
        salt@.len() <= 0x1000_0000,
        hash@.len() <= 0x1000_0000,
    ensures
        r@ == pbkdf2_text(rounds, salt@, hash@),
        rounds > 0 && salt@.len() > 0 && hash@.len() > 0 ==> parsed(r@) == Some(
            HashModel::Pbkdf2Sha512 { rounds, salt: salt@, hash: hash@ },
        ),
{
    let salt_text: String = encode_standard_no_pad(salt);
    let hash_text: String = encode_standard_no_pad(hash);
    let mut s: String = "$pbkdf2-sha512$rounds=".to_owned();
    let digits: String = decimal_text(rounds as u64);
    s.append(digits.as_str());
    s.append("$");
    s.append(salt_text.as_str());
    s.append("$");
    s.append(hash_text.as_str());
    proof {
        lemma_text_reads(rounds, salt@, hash@, salt_text@, hash_text@);
    }
    s
}

proof fn lemma_cut(a: Seq<char>, b: Seq<char>, c: char)
    requires
        !a.contains(c),
    ensures
        cut(a.push(c) + b, c) == Some((a, b)),
{
    let s = a.push(c) + b;
    assert(s[a.len() as int] == c);
    assert forall|i: int| 0 <= i < a.len() implies s[i] != c by {
        assert(s[i] == a[i]);
    }
    text::lemma_first_index_unique(s, c, a.len() as int);
    assert(s.take(a.len() as int) =~= a);
    assert(s.skip(a.len() as int + 1) =~= b);
}

proof fn lemma_text_reads(rounds: u32, salt: Seq<u8>, hash: Seq<u8>, st: Seq<char>, ht: Seq<char>)
    requires
        st == standard_text(salt),
        ht == standard_text(hash),
        standard_no_pad(st) == Some(salt),
        standard_no_pad(ht) == Some(hash),
        !st.contains('$'),
    ensures
        rounds > 0 && salt.len() > 0 && hash.len() > 0 ==> parsed(pbkdf2_text(rounds, salt, hash))
            == Some(HashModel::Pbkdf2Sha512 { rounds, salt, hash }),
{
    reveal_strlit("$pbkdf2-sha512$rounds=");
    reveal_strlit("pbkdf2-sha512");
    reveal_strlit("rounds=");
    reveal_strlit("$");
    let digits = text::decimal(rounds as nat);
    lemma_number_of_decimal(rounds as nat);
    let scheme = "pbkdf2-sha512"@;
    let kv = "rounds="@ + digits;
    let none = Seq::<char>::empty();
    let tail = st.push('$') + ht;
    let body = kv.push('$') + tail;
    let rest = scheme.push('$') + body;
    let whole = none.push('$') + rest;
    assert("$pbkdf2-sha512$rounds="@ =~= none.push('$') + scheme.push('$') + "rounds="@);
    assert(pbkdf2_text(rounds, salt, hash) =~= whole);
    assert(!none.contains('$'));
    lemma_cut(none, rest, '$');
    assert(!scheme.contains('$')) by {
        assert forall|i: int| 0 <= i < scheme.len() implies scheme[i] != '$' by {}
    }
    lemma_cut(scheme, body, '$');
    assert(!kv.contains('$')) by {
        assert forall|i: int| 0 <= i < kv.len() implies kv[i] != '$' by {
            if i >= 7 {
                assert(is_digit(digits[i - 7]));
            }
        }
    }
    lemma_cut(kv, tail, '$');
    lemma_cut(st, ht, '$');
    assert("rounds="@.is_prefix_of(kv));
    assert(kv.skip(7) =~= digits);
    assert(digits[0] != '+') by {
        assert(is_digit(digits[0]));
    }
    assert(number_u32(digits) == Some(rounds));
}

// ----------------------------------------------------------------------------
// Laws
// ----------------------------------------------------------------------------

/// Digits are read from the left: each one more multiplies what was read by ten and
/// adds itself.
pub proof fn law_digits(s: Seq<char>, c: char)
    requires
        '0' <= c <= '9',
    ensures
        number(Seq::empty()) == 0,
        number(s.push(c)) == 10 * number(s) + (c as int - '0' as int),
{
    assert(s.push(c).drop_last() =~= s);
}

/// Which texts are a number of rounds: digits only, at least one, behind a plus sign or
/// not, and no more than 4 294 967 295.
pub proof fn law_rounds_text(s: Seq<char>)
    requires
        s.len() > 0,
    ensures
        s[0] != '+' ==> (number_u32(s) is Some <==> (forall|i: int|
            0 <= i < s.len() ==> '0' <= #[trigger] s[i] <= '9') && number(s) <= 4_294_967_295),
        s[0] != '+' && number_u32(s) is Some ==> number_u32(s)->0 == number(s),
        s[0] == '+' && s.len() > 1 && s[1] != '+' ==> number_u32(s) == number_u32(s.drop_first()),
        s.len() == 1 && s[0] == '+' ==> number_u32(s) is None,
        number_u32(Seq::empty()) is None,
{
    if s[0] != '+' {
        if number_u32(s) is Some {
            assert forall|i: int| 0 <= i < s.len() implies '0' <= #[trigger] s[i] <= '9' by {
                assert(is_digit(s[i]));
            }
        }
    }
}

/// A PBKDF2 hash is read as what it says: its rounds, its salt and its key. Rounds that
/// are 0 or no number, an empty salt and an empty key make it no hash at all.
pub proof fn law_pbkdf2_text_is_read(
    rounds: Seq<char>,
    salt_text: Seq<char>,
    hash_text: Seq<char>,
)
    requires
        !rounds.contains('$'),
        !salt_text.contains('$'),
    ensures
        ({
            let whole = "$pbkdf2-sha512$rounds="@ + rounds + seq!['$'] + salt_text + seq!['$']
                + hash_text;
            let salt = decoded(salt_text);
            let hash = decoded(hash_text);
            &&& parsed(whole) is Some <==> {
                &&& number_u32(rounds) is Some
                &&& number_u32(rounds)->0 > 0
                &&& salt is Some
                &&& salt->0.len() > 0
                &&& hash is Some
                &&& hash->0.len() > 0
            }
            &&& parsed(whole) is Some ==> parsed(whole) == Some(
                HashModel::Pbkdf2Sha512 {
                    rounds: number_u32(rounds)->0,
                    salt: salt->0,
                    hash: hash->0,
                },
            )
        }),
{
    reveal_strlit("$pbkdf2-sha512$rounds=");
    reveal_strlit("pbkdf2-sha512");
    reveal_strlit("rounds=");
    let scheme = "pbkdf2-sha512"@;
    let kv = "rounds="@ + rounds;
    let none = Seq::<char>::empty();
    let tail = salt_text.push('$') + hash_text;
    let body = kv.push('$') + tail;
    let rest = scheme.push('$') + body;
    let whole = none.push('$') + rest;
    assert("$pbkdf2-sha512$rounds="@ =~= none.push('$') + scheme.push('$') + "rounds="@);
    assert("$pbkdf2-sha512$rounds="@ + rounds + seq!['$'] + salt_text + seq!['$'] + hash_text
        =~= whole);
    assert(!none.contains('$'));
    lemma_cut(none, rest, '$');
    assert(!scheme.contains('$')) by {
        assert forall|i: int| 0 <= i < scheme.len() implies scheme[i] != '$' by {}
    }
    lemma_cut(scheme, body, '$');
    assert(!kv.contains('$')) by {
        assert forall|i: int| 0 <= i < kv.len() implies kv[i] != '$' by {
            if i >= 7 {
                assert(kv[i] == rounds[i - 7]);
            }
        }
    }
    lemma_cut(kv, tail, '$');
    lemma_cut(salt_text, hash_text, '$');
    assert("rounds="@.is_prefix_of(kv));
    assert(kv.skip(7) =~= rounds);
}

/// A text with one of bcrypt's three marks in front is a bcrypt hash, and is handed on
/// whole.
pub proof fn law_bcrypt_text_is_read(mark: Seq<char>, rest: Seq<char>)
    requires
        mark == seq!['2', 'a'] || mark == seq!['2', 'b'] || mark == seq!['2', 'y'],
    ensures
        ({
            let whole = seq!['$'] + mark + seq!['$'] + rest;
            parsed(whole) == Some(HashModel::Bcrypt(whole))
        }),
{
    reveal_strlit("pbkdf2-sha512");
    reveal_strlit("2a");
    reveal_strlit("2b");
    reveal_strlit("2y");
    let none = Seq::<char>::empty();
    let after = mark.push('$') + rest;
    let whole = seq!['$'] + mark + seq!['$'] + rest;
    assert(none.push('$') + after =~= whole);
    lemma_cut(none, after, '$');
    assert(!mark.contains('$')) by {
        assert forall|i: int| 0 <= i < mark.len() implies mark[i] != '$' by {}
    }
    lemma_cut(mark, rest, '$');
    assert("2a"@ =~= seq!['2', 'a']);
    assert("2b"@ =~= seq!['2', 'b']);
    assert("2y"@ =~= seq!['2', 'y']);
    assert(mark != "pbkdf2-sha512"@) by {
        assert("pbkdf2-sha512"@.len() == 13);
    }
}

/// A text that does not start with `$`, and one with any other scheme, is no hash.
pub proof fn law_other_texts_are_no_hash(s: Seq<char>, scheme: Seq<char>, rest: Seq<char>)
    requires
        !scheme.contains('$'),
        scheme != "pbkdf2-sha512"@ && scheme != "2a"@ && scheme != "2b"@ && scheme != "2y"@,
    ensures
        s.len() == 0 || s[0] != '$' ==> parsed(s) is None,
        parsed(seq!['$'] + scheme + seq!['$'] + rest) is None,
{
    if s.contains('$') && s[0] != '$' {
        text::lemma_first_index(s, '$');
    }
    let none = Seq::<char>::empty();
    let after = scheme.push('$') + rest;
    assert(none.push('$') + after =~= seq!['$'] + scheme + seq!['$'] + rest);
    lemma_cut(none, after, '$');
    lemma_cut(scheme, rest, '$');
}

/// The encoded parts of a hash may be written in either alphabet, with or without
/// padding: a text stands for bytes exactly where one of the four ways reads it.
pub proof fn law_encoded_parts(s: Seq<char>)
    ensures
        decoded(s) is Some <==> standard_no_pad(s) is Some || standard(s) is Some
            || url_safe_no_pad(s) is Some || url_safe(s) is Some,
        standard_no_pad(s) is Some ==> decoded(s) == standard_no_pad(s),
        standard_no_pad(s) is None && standard(s) is Some ==> decoded(s) == standard(s),
        standard_no_pad(s) is None && standard(s) is None && url_safe_no_pad(s) is Some
            ==> decoded(s) == url_safe_no_pad(s),
{
}

/// Which passwords a hash accepts: with PBKDF2 those whose key over the salt, with the
/// rounds and of the length of the stored one, is the stored one; with bcrypt those
/// that it says match; and none where the text is no hash.
pub proof fn law_which_passwords_are_accepted(text: Seq<char>, password: Seq<u8>)
    ensures
        parsed(text) is None ==> !accepts(text, password),
        parsed(text) matches Some(HashModel::Bcrypt(s)) ==> (accepts(text, password) <==> (
        bcrypt_says(password, s) matches Some(said) && said)),
        parsed(text) matches Some(HashModel::Pbkdf2Sha512 { rounds, salt, hash }) ==> (hash.len()
            <= 274_877_906_880 ==> (accepts(text, password) <==> derived_key(
            password,
            salt,
            rounds,
            hash.len(),
        ) == hash)),
{
}

} // verus!
