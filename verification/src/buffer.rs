//! Byte buffers of the `bytes` crate and the wiped secrets of `zeroize`.
use bytes::{Bytes, BytesMut};
use vstd::prelude::*;
use zeroize::Zeroizing;

verus! {

/// `bytes::Bytes`, an immutable shared byte string.
#[verifier::external_type_specification]
#[verifier::external_body]
pub struct ExBytes(Bytes);

/// `bytes::BytesMut`, a growable byte buffer.
#[verifier::external_type_specification]
#[verifier::external_body]
pub struct ExBytesMut(BytesMut);

/// The bytes that a `Bytes` holds.
pub uninterp spec fn bytes_of(b: Bytes) -> Seq<u8>;

/// The bytes that a `BytesMut` holds.
pub uninterp spec fn buffer_of(b: BytesMut) -> Seq<u8>;

/// The bytes of an optional `Bytes`.
pub open spec fn opt_bytes(o: Option<Bytes>) -> Option<Seq<u8>> {
    match o {
        Some(b) => Some(bytes_of(b)),
        None => None,
    }
}

/// `Bytes::new`: no bytes.
pub assume_specification[ Bytes::new ]() -> (r: Bytes)
    ensures
        bytes_of(r) == Seq::<u8>::empty(),
;

/// `Bytes::from(Vec<u8>)`: the same bytes, without a copy.
#[verifier::external_body]
pub(crate) fn bytes_from_vec(v: Vec<u8>) -> (r: Bytes)
    ensures
        bytes_of(r) == v@,
{
    Bytes::from(v)
}

/// `Bytes::as_ref`: the bytes as a slice.
#[verifier::external_body]
pub(crate) fn bytes_slice(b: &Bytes) -> (r: &[u8])
    ensures
        r@ == bytes_of(*b),
{
    b.as_ref()
}

/// `Bytes::clone`: a second handle on the same bytes.
pub assume_specification[ <Bytes as Clone>::clone ](b: &Bytes) -> (r: Bytes)
    ensures
        bytes_of(r) == bytes_of(*b),
;

/// `BytesMut::as_ref`: the buffered bytes as a slice.
#[verifier::external_body]
pub(crate) fn buffer_slice(b: &BytesMut) -> (r: &[u8])
    ensures
        r@ == buffer_of(*b),
{
    b.as_ref()
}

/// `BytesMut::split_to`: the first `at` bytes leave the buffer and are returned.
#[verifier::external_body]
pub(crate) fn buffer_split_to(b: &mut BytesMut, at: usize) -> (r: BytesMut)
    requires
        at <= buffer_of(*old(b)).len(),
    ensures
        buffer_of(r) == buffer_of(*old(b)).subrange(0, at as int),
        buffer_of(*final(b)) == buffer_of(*old(b)).subrange(
            at as int,
            buffer_of(*old(b)).len() as int,
        ),
{
    b.split_to(at)
}

/// `BytesMut::extend_from_slice`: the bytes are appended.
#[verifier::external_body]
pub(crate) fn buffer_extend(b: &mut BytesMut, more: &[u8])
    ensures
        buffer_of(*final(b)) == buffer_of(*old(b)) + more@,
{
    b.extend_from_slice(more)
}

/// A second handle on optional bytes.
pub fn clone_opt_bytes(o: &Option<Bytes>) -> (r: Option<Bytes>)
    ensures
        opt_bytes(r) == opt_bytes(*o),
{
    match o {
        Some(b) => Some(b.clone()),
        None => None,
    }
}

/// Bytes that are wiped from memory when they are dropped.
#[verifier::external_body]
pub struct SecretBytes {
    inner: Zeroizing<Vec<u8>>,
}

/// The bytes that a secret holds.
pub uninterp spec fn secret_of(s: SecretBytes) -> Seq<u8>;

/// The bytes of an optional secret.
pub open spec fn opt_secret(o: Option<SecretBytes>) -> Option<Seq<u8>> {
    match o {
        Some(s) => Some(secret_of(s)),
        None => None,
    }
}

/// `zeroize::Zeroizing::new`: the same bytes, wiped on drop.
#[verifier::external_body]
pub(crate) fn secret_from_vec(v: Vec<u8>) -> (r: SecretBytes)
    ensures
        secret_of(r) == v@,
{
    SecretBytes { inner: Zeroizing::new(v) }
}

/// `zeroize::Zeroizing::deref`: the bytes as a slice.
#[verifier::external_body]
pub(crate) fn secret_slice(s: &SecretBytes) -> (r: &[u8])
    ensures
        r@ == secret_of(*s),
{
    s.inner.as_slice()
}

impl SecretBytes {
    /// Takes the bytes over.
    pub fn new(v: Vec<u8>) -> (r: SecretBytes)
        ensures
            secret_of(r) == v@,
    {
        secret_from_vec(v)
    }

    /// The bytes.
    pub fn as_slice(&self) -> (r: &[u8])
        ensures
            r@ == secret_of(*self),
    {
        secret_slice(self)
    }
}

impl Clone for SecretBytes {
    fn clone(&self) -> (r: SecretBytes)
        ensures
            secret_of(r) == secret_of(*self),
    {
        secret_from_vec(vstd::slice::slice_to_vec(secret_slice(self)))
    }
}

} // verus!
