//! The scalar forms of the wire: big-endian integers, variable byte integers,
//! length-prefixed bytes and length-prefixed text.
//!
//! Each `*_at` function says what is read at a position: the value and the
//! position behind it, or the error.
use crate::buffer::bytes_from_vec;
use crate::error::{CodecError, MqttError, Violation};
use crate::text;
use crate::text::{contains_ascii, shared, utf8_text};
use bytes::Bytes;
use std::sync::Arc;
use vstd::prelude::*;
use vstd::slice::*;
use vstd::utf8::*;

verus! {

// ----------------------------------------------------------------------------
// Model
// ----------------------------------------------------------------------------

/// A value and the position behind it, or the error.
pub type Read<T> = Result<(T, int), MqttError>;

pub open spec fn eof<T>() -> Read<T> {
    Err(MqttError::Codec(CodecError::UnexpectedEof))
}

/// The number that two bytes spell, the high one first.
pub open spec fn be16(hi: u8, lo: u8) -> u16 {
    (hi * 256 + lo) as u16
}

/// The two bytes of a number, the high one first.
pub open spec fn be16_bytes(v: u16) -> Seq<u8> {
    seq![(v / 256) as u8, (v % 256) as u8]
}

/// The number that four bytes spell, the highest one first.
pub open spec fn be32(a: u8, b: u8, c: u8, d: u8) -> u32 {
    (((a * 256 + b) * 256 + c) * 256 + d) as u32
}

/// The four bytes of a number, the highest one first.
pub open spec fn be32_bytes(v: u32) -> Seq<u8> {
    seq![
        (v / 16777216) as u8,
        ((v / 65536) % 256) as u8,
        ((v / 256) % 256) as u8,
        (v % 256) as u8,
    ]
}

/// A variable byte integer: seven bits per byte, the lowest first, with the high
/// bit set on every byte but the last.
pub open spec fn vbi(n: nat) -> Seq<u8>
    decreases n,
{
    if n < 128 {
        seq![n as u8]
    } else {
        seq![(n % 128 + 128) as u8] + vbi(n / 128)
    }
}

/// One more than the largest number that `left` bytes can spell.
pub open spec fn vbi_bound(left: nat) -> nat
    decreases left,
{
    if left == 0 {
        1
    } else {
        128 * vbi_bound((left - 1) as nat)
    }
}

/// Length-prefixed bytes.
pub open spec fn field(b: Seq<u8>) -> Seq<u8> {
    be16_bytes(b.len() as u16) + b
}

/// Length-prefixed text.
pub open spec fn text_field(s: Seq<char>) -> Seq<u8> {
    field(encode_utf8(s))
}

pub open spec fn u8_at(b: Seq<u8>, at: int) -> Read<u8> {
    if at >= b.len() {
        eof()
    } else {
        Ok((b[at], at + 1))
    }
}

pub open spec fn u16_at(b: Seq<u8>, at: int) -> Read<u16> {
    if at + 2 > b.len() {
        eof()
    } else {
        Ok((be16(b[at], b[at + 1]), at + 2))
    }
}

pub open spec fn u32_at(b: Seq<u8>, at: int) -> Read<u32> {
    if at + 4 > b.len() {
        eof()
    } else {
        Ok((be32(b[at], b[at + 1], b[at + 2], b[at + 3]), at + 4))
    }
}

/// A variable byte integer of at most `left` bytes.
pub open spec fn vbi_at(b: Seq<u8>, at: int, left: nat) -> Read<nat>
    decreases left,
{
    if at >= b.len() {
        eof()
    } else if b[at] < 128 {
        Ok((b[at] as nat, at + 1))
    } else if left <= 1 {
        Err(MqttError::Codec(CodecError::MalformedLength))
    } else {
        match vbi_at(b, at + 1, (left - 1) as nat) {
            Ok((n, next)) => Ok(((b[at] - 128 + 128 * n) as nat, next)),
            Err(e) => Err(e),
        }
    }
}

pub open spec fn field_at(b: Seq<u8>, at: int) -> Read<Seq<u8>> {
    match u16_at(b, at) {
        Err(e) => Err(e),
        Ok((n, p)) => if p + n > b.len() {
            eof()
        } else {
            Ok((b.subrange(p, p + n), p + n))
        },
    }
}

pub open spec fn text_at(b: Seq<u8>, at: int) -> Read<Seq<char>> {
    match field_at(b, at) {
        Err(e) => Err(e),
        Ok((raw, next)) => if !valid_utf8(raw) {
            Err(MqttError::Codec(CodecError::InvalidUtf8))
        } else if decode_utf8(raw).contains('\0') {
            Err(MqttError::Protocol(Violation::Utf8NullCharacter))
        } else {
            Ok((decode_utf8(raw), next))
        },
    }
}

/// Where the reading of a variable byte integer of at most `left` bytes stops,
/// whether it is read or not.
pub open spec fn vbi_stop(b: Seq<u8>, at: int, left: nat) -> int
    decreases left,
{
    if at >= b.len() {
        at
    } else if b[at] < 128 || left <= 1 {
        at + 1
    } else {
        vbi_stop(b, at + 1, (left - 1) as nat)
    }
}

/// Where the reading of length-prefixed bytes stops: without all of its two bytes
/// the length is not taken, and what cannot be read is not taken behind it.
pub open spec fn field_stop<V>(b: Seq<u8>, at: int, read: Read<V>) -> int {
    match read {
        Ok((_, next)) => next,
        Err(_) => if at + 2 > b.len() {
            at
        } else {
            at + 2
        },
    }
}

/// The error for a field of `len` bytes that a two-byte length cannot hold.
pub open spec fn field_too_long(kind: &'static str, len: nat) -> MqttError {
    MqttError::Codec(CodecError::FieldTooLong { kind, len: len as usize })
}

// ----------------------------------------------------------------------------
// What was written is what is read
// ----------------------------------------------------------------------------

/// A number survives its two bytes.
pub proof fn lemma_be16(v: u16)
    ensures
        be16(be16_bytes(v)[0], be16_bytes(v)[1]) == v,
        be16_bytes(v).len() == 2,
{
}

/// A number survives its four bytes.
pub proof fn lemma_be32(v: u32)
    ensures
        be32(be32_bytes(v)[0], be32_bytes(v)[1], be32_bytes(v)[2], be32_bytes(v)[3]) == v,
        be32_bytes(v).len() == 4,
{
    let a = (v / 16777216) as u8;
    let b = ((v / 65536) % 256) as u8;
    let c = ((v / 256) % 256) as u8;
    let d = (v % 256) as u8;
    assert((a * 256 + b) == v / 65536);
    assert((a * 256 + b) * 256 + c == v / 256);
    assert(((a * 256 + b) * 256 + c) * 256 + d == v);
}

/// The bytes of a variable byte integer are read back as the number, wherever
/// they stand.
pub proof fn lemma_vbi_read(b: Seq<u8>, at: int, n: nat, left: nat)
    requires
        0 <= at,
        at + vbi(n).len() <= b.len(),
        b.subrange(at, at + vbi(n).len()) == vbi(n),
        n < vbi_bound(left),
    ensures
        vbi_at(b, at, left) == Ok::<(nat, int), MqttError>((n, at + vbi(n).len())),
    decreases left,
{
    let e = vbi(n);
    if n < 128 {
        assert(e.len() == 1);
        assert(b[at] == b.subrange(at, at + 1)[0]);
        if left == 0 {
            assert(vbi_bound(0) == 1);
        }
    } else {
        if left == 0 {
            assert(vbi_bound(0) == 1);
        }
        let m = n / 128;
        assert(vbi_bound(left) == 128 * vbi_bound((left - 1) as nat));
        assert(m < vbi_bound((left - 1) as nat));
        if left == 1 {
            assert(vbi_bound(0) == 1);
        }
        assert(e.len() == 1 + vbi(m).len());
        assert(b[at] == b.subrange(at, at + e.len())[0]);
        assert(b.subrange(at + 1, at + 1 + vbi(m).len()) =~= vbi(m)) by {
            assert(b.subrange(at, at + e.len()).subrange(1, e.len() as int) =~= b.subrange(
                at + 1,
                at + e.len(),
            ));
            assert(e.subrange(1, e.len() as int) =~= vbi(m));
        }
        lemma_vbi_read(b, at + 1, m, (left - 1) as nat);
    }
}

/// A number below the bound is spelled in `left` bytes at most, and in one at
/// least.
pub proof fn lemma_vbi_len(n: nat, left: nat)
    requires
        n < vbi_bound(left),
    ensures
        1 <= vbi(n).len(),
        vbi(n).len() <= left || left == 0,
    decreases left,
{
    if n >= 128 {
        assert(left > 0) by {
            if left == 0 {
                assert(vbi_bound(0) == 1);
            }
        }
        assert(n / 128 < vbi_bound((left - 1) as nat));
        lemma_vbi_len(n / 128, (left - 1) as nat);
        if left == 1 {
            assert(vbi_bound(0) == 1);
        }
    }
}

pub proof fn lemma_vbi_bounds()
    ensures
        vbi_bound(1) == 128,
        vbi_bound(2) == 16384,
        vbi_bound(3) == 2097152,
        vbi_bound(4) == 268435456,
{
    reveal_with_fuel(vbi_bound, 5);
}

/// Length-prefixed bytes are read back, wherever they stand.
pub proof fn lemma_field_read(b: Seq<u8>, at: int, raw: Seq<u8>)
    requires
        0 <= at,
        raw.len() <= 65535,
        at + field(raw).len() <= b.len(),
        b.subrange(at, at + field(raw).len()) == field(raw),
    ensures
        field_at(b, at) == Ok::<(Seq<u8>, int), MqttError>((raw, at + field(raw).len())),
{
    let f = field(raw);
    lemma_be16(raw.len() as u16);
    assert(f.len() == 2 + raw.len());
    let w = b.subrange(at, at + f.len());
    assert(b[at] == w[0]);
    assert(b[at + 1] == w[1]);
    assert(f[0] == be16_bytes(raw.len() as u16)[0]);
    assert(f[1] == be16_bytes(raw.len() as u16)[1]);
    assert(b.subrange(at + 2, at + 2 + raw.len()) =~= raw) by {
        assert forall|i: int| 0 <= i < raw.len() implies b.subrange(at + 2, at + 2 + raw.len())[i]
            == raw[i] by {
            assert(w[i + 2] == f[i + 2]);
        }
    }
}

/// Length-prefixed text without U+0000 is read back, wherever it stands.
pub proof fn lemma_text_read(b: Seq<u8>, at: int, s: Seq<char>)
    requires
        0 <= at,
        encode_utf8(s).len() <= 65535,
        !s.contains('\0'),
        at + text_field(s).len() <= b.len(),
        b.subrange(at, at + text_field(s).len()) == text_field(s),
    ensures
        text_at(b, at) == Ok::<(Seq<char>, int), MqttError>((s, at + text_field(s).len())),
{
    encode_utf8_valid_utf8(s);
    encode_utf8_decode_utf8(s);
    lemma_field_read(b, at, encode_utf8(s));
}

/// A part of a part of `b`.
pub proof fn lemma_inner(b: Seq<u8>, at: int, whole: Seq<u8>, from: int, part: Seq<u8>)
    requires
        0 <= at,
        0 <= from,
        at + whole.len() <= b.len(),
        b.subrange(at, at + whole.len()) == whole,
        from + part.len() <= whole.len(),
        whole.subrange(from, from + part.len()) == part,
    ensures
        b.subrange(at + from, at + from + part.len()) == part,
{
    assert(b.subrange(at, at + whole.len()).subrange(from, from + part.len()) =~= b.subrange(
        at + from,
        at + from + part.len(),
    ));
}

// ----------------------------------------------------------------------------
// Readers
// ----------------------------------------------------------------------------

pub(crate) fn read_u8(body: &[u8], at: usize) -> (r: Result<(u8, usize), MqttError>)
    requires
        at <= body@.len(),
    ensures
        match u8_at(body@, at as int) {
            Ok((v, next)) => r is Ok && r->Ok_0.0 == v && r->Ok_0.1 == next,
            Err(e) => r == Err::<(u8, usize), MqttError>(e),
        },
        r matches Ok((_, next)) ==> at < next <= body@.len(),
{
    if at >= body.len() {
        return Err(MqttError::Codec(CodecError::UnexpectedEof));
    }
    Ok((body[at], at + 1))
}

pub(crate) fn read_u16(body: &[u8], at: usize) -> (r: Result<(u16, usize), MqttError>)
    requires
        at <= body@.len(),
    ensures
        match u16_at(body@, at as int) {
            Ok((v, next)) => r is Ok && r->Ok_0.0 == v && r->Ok_0.1 == next,
            Err(e) => r == Err::<(u16, usize), MqttError>(e),
        },
        r matches Ok((_, next)) ==> at < next <= body@.len(),
{
    if body.len() - at < 2 {
        return Err(MqttError::Codec(CodecError::UnexpectedEof));
    }
    Ok((body[at] as u16 * 256 + body[at + 1] as u16, at + 2))
}

pub(crate) fn read_u32(body: &[u8], at: usize) -> (r: Result<(u32, usize), MqttError>)
    requires
        at <= body@.len(),
    ensures
        match u32_at(body@, at as int) {
            Ok((v, next)) => r is Ok && r->Ok_0.0 == v && r->Ok_0.1 == next,
            Err(e) => r == Err::<(u32, usize), MqttError>(e),
        },
        r matches Ok((_, next)) ==> at < next <= body@.len(),
{
    if body.len() - at < 4 {
        return Err(MqttError::Codec(CodecError::UnexpectedEof));
    }
    let v: u32 = ((body[at] as u32 * 256 + body[at + 1] as u32) * 256 + body[at + 2] as u32) * 256
        + body[at + 3] as u32;
    Ok((v, at + 4))
}

/// Reads a variable byte integer of at most `left` bytes.
pub(crate) fn read_vbi_within(body: &[u8], at: usize, left: u8) -> (r: Result<
    (usize, usize),
    MqttError,
>)
    requires
        at <= body@.len(),
        1 <= left <= 4,
    ensures
        match vbi_at(body@, at as int, left as nat) {
            Ok((n, next)) => r is Ok && r->Ok_0.0 == n && r->Ok_0.1 == next,
            Err(e) => r == Err::<(usize, usize), MqttError>(e),
        },
        r matches Ok((n, next)) ==> n < vbi_bound(left as nat) && at < next <= body@.len() && next
            <= at + left,
    decreases left,
{
    proof {
        lemma_vbi_bounds();
    }
    if at >= body.len() {
        return Err(MqttError::Codec(CodecError::UnexpectedEof));
    }
    let byte: u8 = body[at];
    if byte < 128 {
        return Ok((byte as usize, at + 1));
    }
    if left <= 1 {
        return Err(MqttError::Codec(CodecError::MalformedLength));
    }
    match read_vbi_within(body, at + 1, left - 1) {
        Err(e) => Err(e),
        Ok((n, next)) => Ok(((byte - 128) as usize + 128 * n, next)),
    }
}

/// Reads a variable byte integer of at most four bytes.
pub(crate) fn read_vbi(body: &[u8], at: usize) -> (r: Result<(usize, usize), MqttError>)
    requires
        at <= body@.len(),
    ensures
        match vbi_at(body@, at as int, 4) {
            Ok((n, next)) => r is Ok && r->Ok_0.0 == n && r->Ok_0.1 == next,
            Err(e) => r == Err::<(usize, usize), MqttError>(e),
        },
        r matches Ok((n, next)) ==> n <= 268435455 && at < next <= body@.len() && next <= at + 4,
{
    proof {
        lemma_vbi_bounds();
    }
    read_vbi_within(body, at, 4)
}

/// Where the reading of a variable byte integer stops.
pub(crate) fn end_of_vbi(body: &[u8], at: usize, left: u8) -> (r: usize)
    requires
        at <= body@.len(),
    ensures
        r == vbi_stop(body@, at as int, left as nat),
        at <= r <= body@.len(),
    decreases left,
{
    if at >= body.len() {
        at
    } else if body[at] < 128 || left <= 1 {
        at + 1
    } else {
        end_of_vbi(body, at + 1, left - 1)
    }
}

/// Reads length-prefixed bytes in place.
pub(crate) fn read_slice<'a>(body: &'a [u8], at: usize) -> (r: Result<(&'a [u8], usize), MqttError>)
    requires
        at <= body@.len(),
    ensures
        match field_at(body@, at as int) {
            Ok((raw, next)) => r is Ok && r->Ok_0.0@ == raw && r->Ok_0.1 == next,
            Err(e) => r is Err && r->Err_0 == e,
        },
        r matches Ok((_, next)) ==> at < next <= body@.len(),
{
    match read_u16(body, at) {
        Err(e) => Err(e),
        Ok((n, p)) => {
            if body.len() - p < n as usize {
                return Err(MqttError::Codec(CodecError::UnexpectedEof));
            }
            Ok((slice_subrange(body, p, p + n as usize), p + n as usize))
        },
    }
}

/// Reads length-prefixed text.
pub(crate) fn read_arc_str(body: &[u8], at: usize) -> (r: Result<(Arc<str>, usize), MqttError>)
    requires
        at <= body@.len(),
    ensures
        match text_at(body@, at as int) {
            Ok((s, next)) => r is Ok && (*r->Ok_0.0)@ == s && r->Ok_0.1 == next,
            Err(e) => r is Err && r->Err_0 == e,
        },
        r matches Ok((_, next)) ==> at < next <= body@.len(),
{
    match read_slice(body, at) {
        Err(e) => Err(e),
        Ok((raw, next)) => {
            match utf8_text(raw) {
                None => Err(MqttError::Codec(CodecError::InvalidUtf8)),
                Some(s) => {
                    proof {
                        encode_utf8_decode_utf8(s@);
                    }
                    if contains_ascii(s, 0) {
                        return Err(MqttError::Protocol(Violation::Utf8NullCharacter));
                    }
                    Ok((shared(s), next))
                },
            }
        },
    }
}

/// Reads length-prefixed bytes.
pub(crate) fn read_bytes(body: &[u8], at: usize) -> (r: Result<(Bytes, usize), MqttError>)
    requires
        at <= body@.len(),
    ensures
        match field_at(body@, at as int) {
            Ok((raw, next)) => r is Ok && crate::buffer::bytes_of(r->Ok_0.0) == raw && r->Ok_0.1
                == next,
            Err(e) => r is Err && r->Err_0 == e,
        },
        r matches Ok((_, next)) ==> at < next <= body@.len(),
{
    match read_slice(body, at) {
        Err(e) => Err(e),
        Ok((raw, next)) => Ok((bytes_from_vec(slice_to_vec(raw)), next)),
    }
}

// ----------------------------------------------------------------------------
// Writers
// ----------------------------------------------------------------------------

/// Appends bytes.
pub(crate) fn put_all(out: &mut Vec<u8>, b: &[u8])
    ensures
        final(out)@ == old(out)@ + b@,
{
    out.extend_from_slice(b);
    assert(out@ =~= old(out)@ + b@);
}

pub(crate) fn put_u16(out: &mut Vec<u8>, v: u16)
    ensures
        final(out)@ == old(out)@ + be16_bytes(v),
{
    out.push((v / 256) as u8);
    out.push((v % 256) as u8);
    assert(out@ =~= old(out)@ + be16_bytes(v));
}

pub(crate) fn put_u32(out: &mut Vec<u8>, v: u32)
    ensures
        final(out)@ == old(out)@ + be32_bytes(v),
{
    out.push((v / 16777216) as u8);
    out.push(((v / 65536) % 256) as u8);
    out.push(((v / 256) % 256) as u8);
    out.push((v % 256) as u8);
    assert(out@ =~= old(out)@ + be32_bytes(v));
}

/// Appends a variable byte integer.
pub(crate) fn write_vbi(out: &mut Vec<u8>, value: usize)
    ensures
        final(out)@ == old(out)@ + vbi(value as nat),
{
    let mut left: usize = value;
    while left >= 128
        invariant
            out@ + vbi(left as nat) == old(out)@ + vbi(value as nat),
        decreases left,
    {
        let ghost before = out@;
        out.push((left % 128 + 128) as u8);
        proof {
            assert(out@ + vbi((left / 128) as nat) =~= before + vbi(left as nat));
        }
        left = left / 128;
    }
    out.push(left as u8);
    assert(out@ =~= old(out)@ + vbi(value as nat));
}

/// Appends length-prefixed bytes; a field that is too long leaves the buffer
/// as it was.
pub(crate) fn write_bytes(out: &mut Vec<u8>, b: &[u8], kind: &'static str) -> (r: Result<
    (),
    MqttError,
>)
    ensures
        b@.len() <= 65535 ==> r is Ok && final(out)@ == old(out)@ + field(b@),
        b@.len() > 65535 ==> r == Err::<(), MqttError>(field_too_long(kind, b@.len())),
        b@.len() > 65535 ==> final(out)@ == old(out)@,
{
    let len: usize = b.len();
    if len > 65535 {
        return Err(MqttError::Codec(CodecError::FieldTooLong { kind, len }));
    }
    put_u16(out, len as u16);
    put_all(out, b);
    assert(out@ =~= old(out)@ + field(b@));
    Ok(())
}

/// Appends length-prefixed text; a field that is too long leaves the buffer as
/// it was.
pub(crate) fn write_str(out: &mut Vec<u8>, s: &str, kind: &'static str) -> (r: Result<
    (),
    MqttError,
>)
    ensures
        encode_utf8(s@).len() <= 65535 ==> r is Ok && final(out)@ == old(out)@ + text_field(s@),
        encode_utf8(s@).len() > 65535 ==> r == Err::<(), MqttError>(
            field_too_long(kind, encode_utf8(s@).len()),
        ) && final(out)@ == old(out)@,
{
    write_bytes(out, s.as_bytes(), kind)
}

} // verus!
