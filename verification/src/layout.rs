//! How packets look as bytes, and which bytes are no packet.
use crate::codec;
use crate::error::{CodecError, MqttError, Violation};
use crate::packet;
use crate::packet::{ConnackReturnCode, PacketType, ProtocolVersion};
use crate::properties;
use crate::request;
use crate::request::{QoS, SubackCode};
use crate::topic;
use crate::wire;
use vstd::prelude::*;
use vstd::utf8::*;

verus! {

// ----------------------------------------------------------------------------
// Numbers and fields
// ----------------------------------------------------------------------------

/// Two and four bytes stand for a number with the most significant byte first.
pub proof fn law_numbers(v: u16, w: u32, a: u8, b: u8, c: u8, d: u8)
    ensures
        wire::be16_bytes(v).len() == 2,
        wire::be16_bytes(v)[0] * 256 + wire::be16_bytes(v)[1] == v,
        wire::be16(a, b) == a * 256 + b,
        wire::be32_bytes(w).len() == 4,
        wire::be32_bytes(w)[0] * 16777216 + wire::be32_bytes(w)[1] * 65536 + wire::be32_bytes(w)[2]
            * 256 + wire::be32_bytes(w)[3] == w,
        wire::be32(a, b, c, d) == a * 16777216 + b * 65536 + c * 256 + d,
{
}

/// How a length of up to 268 435 455 is written: seven bits to a byte, the least
/// significant first, in as few bytes as it takes, each but the last one with its
/// highest bit set.
pub proof fn law_length_is_written(n: nat)
    requires
        n <= 268_435_455,
    ensures
        n < 128 ==> wire::vbi(n) == seq![n as u8],
        128 <= n < 16_384 ==> wire::vbi(n) == seq![(n % 128 + 128) as u8, (n / 128) as u8],
        16_384 <= n < 2_097_152 ==> wire::vbi(n) == seq![
            (n % 128 + 128) as u8,
            (n / 128 % 128 + 128) as u8,
            (n / 16_384) as u8,
        ],
        2_097_152 <= n ==> wire::vbi(n) == seq![
            (n % 128 + 128) as u8,
            (n / 128 % 128 + 128) as u8,
            (n / 16_384 % 128 + 128) as u8,
            (n / 2_097_152) as u8,
        ],
{
    reveal_with_fuel(wire::vbi, 4);
    assert(n / 128 / 128 == n / 16_384);
    assert(n / 128 / 128 / 128 == n / 2_097_152);
    assert(wire::vbi(n) =~= wire::vbi(n));
}

/// How a length is read: up to the first byte without its highest bit, which is at
/// most the fourth; without one in four bytes it is malformed, and where the bytes end
/// before that, there is not enough to read.
pub proof fn law_length_is_read(b: Seq<u8>, at: int)
    requires
        0 <= at,
    ensures
        at < b.len() && b[at] < 128 ==> wire::vbi_at(b, at, 4) == Ok::<(nat, int), MqttError>(
            (b[at] as nat, at + 1),
        ),
        at + 1 < b.len() && b[at] >= 128 && b[at + 1] < 128 ==> wire::vbi_at(b, at, 4) == Ok::<
            (nat, int),
            MqttError,
        >(((b[at] - 128 + 128 * b[at + 1]) as nat, at + 2)),
        at + 2 < b.len() && b[at] >= 128 && b[at + 1] >= 128 && b[at + 2] < 128 ==> wire::vbi_at(
            b,
            at,
            4,
        ) == Ok::<(nat, int), MqttError>(
            ((b[at] - 128 + 128 * (b[at + 1] - 128) + 16_384 * b[at + 2]) as nat, at + 3),
        ),
        at + 3 < b.len() && b[at] >= 128 && b[at + 1] >= 128 && b[at + 2] >= 128 && b[at + 3] < 128
            ==> wire::vbi_at(b, at, 4) == Ok::<(nat, int), MqttError>(
            (
                (b[at] - 128 + 128 * (b[at + 1] - 128) + 16_384 * (b[at + 2] - 128) + 2_097_152
                    * b[at + 3]) as nat,
                at + 4,
            ),
        ),
        at + 3 < b.len() && b[at] >= 128 && b[at + 1] >= 128 && b[at + 2] >= 128 && b[at + 3] >= 128
            ==> wire::vbi_at(b, at, 4) == Err::<(nat, int), MqttError>(
            MqttError::Codec(CodecError::MalformedLength),
        ),
        at + 3 >= b.len() && (forall|i: int| at <= i < b.len() ==> #[trigger] b[i] >= 128)
            ==> wire::vbi_at(b, at, 4) == Err::<(nat, int), MqttError>(
            MqttError::Codec(CodecError::UnexpectedEof),
        ),
{
    reveal_with_fuel(wire::vbi_at, 5);
}

/// A field is its length in two bytes and then its bytes; a text is the field of its
/// UTF-8, and one with a zero character is refused.
pub proof fn law_fields(raw: Seq<u8>, b: Seq<u8>, at: int)
    requires
        0 <= at,
        raw.len() <= 65_535,
    ensures
        wire::field(raw).len() == raw.len() + 2,
        wire::field(raw)[0] * 256 + wire::field(raw)[1] == raw.len(),
        wire::field(raw).subrange(2, raw.len() as int + 2) == raw,
        at + 2 > b.len() ==> wire::field_at(b, at) == Err::<(Seq<u8>, int), MqttError>(
            MqttError::Codec(CodecError::UnexpectedEof),
        ),
        at + 2 <= b.len() ==> {
            let n = b[at] * 256 + b[at + 1];
            &&& at + 2 + n > b.len() ==> wire::field_at(b, at) == Err::<(Seq<u8>, int), MqttError>(
                MqttError::Codec(CodecError::UnexpectedEof),
            )
            &&& at + 2 + n <= b.len() ==> {
                let found = b.subrange(at + 2, at + 2 + n);
                &&& wire::field_at(b, at) == Ok::<(Seq<u8>, int), MqttError>(
                    (found, at + 2 + n),
                )
                &&& !valid_utf8(found) ==> wire::text_at(b, at) == Err::<
                    (Seq<char>, int),
                    MqttError,
                >(MqttError::Codec(CodecError::InvalidUtf8))
                &&& valid_utf8(found) && decode_utf8(found).contains('\0') ==> wire::text_at(b, at)
                    == Err::<(Seq<char>, int), MqttError>(
                    MqttError::Protocol(Violation::Utf8NullCharacter),
                )
                &&& valid_utf8(found) && !decode_utf8(found).contains('\0') ==> wire::text_at(b, at)
                    == Ok::<(Seq<char>, int), MqttError>((decode_utf8(found), at + 2 + n))
            }
        },
{
    let f = wire::field(raw);
    assert(f.subrange(2, raw.len() as int + 2) =~= raw);
}

// ----------------------------------------------------------------------------
// Packets as bytes
// ----------------------------------------------------------------------------

/// The level as a number.
pub open spec fn level(q: QoS) -> int {
    match q {
        QoS::AtMostOnce => 0,
        QoS::AtLeastOnce => 1,
        QoS::ExactlyOnce => 2,
    }
}

/// One where something holds, and zero where it does not.
pub open spec fn one_if(b: bool) -> int {
    if b {
        1
    } else {
        0
    }
}

/// The number of a kind of packet, and the lower four bits of its first byte.
pub open spec fn kind_and_flags(m: packet::PacketModel) -> (int, int) {
    match m {
        packet::PacketModel::Connect(_) => (1, 0),
        packet::PacketModel::Connack(_) => (2, 0),
        packet::PacketModel::Publish(p) => (
            3,
            one_if(p.dup) * 8 + level(p.qos) * 2 + one_if(p.retain),
        ),
        packet::PacketModel::Puback(_) => (4, 0),
        packet::PacketModel::Pubrec(_) => (5, 0),
        packet::PacketModel::Pubrel(_) => (6, 2),
        packet::PacketModel::Pubcomp(_) => (7, 0),
        packet::PacketModel::Subscribe { .. } => (8, 2),
        packet::PacketModel::Suback { .. } => (9, 0),
        packet::PacketModel::Unsubscribe { .. } => (10, 2),
        packet::PacketModel::Unsuback { .. } => (11, 0),
        packet::PacketModel::Pingreq => (12, 0),
        packet::PacketModel::Pingresp => (13, 0),
        packet::PacketModel::Disconnect => (14, 0),
    }
}

/// A packet starts with its kind and flags, then the length of the rest, then the rest.
pub proof fn law_packet_starts_with_kind_and_length(m: packet::PacketModel)
    requires
        codec::encode_model(m) is Ok,
        codec::body_of(m)->Ok_0.len() <= 268_435_455,
    ensures
        ({
            let b = codec::encode_model(m)->Ok_0;
            let n = codec::body_of(m)->Ok_0.len();
            &&& b[0] == kind_and_flags(m).0 * 16 + kind_and_flags(m).1
            &&& wire::vbi_at(b, 1, 4) == Ok::<(nat, int), MqttError>((n, b.len() - n))
            &&& b.subrange(b.len() - n, b.len() as int) == codec::body_of(m)->Ok_0
        }),
{
    let b = codec::encode_model(m)->Ok_0;
    let body = codec::body_of(m)->Ok_0;
    let n = body.len();
    wire::lemma_vbi_bounds();
    wire::lemma_vbi_len(n, 4);
    assert(b.subrange(1, 1 + wire::vbi(n).len() as int) =~= wire::vbi(n));
    wire::lemma_vbi_read(b, 1, n, 4);
    assert(b.subrange(b.len() - n, b.len() as int) =~= body);
}

/// An acknowledgement carries its identifier in two bytes and nothing else; a ping, its
/// answer and a DISCONNECT carry nothing.
pub proof fn law_short_packets(id: u16)
    ensures
        ({
            let id_only = seq![(id / 256) as u8, (id % 256) as u8];
            &&& codec::body_of(packet::PacketModel::Puback(id)) == Ok::<Seq<u8>, MqttError>(id_only)
            &&& codec::body_of(packet::PacketModel::Pubrec(id)) == Ok::<Seq<u8>, MqttError>(id_only)
            &&& codec::body_of(packet::PacketModel::Pubrel(id)) == Ok::<Seq<u8>, MqttError>(id_only)
            &&& codec::body_of(packet::PacketModel::Pubcomp(id)) == Ok::<Seq<u8>, MqttError>(
                id_only,
            )
            &&& forall|codes: Seq<u8>|
                #[trigger] codec::body_of(
                    packet::PacketModel::Unsuback { packet_id: id, reason_codes: codes },
                ) == Ok::<Seq<u8>, MqttError>(id_only)
            &&& codec::body_of(packet::PacketModel::Pingreq) == Ok::<Seq<u8>, MqttError>(seq![])
            &&& codec::body_of(packet::PacketModel::Pingresp) == Ok::<Seq<u8>, MqttError>(seq![])
            &&& codec::body_of(packet::PacketModel::Disconnect) == Ok::<Seq<u8>, MqttError>(seq![])
        }),
{
}

/// A CONNACK carries whether a session was waiting, as 1 or 0, and the number of its
/// code.
pub proof fn law_connack_bytes(c: packet::ConnackModel)
    ensures
        codec::body_of(packet::PacketModel::Connack(c)) is Ok,
        ({
            let b = codec::body_of(packet::PacketModel::Connack(c))->Ok_0;
            &&& b.len() == 2
            &&& b[0] == one_if(c.session_present)
            &&& b[1] == match c.return_code {
                ConnackReturnCode::Accepted => 0int,
                ConnackReturnCode::UnacceptableProtocolVersion => 1,
                ConnackReturnCode::IdentifierRejected => 2,
                ConnackReturnCode::ServerUnavailable => 3,
                ConnackReturnCode::BadUsernameOrPassword => 4,
                ConnackReturnCode::NotAuthorized => 5,
            }
        }),
{
}

/// A SUBACK carries its identifier and one byte for each filter: the level that was
/// granted, or 128.
pub proof fn law_suback_bytes(id: u16, codes: Seq<SubackCode>, i: int)
    requires
        0 <= i < codes.len(),
    ensures
        ({
            let body = codec::body_of(
                packet::PacketModel::Suback { packet_id: id, return_codes: codes },
            );
            let b = body->Ok_0;
            &&& body is Ok
            &&& b.len() == 2 + codes.len()
            &&& b[0] * 256 + b[1] == id
            &&& b[2 + i] == match codes[i] {
                SubackCode::Granted(q) => level(q),
                SubackCode::Failure => 128,
            }
        }),
{
}

/// A PUBLISH carries its topic as a field, above QoS 0 its identifier in two bytes, and
/// then the payload to the end. Above QoS 0 it cannot go without an identifier other
/// than 0, and no topic of more than 65 535 bytes can go at all.
pub proof fn law_publish_bytes(p: packet::PublishModel)
    ensures
        ({
            let body = codec::body_of(packet::PacketModel::Publish(p));
            let b = body->Ok_0;
            let t = encode_utf8(p.topic);
            let n = t.len() as int;
            &&& body is Ok <==> n <= 65_535 && (level(p.qos) > 0 ==> p.packet_id is Some
                && p.packet_id->0 != 0)
            &&& n <= 65_535 && body is Err ==> body == Err::<Seq<u8>, MqttError>(
                MqttError::Codec(CodecError::QosRequiresPacketId),
            )
            &&& body is Ok ==> {
                &&& b[0] * 256 + b[1] == n
                &&& b.subrange(2, 2 + n) == t
                &&& level(p.qos) == 0 ==> b.subrange(2 + n, b.len() as int) == p.payload
                &&& level(p.qos) > 0 ==> {
                    &&& b[2 + n] * 256 + b[3 + n] == p.packet_id->0
                    &&& b.subrange(4 + n, b.len() as int) == p.payload
                }
            }
        }),
{
    let body = codec::body_of(packet::PacketModel::Publish(p));
    let t = encode_utf8(p.topic);
    let n = t.len() as int;
    if body is Ok {
        let b = body->Ok_0;
        assert(b =~= wire::be16_bytes(n as u16) + t + codec::id_bytes(p) + p.payload);
        assert(b.subrange(2, 2 + n) =~= t);
        if p.qos == QoS::AtMostOnce {
            assert(b.subrange(2 + n, b.len() as int) =~= p.payload);
        } else {
            assert(b.subrange(4 + n, b.len() as int) =~= p.payload);
        }
    }
}

/// A SUBSCRIBE carries its identifier, and then for each filter in turn its text as a
/// field and the level that is asked for: one filter more adds just that at the end.
pub proof fn law_subscribe_bytes(id: u16, subs: Seq<(Seq<char>, QoS)>, more: (Seq<char>, QoS))
    requires
        codec::body_of(
            packet::PacketModel::Subscribe { packet_id: id, subscriptions: subs },
        ) is Ok,
        encode_utf8(more.0).len() <= 65_535,
    ensures
        ({
            let none = codec::body_of(
                packet::PacketModel::Subscribe { packet_id: id, subscriptions: seq![] },
            );
            let b = codec::body_of(
                packet::PacketModel::Subscribe { packet_id: id, subscriptions: subs },
            )->Ok_0;
            let longer = codec::body_of(
                packet::PacketModel::Subscribe { packet_id: id, subscriptions: subs.push(more) },
            );
            let t = encode_utf8(more.0);
            &&& none == Ok::<Seq<u8>, MqttError>(seq![(id / 256) as u8, (id % 256) as u8])
            &&& longer == Ok::<Seq<u8>, MqttError>(
                b + seq![(t.len() / 256) as u8, (t.len() % 256) as u8] + t + seq![
                    level(more.1) as u8,
                ],
            )
        }),
{
    let b = codec::body_of(
        packet::PacketModel::Subscribe { packet_id: id, subscriptions: subs },
    )->Ok_0;
    let t = encode_utf8(more.0);
    assert(subs.push(more).drop_last() =~= subs);
    assert(b + wire::field(t) + seq![level(more.1) as u8] =~= b + seq![
        (t.len() / 256) as u8,
        (t.len() % 256) as u8,
    ] + t + seq![level(more.1) as u8]);
    assert((b + wire::field(t)).push(level(more.1) as u8) =~= b + wire::field(t) + seq![
        level(more.1) as u8,
    ]);
}

/// An UNSUBSCRIBE carries its identifier, and then each filter in turn as a field.
pub proof fn law_unsubscribe_bytes(id: u16, topics: Seq<Seq<char>>, more: Seq<char>)
    requires
        codec::body_of(packet::PacketModel::Unsubscribe { packet_id: id, topics }) is Ok,
        encode_utf8(more).len() <= 65_535,
    ensures
        ({
            let none = codec::body_of(
                packet::PacketModel::Unsubscribe { packet_id: id, topics: seq![] },
            );
            let b = codec::body_of(
                packet::PacketModel::Unsubscribe { packet_id: id, topics },
            )->Ok_0;
            let longer = codec::body_of(
                packet::PacketModel::Unsubscribe { packet_id: id, topics: topics.push(more) },
            );
            let t = encode_utf8(more);
            &&& none == Ok::<Seq<u8>, MqttError>(seq![(id / 256) as u8, (id % 256) as u8])
            &&& longer == Ok::<Seq<u8>, MqttError>(
                b + seq![(t.len() / 256) as u8, (t.len() % 256) as u8] + t,
            )
        }),
{
    let b = codec::body_of(packet::PacketModel::Unsubscribe { packet_id: id, topics })->Ok_0;
    let t = encode_utf8(more);
    assert(topics.push(more).drop_last() =~= topics);
    assert(b + wire::field(t) =~= b + seq![(t.len() / 256) as u8, (t.len() % 256) as u8] + t);
}

/// The field of a text or of bytes that may not be there.
pub open spec fn field_if(there: bool, raw: Seq<u8>) -> Seq<u8> {
    if there {
        seq![(raw.len() / 256) as u8, (raw.len() % 256) as u8] + raw
    } else {
        seq![]
    }
}

proof fn lemma_five(a: Seq<u8>, b: Seq<u8>, c: Seq<u8>, d: Seq<u8>, e: Seq<u8>, f: Seq<u8>)
    ensures
        a + b + c + d + e + f == a + (b + c + d + e + f),
{
    assert(a + b + c + d + e + f =~= a + (b + c + d + e + f));
}

proof fn lemma_appended(acc: Seq<u8>, raw: Seq<u8>, kind: &'static str)
    requires
        raw.len() <= 65_535,
    ensures
        codec::append_field(Ok(acc), raw, kind) == Ok::<Seq<u8>, MqttError>(
            acc + field_if(true, raw),
        ),
{
    assert(wire::field(raw) =~= field_if(true, raw));
}

proof fn lemma_connect_parts(c: packet::ConnectModel)
    requires
        encode_utf8(c.client_id).len() <= 65_535,
        c.will matches Some(w) ==> encode_utf8(w.topic).len() <= 65_535 && w.payload.len()
            <= 65_535,
        c.username matches Some(u) ==> encode_utf8(u).len() <= 65_535,
        c.password matches Some(p) ==> p.len() <= 65_535,
    ensures
        ({
            let will = c.will is Some;
            codec::body_of(packet::PacketModel::Connect(c)) == Ok::<Seq<u8>, MqttError>(
                codec::connect_fixed(c) + (field_if(true, encode_utf8(c.client_id)) + field_if(
                    will,
                    encode_utf8(c.will->0.topic),
                ) + field_if(will, c.will->0.payload) + field_if(
                    c.username is Some,
                    encode_utf8(c.username->0),
                ) + field_if(c.password is Some, c.password->0)),
            )
        }),
{
    let fixed = codec::connect_fixed(c);
    let f1 = field_if(true, encode_utf8(c.client_id));
    let will = c.will is Some;
    let f2 = field_if(will, encode_utf8(c.will->0.topic));
    let f3 = field_if(will, c.will->0.payload);
    let f4 = field_if(c.username is Some, encode_utf8(c.username->0));
    let f5 = field_if(c.password is Some, c.password->0);
    lemma_five(fixed, f1, f2, f3, f4, f5);
    lemma_appended(fixed, encode_utf8(c.client_id), "client_id");
    let a1 = fixed + f1;
    let a2 = a1 + f2;
    let a3 = a2 + f3;
    let a4 = a3 + f4;
    match c.will {
        Some(w) => {
            lemma_appended(a1, encode_utf8(w.topic), "will.topic");
            lemma_appended(a2, w.payload, "will.payload");
        },
        None => {
            assert(a2 =~= a1);
            assert(a3 =~= a2);
        },
    }
    match c.username {
        Some(u) => {
            lemma_appended(a3, encode_utf8(u), "username");
        },
        None => {
            assert(a4 =~= a3);
        },
    }
    match c.password {
        Some(p) => {
            lemma_appended(a4, p, "password");
        },
        None => {
            assert(a4 + f5 =~= a4);
        },
    }
}

/// A CONNECT carries the name `MQTT` as a field and the level 4; a byte of flags, from
/// the lowest bit: none, clean session, will, two bits of the will's level, the will's
/// retain flag, password, user name; the keep-alive in two bytes; and then as fields
/// the client identifier, the will's topic and payload, the user name and the password,
/// as far as they are there. No field can be longer than 65 535 bytes.
pub proof fn law_connect_bytes(c: packet::ConnectModel)
    requires
        encode_utf8(c.client_id).len() <= 65_535,
        c.will matches Some(w) ==> encode_utf8(w.topic).len() <= 65_535 && w.payload.len()
            <= 65_535,
        c.username matches Some(u) ==> encode_utf8(u).len() <= 65_535,
        c.password matches Some(p) ==> p.len() <= 65_535,
    ensures
        ({
            let body = codec::body_of(packet::PacketModel::Connect(c));
            let b = body->Ok_0;
            let will = c.will is Some;
            let flags = 2 * one_if(c.clean_session) + 4 * one_if(will) + (if will {
                8 * level(c.will->0.qos) + 32 * one_if(c.will->0.retain)
            } else {
                0
            }) + 64 * one_if(c.password is Some) + 128 * one_if(c.username is Some);
            &&& body is Ok
            &&& b.subrange(0, 6) == seq![0u8, 4, 77, 81, 84, 84]
            &&& b[6] == 4
            &&& b[7] == flags
            &&& b[8] * 256 + b[9] == c.keep_alive
            &&& b.subrange(10, b.len() as int) == field_if(true, encode_utf8(c.client_id))
                + field_if(will, encode_utf8(c.will->0.topic)) + field_if(will, c.will->0.payload)
                + field_if(c.username is Some, encode_utf8(c.username->0)) + field_if(
                c.password is Some,
                c.password->0,
            )
        }),
{
    let fixed = codec::connect_fixed(c);
    let f1 = field_if(true, encode_utf8(c.client_id));
    let will = c.will is Some;
    let f2 = field_if(will, encode_utf8(c.will->0.topic));
    let f3 = field_if(will, c.will->0.payload);
    let f4 = field_if(c.username is Some, encode_utf8(c.username->0));
    let f5 = field_if(c.password is Some, c.password->0);
    lemma_connect_parts(c);
    let tail = f1 + f2 + f3 + f4 + f5;
    let b = codec::body_of(packet::PacketModel::Connect(c))->Ok_0;
    assert(b == fixed + tail);
    assert(fixed.len() == 10);
    assert(fixed.subrange(0, 6) =~= seq![0u8, 4, 77, 81, 84, 84]);
    assert(b.subrange(0, 6) =~= fixed.subrange(0, 6));
    assert(b.subrange(10, b.len() as int) =~= tail);
    assert(b[6] == fixed[6] && b[7] == fixed[7] && b[8] == fixed[8] && b[9] == fixed[9]);
}

// ----------------------------------------------------------------------------
// Bytes as packets
// ----------------------------------------------------------------------------

/// What the start of a stream is: with fewer than two bytes nothing yet; a first byte
/// below 16 is no packet; a length that is malformed or beyond the limit is refused as
/// soon as it can be read; and otherwise a packet is there once all of its bytes are.
pub proof fn law_start_of_a_stream(b: Seq<u8>, max: usize)
    ensures
        b.len() < 2 ==> codec::head_of(b, max) is Partial,
        b.len() >= 2 && b[0] < 16 ==> codec::head_of(b, max) == codec::Head::Refused(
            MqttError::Codec(CodecError::InvalidPacketType(0)),
        ),
        b.len() >= 2 && b[0] >= 16 ==> match wire::vbi_at(b, 1, 4) {
            Ok((n, p)) => {
                &&& n > max ==> codec::head_of(b, max) == codec::Head::Refused(
                    MqttError::Protocol(Violation::PacketTooLarge { len: n as usize, max }),
                )
                &&& n <= max && b.len() < p + n ==> codec::head_of(b, max) is Partial
                &&& n <= max && b.len() >= p + n ==> {
                    &&& codec::head_of(b, max) matches codec::Head::Whole { total, packet }
                    &&& total == p + n
                    &&& codec::type_of(b[0]) is Some
                    &&& packet == codec::parse_model(
                        b[0],
                        codec::type_of(b[0])->0,
                        b.subrange(p, p + n),
                    )
                }
            },
            Err(e) => if e == MqttError::Codec(CodecError::UnexpectedEof) {
                codec::head_of(b, max) is Partial
            } else {
                codec::head_of(b, max) == codec::Head::Refused(e)
            },
        },
{
}

/// The upper half of the first byte is the kind of the packet, by number.
pub proof fn law_kinds(first: u8)
    ensures
        codec::type_of(first) is None <==> first < 16,
        codec::type_of(first) == Some(PacketType::Connect) <==> first / 16 == 1,
        codec::type_of(first) == Some(PacketType::Connack) <==> first / 16 == 2,
        codec::type_of(first) == Some(PacketType::Publish) <==> first / 16 == 3,
        codec::type_of(first) == Some(PacketType::Puback) <==> first / 16 == 4,
        codec::type_of(first) == Some(PacketType::Pubrec) <==> first / 16 == 5,
        codec::type_of(first) == Some(PacketType::Pubrel) <==> first / 16 == 6,
        codec::type_of(first) == Some(PacketType::Pubcomp) <==> first / 16 == 7,
        codec::type_of(first) == Some(PacketType::Subscribe) <==> first / 16 == 8,
        codec::type_of(first) == Some(PacketType::Suback) <==> first / 16 == 9,
        codec::type_of(first) == Some(PacketType::Unsubscribe) <==> first / 16 == 10,
        codec::type_of(first) == Some(PacketType::Unsuback) <==> first / 16 == 11,
        codec::type_of(first) == Some(PacketType::Pingreq) <==> first / 16 == 12,
        codec::type_of(first) == Some(PacketType::Pingresp) <==> first / 16 == 13,
        codec::type_of(first) == Some(PacketType::Disconnect) <==> first / 16 == 14,
        codec::type_of(first) == Some(PacketType::Auth) <==> first / 16 == 15,
{
}

/// An acknowledgement is two bytes, with the flags of its kind, and its identifier is
/// not 0; anything else is refused, for its length first, then its flags.
pub proof fn law_acknowledgements_are_read(first: u8, b: Seq<u8>)
    ensures
        forall|t: PacketType|
            t is Puback || t is Pubrec || t is Pubrel || t is Pubcomp ==> {
                let flags: int = if t is Pubrel {
                    2
                } else {
                    0
                };
                let r = #[trigger] codec::parse_model(first, t, b);
                let id = b[0] * 256 + b[1];
                &&& r is Ok <==> b.len() == 2 && first % 16 == flags && id != 0
                &&& b.len() != 2 ==> r == Err::<packet::PacketModel, MqttError>(
                    MqttError::Codec(
                        CodecError::PayloadTooLong { len: b.len() as usize, max: 2 },
                    ),
                )
                &&& b.len() == 2 && first % 16 != flags ==> r == Err::<
                    packet::PacketModel,
                    MqttError,
                >(MqttError::Codec(CodecError::ReservedFlagSet))
                &&& b.len() == 2 && first % 16 == flags && id == 0 ==> r == Err::<
                    packet::PacketModel,
                    MqttError,
                >(MqttError::Protocol(Violation::PacketIdZero))
                &&& r is Ok ==> {
                    &&& t is Puback ==> r->Ok_0 == packet::PacketModel::Puback(id as u16)
                    &&& t is Pubrec ==> r->Ok_0 == packet::PacketModel::Pubrec(id as u16)
                    &&& t is Pubrel ==> r->Ok_0 == packet::PacketModel::Pubrel(id as u16)
                    &&& t is Pubcomp ==> r->Ok_0 == packet::PacketModel::Pubcomp(id as u16)
                }
            },
{
}

/// A ping, its answer and a DISCONNECT carry nothing; an AUTH is never read.
pub proof fn law_bare_packets_are_read(first: u8, b: Seq<u8>)
    ensures
        b.len() == 0 ==> {
            &&& codec::parse_model(first, PacketType::Pingreq, b) == Ok::<
                packet::PacketModel,
                MqttError,
            >(packet::PacketModel::Pingreq)
            &&& codec::parse_model(first, PacketType::Pingresp, b) == Ok::<
                packet::PacketModel,
                MqttError,
            >(packet::PacketModel::Pingresp)
            &&& codec::parse_model(first, PacketType::Disconnect, b) == Ok::<
                packet::PacketModel,
                MqttError,
            >(packet::PacketModel::Disconnect)
        },
        b.len() != 0 ==> forall|t: PacketType|
            t is Pingreq || t is Pingresp || t is Disconnect ==> #[trigger] codec::parse_model(
                first,
                t,
                b,
            ) == Err::<packet::PacketModel, MqttError>(
                MqttError::Codec(CodecError::PayloadTooLong { len: b.len() as usize, max: 0 }),
            ),
        codec::parse_model(first, PacketType::Auth, b) == Err::<packet::PacketModel, MqttError>(
            MqttError::Protocol(Violation::UnexpectedAuthPacket),
        ),
{
}

/// Which CONNACK is read: one of at least two bytes, with the first one 0 or 1 and the
/// second one of the six codes, and with a session only where the code accepts.
pub proof fn law_connack_is_read(first: u8, b: Seq<u8>)
    ensures
        ({
            let r = codec::parse_model(first, PacketType::Connack, b);
            &&& r is Ok <==> b.len() >= 2 && b[0] <= 1 && b[1] <= 5 && (b[0] == 1 ==> b[1] == 0)
            &&& r matches Ok(m) ==> {
                &&& m matches packet::PacketModel::Connack(c)
                &&& c.session_present <==> b[0] == 1
                &&& c.return_code is Accepted <==> b[1] == 0
                &&& c.return_code is UnacceptableProtocolVersion <==> b[1] == 1
                &&& c.return_code is IdentifierRejected <==> b[1] == 2
                &&& c.return_code is ServerUnavailable <==> b[1] == 3
                &&& c.return_code is BadUsernameOrPassword <==> b[1] == 4
                &&& c.return_code is NotAuthorized <==> b[1] == 5
            }
            &&& b.len() < 2 ==> r == Err::<packet::PacketModel, MqttError>(
                MqttError::Codec(CodecError::UnexpectedEof),
            )
            &&& b.len() >= 2 && b[0] > 1 ==> r == Err::<packet::PacketModel, MqttError>(
                MqttError::Protocol(Violation::ConnackReservedBits),
            )
            &&& b.len() >= 2 && b[0] <= 1 && b[1] > 5 ==> r == Err::<
                packet::PacketModel,
                MqttError,
            >(MqttError::Codec(CodecError::InvalidPacketType(b[1])))
            &&& b.len() >= 2 && b[0] == 1 && 0 < b[1] <= 5 ==> r == Err::<
                packet::PacketModel,
                MqttError,
            >(MqttError::Protocol(Violation::SessionPresentWithError))
        }),
{
}

/// What a CONNECT is refused for before its fields are read: fewer than ten bytes, a
/// name other than `MQTT`, a level other than 4, and flags that contradict themselves:
/// the lowest bit set, a level or a retain flag without a will, and a password without
/// a user name.
pub proof fn law_connect_is_checked(first: u8, b: Seq<u8>)
    ensures
        ({
            let r = codec::parse_model(first, PacketType::Connect, b);
            let named = b.subrange(0, 6) == seq![0u8, 4, 77, 81, 84, 84];
            let f = b[7] as int;
            let will = f / 4 % 2 == 1;
            let bad = f % 2 == 1 || (!will && (f / 8 % 4 != 0 || f / 32 % 2 == 1)) || (f / 64 % 2
                == 1 && f / 128 == 0);
            &&& b.len() < 10 ==> r == Err::<packet::PacketModel, MqttError>(
                MqttError::Codec(CodecError::UnexpectedEof),
            )
            &&& b.len() >= 10 && !named ==> r == Err::<packet::PacketModel, MqttError>(
                MqttError::Protocol(Violation::InvalidProtocolName),
            )
            &&& b.len() >= 10 && named && b[6] != 4 ==> r == Err::<packet::PacketModel, MqttError>(
                MqttError::Protocol(Violation::UnsupportedProtocolLevel(b[6])),
            )
            &&& b.len() >= 10 && named && b[6] == 4 && bad ==> r == Err::<
                packet::PacketModel,
                MqttError,
            >(MqttError::Protocol(Violation::ReservedHeaderBits))
            &&& r matches Ok(m) ==> {
                &&& b.len() >= 10 && named && b[6] == 4 && !bad
                &&& m matches packet::PacketModel::Connect(c)
                &&& c.version == ProtocolVersion::V311
                &&& c.clean_session <==> f / 2 % 2 == 1
                &&& c.keep_alive == b[8] * 256 + b[9]
                &&& c.will is Some <==> will
                &&& c.username is Some <==> f / 128 == 1
                &&& c.password is Some <==> f / 64 % 2 == 1
                &&& c.will matches Some(w) ==> {
                    &&& level(w.qos) == f / 8 % 4
                    &&& w.retain <==> f / 32 % 2 == 1
                }
            }
        }),
{
    let f = b[7];
    assert(codec::bit(f, 128) == (f / 128 == 1));
}

/// The field at a place, and where the next one starts, as far as it is there.
pub open spec fn next_field(b: Seq<u8>, at: int, there: bool) -> int {
    if there {
        at + 2 + b[at] * 256 + b[at + 1]
    } else {
        at
    }
}

/// The fields of a CONNECT stand in this order: client identifier, the will's topic and
/// payload, user name and password.
pub proof fn law_connect_fields_in_order(first: u8, b: Seq<u8>)
    requires
        codec::parse_model(first, PacketType::Connect, b) is Ok,
    ensures
        ({
            let c = codec::parse_model(first, PacketType::Connect, b)->Ok_0->Connect_0;
            let p1 = next_field(b, 10, true);
            let p2 = next_field(b, p1, c.will is Some);
            let p3 = next_field(b, p2, c.will is Some);
            let p4 = next_field(b, p3, c.username is Some);
            let p5 = next_field(b, p4, c.password is Some);
            &&& p5 <= b.len()
            &&& c.client_id == decode_utf8(b.subrange(12, p1))
            &&& c.will is Some ==> {
                &&& c.will->0.topic == decode_utf8(b.subrange(p1 + 2, p2))
                &&& c.will->0.payload == b.subrange(p2 + 2, p3)
            }
            &&& c.username is Some ==> c.username->0 == decode_utf8(b.subrange(p3 + 2, p4))
            &&& c.password is Some ==> c.password->0 == b.subrange(p4 + 2, p5)
        }),
{
}

/// What a PUBLISH is read as, and refused for: the level 3, a duplicate at QoS 0, an
/// empty topic, one with a wildcard, and the identifier 0.
pub proof fn law_publish_is_read(first: u8, b: Seq<u8>)
    ensures
        ({
            let r = codec::parse_model(first, PacketType::Publish, b);
            let q = first / 2 % 4;
            let n = b[0] * 256 + b[1];
            let at = if q == 0 {
                2 + n
            } else {
                4 + n
            };
            &&& b.len() < 2 ==> r == Err::<packet::PacketModel, MqttError>(
                MqttError::Codec(CodecError::UnexpectedEof),
            )
            &&& b.len() >= 2 && q == 3 ==> r == Err::<packet::PacketModel, MqttError>(
                MqttError::Codec(CodecError::QosInvalid(3)),
            )
            &&& b.len() >= 2 && q == 0 && first / 8 % 2 == 1 ==> r == Err::<
                packet::PacketModel,
                MqttError,
            >(MqttError::Protocol(Violation::DupSetOnQos0))
            &&& b.len() >= 2 && q != 3 && !(q == 0 && first / 8 % 2 == 1) && n == 0 ==> r is Err
            &&& r matches Ok(m) ==> {
                &&& b.len() >= at
                &&& m matches packet::PacketModel::Publish(p)
                &&& level(p.qos) == q
                &&& p.dup <==> first / 8 % 2 == 1
                &&& p.retain <==> first % 2 == 1
                &&& p.topic == decode_utf8(b.subrange(2, 2 + n))
                &&& p.topic.len() > 0
                &&& !p.topic.contains('+')
                &&& !p.topic.contains('#')
                &&& !p.topic.contains('\0')
                &&& p.packet_id is None <==> q == 0
                &&& q > 0 ==> p.packet_id->0 == b[2 + n] * 256 + b[3 + n] && p.packet_id->0 != 0
                &&& p.payload == b.subrange(at, b.len() as int)
            }
        }),
{
    let r = codec::parse_model(first, PacketType::Publish, b);
    if b.len() >= 2 && b[0] * 256 + b[1] == 0 && wire::text_at(b, 0) is Ok {
        let raw = b.subrange(2, 2);
        assert(raw =~= Seq::<u8>::empty());
        let s = decode_utf8(raw);
        decode_utf8_encode_utf8(raw);
        if s.len() > 0 {
            crate::text::lemma_encode_len(s);
        }
    }
}

/// A SUBSCRIBE and an UNSUBSCRIBE have 2 as their flags, and their identifier in front;
/// a SUBACK has an identifier other than 0 and at least one code, each a level or 128.
pub proof fn law_subscription_packets_are_checked(first: u8, b: Seq<u8>)
    ensures
        first % 16 != 2 ==> codec::parse_model(first, PacketType::Subscribe, b) == Err::<
            packet::PacketModel,
            MqttError,
        >(MqttError::Protocol(Violation::SubscribeReservedBits)),
        first % 16 != 2 ==> codec::parse_model(first, PacketType::Unsubscribe, b) == Err::<
            packet::PacketModel,
            MqttError,
        >(MqttError::Protocol(Violation::UnsubscribeReservedBits)),
        codec::parse_model(first, PacketType::Subscribe, b) matches Ok(m) ==> {
            &&& m matches packet::PacketModel::Subscribe { packet_id, .. }
            &&& packet_id == b[0] * 256 + b[1]
        },
        codec::parse_model(first, PacketType::Unsubscribe, b) matches Ok(m) ==> {
            &&& m matches packet::PacketModel::Unsubscribe { packet_id, .. }
            &&& packet_id == b[0] * 256 + b[1]
        },
        codec::parse_model(first, PacketType::Suback, b) matches Ok(m) ==> {
            &&& m matches packet::PacketModel::Suback { packet_id, .. }
            &&& packet_id == b[0] * 256 + b[1]
            &&& packet_id != 0
        },
        b.len() >= 3 && b[0] == 0 && b[1] == 0 ==> codec::parse_model(first, PacketType::Suback, b)
            == Err::<packet::PacketModel, MqttError>(
            MqttError::Protocol(Violation::PacketIdZero),
        ),
        codec::parse_model(first, PacketType::Unsuback, b) is Ok <==> b.len() == 2 && b[0] * 256
            + b[1] != 0,
        codec::parse_model(first, PacketType::Unsuback, b) matches Ok(m) ==> {
            &&& m matches packet::PacketModel::Unsuback { packet_id, reason_codes }
            &&& packet_id == b[0] * 256 + b[1]
            &&& reason_codes.len() == 0
        },
{
}

proof fn lemma_codes(b: Seq<u8>, at: int, acc: Seq<SubackCode>)
    requires
        0 <= at,
    ensures
        codec::codes_at(b, at, acc) matches Ok(codes) ==> {
            &&& codes.len() == acc.len() + (if at <= b.len() {
                b.len() - at
            } else {
                0
            })
            &&& forall|i: int| 0 <= i < acc.len() ==> #[trigger] codes[i] == acc[i]
            &&& forall|i: int|
                at <= i < b.len() ==> codes[acc.len() + i - at] == (if #[trigger] b[i] == 128 {
                    SubackCode::Failure
                } else if b[i] == 0 {
                    SubackCode::Granted(QoS::AtMostOnce)
                } else if b[i] == 1 {
                    SubackCode::Granted(QoS::AtLeastOnce)
                } else {
                    SubackCode::Granted(QoS::ExactlyOnce)
                })
            &&& forall|i: int| at <= i < b.len() ==> #[trigger] b[i] <= 2 || b[i] == 128
        },
    decreases b.len() - at,
{
    if at < b.len() {
        if let Some(c) = request::suback_from_byte(b[at]) {
            lemma_codes(b, at + 1, acc.push(c));
            if let Ok(codes) = codec::codes_at(b, at, acc) {
                assert forall|i: int| 0 <= i < acc.len() implies #[trigger] codes[i] == acc[i] by {
                    assert(acc.push(c)[i] == acc[i]);
                    assert(codes[i] == acc.push(c)[i]);
                }
                assert(codes[acc.len() as int] == acc.push(c)[acc.len() as int]);
            }
        }
    }
}

/// The codes of a SUBACK are its bytes behind the identifier, one each: 0, 1 and 2 for
/// the level that was granted, 128 for a refusal. Any other byte is refused.
pub proof fn law_suback_codes_are_read(first: u8, b: Seq<u8>, i: int)
    requires
        codec::parse_model(first, PacketType::Suback, b) is Ok,
        2 <= i < b.len(),
    ensures
        ({
            let codes = codec::parse_model(
                first,
                PacketType::Suback,
                b,
            )->Ok_0->Suback_return_codes;
            &&& codes.len() == b.len() - 2
            &&& b[i] == 128 ==> codes[i - 2] == SubackCode::Failure
            &&& b[i] == 0 ==> codes[i - 2] == SubackCode::Granted(QoS::AtMostOnce)
            &&& b[i] == 1 ==> codes[i - 2] == SubackCode::Granted(QoS::AtLeastOnce)
            &&& b[i] == 2 ==> codes[i - 2] == SubackCode::Granted(QoS::ExactlyOnce)
            &&& b[i] <= 2 || b[i] == 128
        }),
{
    lemma_codes(b, 2, seq![]);
}

/// The bytes of a text that was read are those it was read from.
proof fn lemma_text_read_back(b: Seq<u8>, at: int)
    requires
        0 <= at,
        wire::text_at(b, at) is Ok,
    ensures
        ({
            let (s, p) = wire::text_at(b, at)->Ok_0;
            &&& at + 2 <= p <= b.len()
            &&& encode_utf8(s).len() <= 65_535
            &&& wire::field(encode_utf8(s)) == b.subrange(at, p)
        }),
{
    let (s, p) = wire::text_at(b, at)->Ok_0;
    let raw = wire::field_at(b, at)->Ok_0.0;
    decode_utf8_encode_utf8(raw);
    assert(encode_utf8(s) == raw);
    assert(wire::field(raw) =~= b.subrange(at, p));
}

proof fn lemma_filters_read_back(
    b: Seq<u8>,
    at: int,
    acc: Seq<(Seq<char>, QoS)>,
    head: Seq<u8>,
)
    requires
        0 <= at <= b.len(),
        codec::filters_at(b, at, acc) is Ok,
        codec::filters_bytes(head, acc) == Ok::<Seq<u8>, MqttError>(b.subrange(0, at)),
    ensures
        codec::filters_bytes(head, codec::filters_at(b, at, acc)->Ok_0) == Ok::<Seq<u8>, MqttError>(
            b,
        ),
    decreases b.len() - at,
{
    if at < b.len() {
        let (s, p) = wire::text_at(b, at)->Ok_0;
        let q = request::qos_from_level(b[p])->0;
        lemma_text_read_back(b, at);
        let next = acc.push((s, q));
        assert(next.drop_last() =~= acc);
        assert((b.subrange(0, at) + b.subrange(at, p)).push(b[p]) =~= b.subrange(0, p + 1));
        assert(request::qos_level(q) == b[p]);
        lemma_filters_read_back(b, p + 1, next, head);
    } else {
        assert(b.subrange(0, at) =~= b);
    }
}

proof fn lemma_topics_read_back(b: Seq<u8>, at: int, acc: Seq<Seq<char>>, head: Seq<u8>)
    requires
        0 <= at <= b.len(),
        codec::topics_at(b, at, acc) is Ok,
        codec::topics_bytes(head, acc) == Ok::<Seq<u8>, MqttError>(b.subrange(0, at)),
    ensures
        codec::topics_bytes(head, codec::topics_at(b, at, acc)->Ok_0) == Ok::<Seq<u8>, MqttError>(
            b,
        ),
    decreases b.len() - at,
{
    if at < b.len() {
        let (s, p) = wire::text_at(b, at)->Ok_0;
        lemma_text_read_back(b, at);
        let next = acc.push(s);
        assert(next.drop_last() =~= acc);
        assert(b.subrange(0, at) + b.subrange(at, p) =~= b.subrange(0, p));
        lemma_topics_read_back(b, p, next, head);
    } else {
        assert(b.subrange(0, at) =~= b);
    }
}

proof fn lemma_suback_read_back(b: Seq<u8>)
    requires
        codec::suback_model(b) is Ok,
    ensures
        codec::body_of(codec::suback_model(b)->Ok_0) == Ok::<Seq<u8>, MqttError>(b),
{
    lemma_codes(b, 2, seq![]);
    let codes = codec::codes_at(b, 2, seq![])->Ok_0;
    let written = codec::codes_bytes(codes);
    assert forall|i: int| 2 <= i < b.len() implies #[trigger] b[i] == written[i - 2] by {}
    let head = wire::be16_bytes(wire::be16(b[0], b[1]));
    assert(head =~= b.subrange(0, 2));
    assert(head + written =~= b);
}

proof fn lemma_publish_read_back(first: u8, b: Seq<u8>)
    requires
        codec::publish_model(first, b) is Ok,
    ensures
        codec::publish_body(codec::publish_model(first, b)->Ok_0) == Ok::<Seq<u8>, MqttError>(b),
{
    let p = codec::publish_model(first, b)->Ok_0;
    lemma_text_read_back(b, 0);
    let at = wire::text_at(b, 0)->Ok_0.1;
    let t = encode_utf8(p.topic);
    let ids = codec::id_bytes(p);
    assert(Seq::<u8>::empty() + wire::field(t) =~= b.subrange(0, at));
    if p.qos == QoS::AtMostOnce {
        assert(b.subrange(0, at) + ids + p.payload =~= b);
    } else {
        assert(ids =~= b.subrange(at, at + 2));
        assert(b.subrange(0, at) + ids + p.payload =~= b);
    }
}

/// Nothing is lost or made up in reading: a SUBSCRIBE, an UNSUBSCRIBE, a SUBACK, a
/// PUBLISH and an acknowledgement are written again as the very bytes they were read
/// from.
pub proof fn law_read_packets_are_written_back(first: u8, t: PacketType, b: Seq<u8>)
    requires
        codec::parse_model(first, t, b) is Ok,
        t is Subscribe || t is Unsubscribe || t is Suback || t is Publish || t is Puback
            || t is Pubrec || t is Pubrel || t is Pubcomp || t is Unsuback,
    ensures
        codec::body_of(codec::parse_model(first, t, b)->Ok_0) == Ok::<Seq<u8>, MqttError>(b),
{
    match t {
        PacketType::Subscribe => {
            let head = wire::be16_bytes(wire::be16(b[0], b[1]));
            assert(head =~= b.subrange(0, 2));
            lemma_filters_read_back(b, 2, seq![], head);
        },
        PacketType::Unsubscribe => {
            let head = wire::be16_bytes(wire::be16(b[0], b[1]));
            assert(head =~= b.subrange(0, 2));
            lemma_topics_read_back(b, 2, seq![], head);
        },
        PacketType::Suback => {
            lemma_suback_read_back(b);
        },
        PacketType::Publish => {
            lemma_publish_read_back(first, b);
        },
        _ => {
            assert(wire::be16_bytes(wire::be16(b[0], b[1])) =~= b);
        },
    }
}

// ----------------------------------------------------------------------------
// Property blocks
// ----------------------------------------------------------------------------

/// Which value stands under which identifier.
pub proof fn law_property_identifiers(p: properties::Properties)
    ensures
        properties::single(p, 0x01) == properties::byte_value(p.payload_format_indicator),
        properties::single(p, 0x02) == properties::four_value(p.message_expiry_interval),
        properties::single(p, 0x03) == properties::text_value(p.content_type),
        properties::single(p, 0x08) == properties::text_value(p.response_topic),
        properties::single(p, 0x09) == properties::data_value(p.correlation_data),
        properties::single(p, 0x11) == properties::four_value(p.session_expiry_interval),
        properties::single(p, 0x12) == properties::text_value(p.assigned_client_identifier),
        properties::single(p, 0x13) == properties::two_value(p.server_keep_alive),
        properties::single(p, 0x15) == properties::text_value(p.authentication_method),
        properties::single(p, 0x16) == properties::data_value(p.authentication_data),
        properties::single(p, 0x17) == properties::byte_value(p.request_problem_information),
        properties::single(p, 0x18) == properties::four_value(p.will_delay_interval),
        properties::single(p, 0x19) == properties::byte_value(p.request_response_information),
        properties::single(p, 0x1A) == properties::text_value(p.response_information),
        properties::single(p, 0x1C) == properties::text_value(p.server_reference),
        properties::single(p, 0x1F) == properties::text_value(p.reason_string),
        properties::single(p, 0x21) == properties::two_value(p.receive_maximum),
        properties::single(p, 0x22) == properties::two_value(p.topic_alias_maximum),
        properties::single(p, 0x23) == properties::two_value(p.topic_alias),
        properties::single(p, 0x24) == properties::byte_value(p.maximum_qos),
        properties::single(p, 0x25) == properties::byte_value(p.retain_available),
        properties::single(p, 0x27) == properties::four_value(p.maximum_packet_size),
        properties::single(p, 0x28) == properties::byte_value(
            p.wildcard_subscription_available,
        ),
        properties::single(p, 0x29) == properties::byte_value(
            p.subscription_identifier_available,
        ),
        properties::single(p, 0x2A) == properties::byte_value(p.shared_subscription_available),
{
}

/// The identifiers of a block by what stands behind them: one byte, two or four bytes,
/// a text, or bytes. A subscription identifier, 11, and a user property, 38, may stand
/// more than once; every other number is unknown.
pub proof fn law_property_kinds(id: u8)
    ensures
        properties::single_kind(id) is Some && properties::single_kind(id)->0 is Byte <==> id == 0x01
            || id == 0x17 || id == 0x19 || id == 0x24 || id == 0x25 || id == 0x28 || id == 0x29
            || id == 0x2A,
        properties::single_kind(id) is Some && properties::single_kind(id)->0 is Two <==> id == 0x13
            || id == 0x21 || id == 0x22 || id == 0x23,
        properties::single_kind(id) is Some && properties::single_kind(id)->0 is Four <==> id
            == 0x02 || id == 0x11 || id == 0x18 || id == 0x27,
        properties::single_kind(id) is Some && properties::single_kind(id)->0 is Text <==> id
            == 0x03 || id == 0x08 || id == 0x12 || id == 0x15 || id == 0x1A || id == 0x1C || id
            == 0x1F,
        properties::single_kind(id) is Some && properties::single_kind(id)->0 is Data <==> id
            == 0x09 || id == 0x16,
{
}

/// How one property is read: its identifier decides what stands behind it. One that is
/// unknown, and one that may stand once and stands again, is refused; so is the
/// subscription identifier 0. The other properties stay.
pub proof fn law_property_is_read(b: Seq<u8>, at: int, m: properties::PropertiesModel)
    requires
        0 <= at < b.len(),
    ensures
        ({
            let id = b[at];
            let r = properties::item_at(b, at, m);
            let many = id == 0x0B || id == 0x26;
            &&& !many && m.singles.contains_key(id) ==> r == Err::<
                (properties::PropertiesModel, int),
                MqttError,
            >(MqttError::Protocol(Violation::DuplicateProperty(id)))
            &&& !many && !m.singles.contains_key(id) && properties::single_kind(id) is None ==> r
                == Err::<(properties::PropertiesModel, int), MqttError>(
                MqttError::Protocol(Violation::UnknownProperty(id)),
            )
            &&& id == 0x0B && at + 1 < b.len() && b[at + 1] == 0 ==> r == Err::<
                (properties::PropertiesModel, int),
                MqttError,
            >(MqttError::Protocol(Violation::MalformedProperty(id)))
            &&& r matches Ok((n, next)) ==> {
                &&& next > at
                &&& id == 0x0B ==> {
                    &&& wire::vbi_at(b, at + 1, 4) matches Ok((v, p))
                    &&& next == p
                    &&& n.subscription_identifiers == m.subscription_identifiers.push(v as u32)
                    &&& n.singles == m.singles
                    &&& n.user_properties == m.user_properties
                }
                &&& id == 0x26 ==> {
                    &&& wire::text_at(b, at + 1) matches Ok((k, p))
                    &&& wire::text_at(b, p) matches Ok((v, q))
                    &&& next == q
                    &&& n.user_properties == m.user_properties.push((k, v))
                    &&& n.singles == m.singles
                    &&& n.subscription_identifiers == m.subscription_identifiers
                }
                &&& !many ==> {
                    &&& n.user_properties == m.user_properties
                    &&& n.subscription_identifiers == m.subscription_identifiers
                    &&& n.singles.contains_key(id)
                    &&& n.singles.remove(id) == m.singles.remove(id)
                    &&& match n.singles[id] {
                        properties::PropValue::Byte(v) => v == b[at + 1] && next == at + 2,
                        properties::PropValue::Two(v) => v == b[at + 1] * 256 + b[at + 2] && next
                            == at + 3,
                        properties::PropValue::Four(v) => v == b[at + 1] * 16777216 + b[at + 2]
                            * 65536 + b[at + 3] * 256 + b[at + 4] && next == at + 5,
                        properties::PropValue::Text(v) => wire::text_at(b, at + 1) == Ok::<
                            (Seq<char>, int),
                            MqttError,
                        >((v, next)),
                        properties::PropValue::Data(v) => wire::field_at(b, at + 1) == Ok::<
                            (Seq<u8>, int),
                            MqttError,
                        >((v, next)),
                    }
                }
            }
        }),
{
    let id = b[at];
    reveal_with_fuel(wire::vbi_at, 5);
    if let Ok((n, next)) = properties::item_at(b, at, m) {
        if !(id == 0x0B || id == 0x26) {
            assert(n.singles.remove(id) =~= m.singles.remove(id));
        }
    }
}

/// How one property is written: its identifier and then its value, numbers with the
/// most significant byte first, texts and bytes as fields; nothing where it is not set.
/// Properties that may stand more than once are written one behind the other.
pub proof fn law_property_is_written(
    m: properties::PropertiesModel,
    id: u8,
    n: u32,
    pair: (Seq<char>, Seq<char>),
)
    requires
        id != 0x0B && id != 0x26,
        encode_utf8(pair.0).len() <= 65_535,
        encode_utf8(pair.1).len() <= 65_535,
    ensures
        !m.singles.contains_key(id) ==> properties::item_bytes(m, id) == Ok::<Seq<u8>, MqttError>(
            seq![],
        ),
        m.singles.contains_key(id) ==> match m.singles[id] {
            properties::PropValue::Byte(v) => properties::item_bytes(m, id) == Ok::<
                Seq<u8>,
                MqttError,
            >(seq![id] + seq![v]),
            properties::PropValue::Two(v) => properties::item_bytes(m, id) == Ok::<
                Seq<u8>,
                MqttError,
            >(seq![id] + seq![(v / 256) as u8, (v % 256) as u8]),
            properties::PropValue::Four(v) => properties::item_bytes(m, id) == Ok::<
                Seq<u8>,
                MqttError,
            >(
                seq![id] + seq![
                    (v / 16777216) as u8,
                    (v / 65536 % 256) as u8,
                    (v / 256 % 256) as u8,
                    (v % 256) as u8,
                ],
            ),
            properties::PropValue::Text(v) => encode_utf8(v).len() <= 65_535
                ==> properties::item_bytes(m, id) == Ok::<Seq<u8>, MqttError>(
                seq![id] + field_if(true, encode_utf8(v)),
            ),
            properties::PropValue::Data(v) => v.len() <= 65_535 ==> properties::item_bytes(m, id)
                == Ok::<Seq<u8>, MqttError>(seq![id] + field_if(true, v)),
        },
        properties::ids_bytes(m.subscription_identifiers.push(n)) == properties::ids_bytes(
            m.subscription_identifiers,
        ) + seq![0x0Bu8] + wire::vbi(n as nat),
        properties::pairs_bytes(m.user_properties) matches Ok(before) ==> properties::pairs_bytes(
            m.user_properties.push(pair),
        ) == Ok::<Seq<u8>, MqttError>(
            before + (seq![0x26u8] + field_if(true, encode_utf8(pair.0)) + field_if(
                true,
                encode_utf8(pair.1),
            )),
        ),
{
    assert(m.subscription_identifiers.push(n).drop_last() =~= m.subscription_identifiers);
    assert(m.user_properties.push(pair).drop_last() =~= m.user_properties);
    assert(wire::field(encode_utf8(pair.0)) =~= field_if(true, encode_utf8(pair.0)));
    assert(wire::field(encode_utf8(pair.1)) =~= field_if(true, encode_utf8(pair.1)));
    if m.singles.contains_key(id) {
        match m.singles[id] {
            properties::PropValue::Text(v) => {
                if encode_utf8(v).len() <= 65_535 {
                    assert(wire::field(encode_utf8(v)) =~= field_if(true, encode_utf8(v)));
                }
            },
            properties::PropValue::Data(v) => {
                if v.len() <= 65_535 {
                    assert(wire::field(v) =~= field_if(true, v));
                }
            },
            _ => {},
        }
    }
}

/// A block is written in the order of these identifiers, behind its length.
pub proof fn law_order_of_a_block(m: properties::PropertiesModel)
    ensures
        properties::written_order() == seq![
            0x01u8,
            0x02,
            0x03,
            0x08,
            0x09,
            0x0B,
            0x11,
            0x12,
            0x13,
            0x15,
            0x16,
            0x17,
            0x18,
            0x19,
            0x1A,
            0x1C,
            0x1F,
            0x21,
            0x22,
            0x23,
            0x24,
            0x25,
            0x26,
            0x27,
            0x28,
            0x29,
            0x2A,
        ],
        properties::block_bytes(m) matches Ok(b) ==> {
            &&& properties::items_bytes(m, 27) matches Ok(items)
            &&& b == wire::vbi(items.len()) + items
        },
{
}

} // verus!
