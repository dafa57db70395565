//! The wire formats: protobuf varints, gRPC length-prefixed messages, and the
//! request message that carries one chunk of an archive.

use prost::bytes::{Bytes, BytesMut};
use vstd::arithmetic::power::pow;
use vstd::prelude::*;

use crate::buffers::{bytes_mut_seq, bytes_seq};

verus! {

/// Length of a gRPC message header: one compressed-flag byte and a four-byte
/// message length.
pub const HEADER_LEN: usize = 5;

/// Protobuf field number of the `chunk` field of a `ParseWarcRequest`.
pub const CHUNK_TAG: u32 = 2;

/// First byte of an encoded `chunk` field: its number and the
/// length-delimited wire type.
pub const CHUNK_KEY: u8 = 0x12;

/// The four bytes of `value`, most significant first.
pub open spec fn be_bytes(value: nat) -> Seq<u8> {
    seq![
        (value / 0x100_0000 % 0x100) as u8,
        (value / 0x1_0000 % 0x100) as u8,
        (value / 0x100 % 0x100) as u8,
        (value % 0x100) as u8,
    ]
}

/// The number that four bytes spell, most significant first.
pub open spec fn be_value(bytes: Seq<u8>) -> nat {
    (bytes[0] * 0x100_0000 + bytes[1] * 0x1_0000 + bytes[2] * 0x100 + bytes[3]) as nat
}

/// The protobuf varint of `value`: seven bits per byte, least significant
/// first, with the high bit set on every byte but the last.
pub open spec fn varint(value: nat) -> Seq<u8>
    decreases value,
{
    if value < 0x80 {
        seq![value as u8]
    } else {
        seq![(value % 0x80 + 0x80) as u8] + varint(value / 0x80)
    }
}

/// The number of bytes in the varint of `value`.
pub open spec fn varint_len(value: nat) -> nat
    decreases value,
{
    if value < 0x80 {
        1
    } else {
        1 + varint_len(value / 0x80)
    }
}

/// One uncompressed gRPC message with the given body.
pub open spec fn frame(body: Seq<u8>) -> Seq<u8> {
    seq![0u8] + be_bytes(body.len()) + body
}

/// The concatenation of the gRPC messages with the given bodies.
pub open spec fn frames(bodies: Seq<Seq<u8>>) -> Seq<u8>
    decreases bodies.len(),
{
    if bodies.len() == 0 {
        Seq::empty()
    } else {
        frame(bodies[0]) + frames(bodies.drop_first())
    }
}

/// The protobuf encoding of a `ParseWarcRequest` whose `chunk` field holds
/// `chunk`.
pub open spec fn chunk_request(chunk: Seq<u8>) -> Seq<u8> {
    seq![CHUNK_KEY] + varint(chunk.len()) + chunk
}

/// The length of a length-delimited protobuf field whose number is below 16
/// and whose content is `len` bytes long.
pub open spec fn field_len(len: nat) -> nat {
    1 + varint_len(len) + len
}

/// `prost::length_delimiter_len`: the length of the varint that states
/// `length`.
pub assume_specification[ prost::length_delimiter_len ](length: usize) -> (len: usize)
    ensures
        len == varint_len(length as nat),
;

/// `prost::encoding::encoded_len_varint`: the length of the varint of `value`.
pub assume_specification[ prost::encoding::encoded_len_varint ](value: u64) -> (len: usize)
    ensures
        len == varint_len(value as nat),
;

/// `prost::encoding::key_len`: the length of a field key, which is a varint
/// that holds the field number above three bits of wire type. Larger field
/// numbers than the bound do not exist in protobuf.
pub assume_specification[ prost::encoding::key_len ](tag: u32) -> (len: usize)
    requires
        tag < 0x2000_0000,
    ensures
        len == varint_len((tag * 8) as nat),
;

/// `prost::encoding::bytes::encode` on `Bytes` into a `BytesMut`: appends the
/// field key with the length-delimited wire type, the length of the value, and
/// the value. The outside function panics when no allocation can be that large.
#[verifier::external_body]
pub(crate) fn encode_bytes_field(tag: u32, value: &Bytes, buf: &mut BytesMut)
    requires
        1 <= tag < 0x2000_0000,
        bytes_mut_seq(*old(buf)).len() + 20 + bytes_seq(*value).len() <= isize::MAX,
    ensures
        bytes_mut_seq(*final(buf)) == bytes_mut_seq(*old(buf)) + varint((tag * 8 + 2) as nat)
            + varint(bytes_seq(*value).len()) + bytes_seq(*value),
{
    prost::encoding::bytes::encode(tag, value, buf)
}

/// A varint is as long as [`varint_len`] says.
pub proof fn lemma_varint_len(value: nat)
    ensures
        varint(value).len() == varint_len(value),
        varint_len(value) >= 1,
    decreases value,
{
    if value >= 0x80 {
        lemma_varint_len(value / 0x80);
    }
}

/// A larger number never has a shorter varint.
pub proof fn lemma_varint_len_monotonic(a: nat, b: nat)
    requires
        a <= b,
    ensures
        varint_len(a) <= varint_len(b),
    decreases b,
{
    if a >= 0x80 {
        lemma_varint_len_monotonic(a / 0x80, b / 0x80);
    }
    lemma_varint_len(b);
}

/// A number of at most 64 bits has a varint of at most ten bytes.
pub proof fn lemma_varint_len_bound(value: nat)
    requires
        value <= u64::MAX,
    ensures
        varint_len(value) <= 10,
{
    lemma_varint_len_monotonic(value, u64::MAX as nat);
    assert(varint_len(u64::MAX as nat) == 10) by {
        reveal_with_fuel(varint_len, 11);
    }
}

/// Four big-endian bytes spell the number they were made from.
pub proof fn lemma_be_value(value: nat)
    requires
        value <= u32::MAX,
    ensures
        be_value(be_bytes(value)) == value,
{
}

/// A message is five bytes longer than its body.
pub proof fn lemma_frame_len(body: Seq<u8>)
    ensures
        frame(body).len() == HEADER_LEN + body.len(),
        frame(body)[0] == 0,
        frame(body).subrange(1, 5) == be_bytes(body.len()),
        frame(body).skip(5) == body,
{
    assert(frame(body).subrange(1, 5) =~= be_bytes(body.len()));
    assert(frame(body).skip(5) =~= body);
}

/// The number that bytes spell in base 128, least significant first, by their
/// low seven bits.
pub open spec fn base128(bytes: Seq<u8>) -> nat
    decreases bytes.len(),
{
    if bytes.len() == 0 {
        0
    } else {
        bytes[0] as nat % 128 + 128 * base128(bytes.drop_first())
    }
}

/// A varint spells its value in base 128. The high bit is set on every byte but
/// the last, and the last is no padding.
pub proof fn law_varint_spells_its_value(value: nat)
    ensures
        varint(value).len() > 0,
        base128(varint(value)) == value,
        forall|i: int| 0 <= i < varint(value).len() - 1 ==> #[trigger] varint(value)[i] >= 128,
        varint(value).last() < 128,
        varint(value).len() > 1 ==> varint(value).last() != 0,
    decreases value,
{
    let bytes = varint(value);
    if value < 0x80 {
        assert(bytes.drop_first() =~= Seq::<u8>::empty());
        assert(base128(bytes.drop_first()) == 0);
    } else {
        law_varint_spells_its_value(value / 0x80);
        let rest = varint(value / 0x80);
        assert(bytes.drop_first() =~= rest);
        assert((value % 0x80 + 0x80) as u8 as nat % 128 == value % 128);
        assert forall|i: int| 0 <= i < bytes.len() - 1 implies #[trigger] bytes[i] >= 128 by {
            if i > 0 {
                assert(bytes[i] == rest[i - 1]);
            }
        }
        assert(bytes.last() == rest.last());
        if rest.len() == 1 {
            assert(rest.drop_first() =~= Seq::<u8>::empty());
            assert(base128(rest.drop_first()) == 0);
        }
    }
}

/// A varint is as long as its value needs: its value is below 128 to the power
/// of its length, and no shorter one would do.
pub proof fn law_varint_is_as_short_as_possible(value: nat)
    ensures
        varint(value).len() == varint_len(value),
        varint_len(value) >= 1,
        value < pow(128, varint_len(value)),
        varint_len(value) > 1 ==> value >= pow(128, (varint_len(value) - 1) as nat),
    decreases value,
{
    lemma_varint_len(value);
    let len = varint_len(value);
    reveal_with_fuel(pow, 2);
    if value >= 0x80 {
        law_varint_is_as_short_as_possible(value / 0x80);
        let less = (len - 1) as nat;
        assert(pow(128, len) == 128 * pow(128, less));
        if less > 1 {
            assert(pow(128, less) == 128 * pow(128, (less - 1) as nat));
        } else {
            assert(pow(128, 1) == 128 * pow(128, 0));
            assert(pow(128, 0) == 1);
        }
    } else {
        assert(pow(128, 1) == 128 * pow(128, 0));
        assert(pow(128, 0) == 1);
    }
}

/// The length of a field is that of its encoding: one byte of key, the varint of
/// the content's length, and the content.
pub proof fn law_field_len_is_the_encoded_length(key: u8, content: Seq<u8>)
    ensures
        field_len(content.len()) == (seq![key] + varint(content.len()) + content).len(),
        field_len(content.len()) > content.len() + 1,
{
    lemma_varint_len(content.len());
}

/// The length of a message stands in front of it in four bytes, the most
/// significant first.
pub proof fn law_lengths_are_big_endian(value: nat, bytes: Seq<u8>)
    requires
        value <= u32::MAX,
        bytes.len() == 4,
    ensures
        be_bytes(value).len() == 4,
        be_bytes(value)[0] * 16777216 + be_bytes(value)[1] * 65536 + be_bytes(value)[2] * 256
            + be_bytes(value)[3] == value,
        be_value(bytes) == bytes[0] * 16777216 + bytes[1] * 65536 + bytes[2] * 256 + bytes[3],
{
}

/// A gRPC message is a zero byte, the length of its body, and its body.
pub proof fn law_frame_layout(body: Seq<u8>)
    requires
        body.len() <= u32::MAX,
    ensures
        frame(body).len() == 5 + body.len(),
        frame(body)[0] == 0,
        frame(body)[1] * 16777216 + frame(body)[2] * 65536 + frame(body)[3] * 256 + frame(body)[4]
            == body.len(),
        forall|i: int| 0 <= i < body.len() ==> frame(body)[5 + i] == #[trigger] body[i],
{
    law_lengths_are_big_endian(body.len(), seq![0u8, 0u8, 0u8, 0u8]);
    let bytes = be_bytes(body.len());
    assert(frame(body)[1] == bytes[0]);
    assert(frame(body)[2] == bytes[1]);
    assert(frame(body)[3] == bytes[2]);
    assert(frame(body)[4] == bytes[3]);
}

/// Consecutive messages stand one behind the other.
pub proof fn law_frames_stand_in_order(a: Seq<Seq<u8>>, b: Seq<Seq<u8>>, body: Seq<u8>)
    ensures
        frames(a + b) == frames(a) + frames(b),
        frames(seq![body]) == frame(body),
    decreases a.len(),
{
    assert(seq![body].drop_first() =~= Seq::<Seq<u8>>::empty());
    assert(frames(Seq::<Seq<u8>>::empty()) =~= Seq::<u8>::empty());
    assert(frames(seq![body]) =~= frame(body));
    if a.len() == 0 {
        assert(a + b =~= b);
        assert(frames(a) + frames(b) =~= frames(b));
    } else {
        law_frames_stand_in_order(a.drop_first(), b, body);
        assert((a + b).drop_first() =~= a.drop_first() + b);
        assert(frames(a + b) =~= frames(a) + frames(b));
    }
}

/// A request that carries a chunk is the key of field 2 with the
/// length-delimited wire type, the length of the chunk, and the chunk.
pub proof fn law_chunk_request_layout(chunk: Seq<u8>)
    ensures
        ({
            let request = chunk_request(chunk);
            let prefix = request.len() - chunk.len();
            &&& prefix >= 2
            &&& request[0] == 2 * 8 + 2
            &&& base128(request.subrange(1, prefix)) == chunk.len()
            &&& request.skip(prefix) == chunk
        }),
{
    lemma_varint_len(chunk.len());
    law_varint_spells_its_value(chunk.len());
    let request = chunk_request(chunk);
    let prefix = request.len() - chunk.len();
    assert(request.subrange(1, prefix) =~= varint(chunk.len()));
    assert(request.skip(prefix) =~= chunk);
}

} // verus!
