//! gRPC wire framing.
//!
//! [`MessageSplitter`] implements the receive side: frames go in, complete
//! messages come out as slices of the received frames (a copy only happens
//! when a message straddles a frame boundary). [`encode_message`] and
//! [`chunk_prefix`] implement the send side.

use std::collections::VecDeque;

use prost::bytes::{Bytes, BytesMut};
use vstd::prelude::*;
use vstd::string::StringExecFns;

use crate::buffers::{
    bytes_len, bytes_mut_extend, bytes_mut_freeze, bytes_mut_new, bytes_mut_put_slice,
    bytes_mut_put_u32, bytes_mut_put_u8, bytes_mut_reserve, bytes_mut_seq, bytes_mut_split,
    bytes_mut_with_capacity, bytes_new, bytes_seq, bytes_slice, bytes_split_to,
};
use crate::status::{Code, Status};
use crate::text::{decimal, push_decimal};
use crate::wire::{
    be_bytes, be_value, chunk_request, encode_bytes_field, frame, frames, lemma_be_value,
    lemma_frame_len, lemma_varint_len, lemma_varint_len_bound, varint, varint_len, CHUNK_KEY,
    CHUNK_TAG, HEADER_LEN,
};

verus! {

/// The bytes of consecutive segments, in order.
pub open spec fn concat(segments: Seq<Bytes>) -> Seq<u8>
    decreases segments.len(),
{
    if segments.len() == 0 {
        Seq::empty()
    } else {
        bytes_seq(segments[0]) + concat(segments.drop_first())
    }
}

/// What the front of a byte stream holds.
pub enum Front {
    /// No complete message yet.
    Incomplete,
    /// A message whose compressed flag is set.
    Compressed,
    /// A message whose stated length exceeds the limit.
    TooLong(nat),
    /// A complete message with this body.
    Message(Seq<u8>),
}

/// Reads the front of `stream` as a gRPC message of at most `max` bytes.
pub open spec fn front(stream: Seq<u8>, max: nat) -> Front {
    let len = be_value(stream.subrange(1, 5));
    if stream.len() < HEADER_LEN {
        Front::Incomplete
    } else if stream[0] != 0 {
        Front::Compressed
    } else if len > max {
        Front::TooLong(len)
    } else if stream.len() < HEADER_LEN + len {
        Front::Incomplete
    } else {
        Front::Message(stream.subrange(HEADER_LEN as int, HEADER_LEN + len))
    }
}

/// The bodies of the complete messages at the front of `stream`, up to the
/// first position that holds none.
pub open spec fn messages(stream: Seq<u8>, max: nat) -> Seq<Seq<u8>>
    decreases stream.len(),
{
    match front(stream, max) {
        Front::Message(body) => seq![body] + messages(stream.skip((HEADER_LEN + body.len()) as int), max),
        _ => Seq::empty(),
    }
}

/// The text that refuses a message of `len` bytes under a limit of `max`.
pub open spec fn too_long_text(len: nat, max: nat) -> Seq<char> {
    "message of "@ + decimal(len) + " bytes exceeds the "@ + decimal(max) + " byte limit"@
}

/// Whether taking the next message off a queue of these bytes gives this result
/// and leaves these bytes.
pub open spec fn pops(
    before: Seq<u8>,
    max: nat,
    result: Result<Option<Bytes>, Status>,
    after: Seq<u8>,
) -> bool {
    match front(before, max) {
        Front::Incomplete => result == Ok::<Option<Bytes>, Status>(None) && after == before,
        Front::Compressed => {
            &&& result matches Err(status)
            &&& status.says(Code::InvalidArgument, "compressed gRPC messages are not supported"@)
            &&& after == before
        },
        Front::TooLong(len) => {
            &&& result matches Err(status)
            &&& status.says(Code::OutOfRange, too_long_text(len, max))
            &&& after == before
        },
        Front::Message(body) => {
            &&& result matches Ok(Some(message))
            &&& bytes_seq(message) == body
            &&& after == before.skip((HEADER_LEN + body.len()) as int)
        },
    }
}

/// Whether queueing a frame behind these bytes leaves those.
pub open spec fn pushes(before: Seq<u8>, frame: Seq<u8>, after: Seq<u8>) -> bool {
    after == before + frame
}

/// Splits gRPC length-prefixed messages out of a stream of HTTP/2 DATA frames
/// without merging the frames into one buffer.
pub struct MessageSplitter {
    segments: VecDeque<Bytes>,
    buffered: usize,
}

impl View for MessageSplitter {
    type V = Seq<u8>;

    /// The bytes that are queued and belong to no message handed out yet.
    closed spec fn view(&self) -> Seq<u8> {
        concat(self.segments@)
    }
}

impl Default for MessageSplitter {
    /// An empty splitter.
    fn default() -> (splitter: Self)
        ensures
            splitter.wf(),
            splitter@ == Seq::<u8>::empty(),
    {
        MessageSplitter { segments: VecDeque::new(), buffered: 0 }
    }
}

impl MessageSplitter {
    /// The byte count is that of the queued segments, none of which is empty.
    pub closed spec fn wf(&self) -> bool {
        &&& self.buffered == concat(self.segments@).len()
        &&& forall|i: int| 0 <= i < self.segments@.len() ==> bytes_seq(#[trigger] self.segments@[i]).len() > 0
    }

    /// An empty splitter.
    #[must_use]
    pub fn new() -> (splitter: Self)
        ensures
            splitter.wf(),
            splitter@ == Seq::<u8>::empty(),
    {
        MessageSplitter::default()
    }

    /// Whether the queue can take in `frame` without outgrowing its byte count.
    pub fn has_room(&self, frame: &Bytes) -> (room: bool)
        requires
            self.wf(),
        ensures
            room == (self@.len() + bytes_seq(*frame).len() <= usize::MAX),
    {
        bytes_len(frame) <= usize::MAX - self.buffered
    }

    /// Queues one received DATA frame.
    pub fn push(&mut self, frame: Bytes)
        requires
            old(self).wf(),
            old(self)@.len() + bytes_seq(frame).len() <= usize::MAX,
        ensures
            final(self).wf(),
            pushes(old(self)@, bytes_seq(frame), final(self)@),
    {
        let len: usize = bytes_len(&frame);
        if len != 0 {
            proof {
                lemma_concat_push(self.segments@, frame);
            }
            self.buffered = self.buffered + len;
            self.segments.push_back(frame);
        } else {
            assert(self@ + bytes_seq(frame) =~= self@);
        }
    }

    /// Pops the next complete message, or `None` until more frames arrive.
    ///
    /// Answers `InvalidArgument` for a compressed-flag byte other than zero
    /// (compression is never negotiated) and `OutOfRange` for a message longer
    /// than `max_message_size`. A message that is handed out must not be longer
    /// than the machine can allocate.
    pub fn next_message(&mut self, max_message_size: usize) -> (result: Result<Option<Bytes>, Status>)
        requires
            old(self).wf(),
            front(old(self)@, max_message_size as nat) matches Front::Message(body) ==> body.len()
                <= isize::MAX,
        ensures
            final(self).wf(),
            pops(old(self)@, max_message_size as nat, result, final(self)@),
    {
        if self.buffered < HEADER_LEN {
            return Ok(None);
        }
        let header: Vec<u8> = self.header();
        if header[0] != 0 {
            return Err(Status::new(Code::InvalidArgument, "compressed gRPC messages are not supported"));
        }
        assert(self@.subrange(1, 5)[0] == self@[1]);
        assert(self@.subrange(1, 5)[1] == self@[2]);
        assert(self@.subrange(1, 5)[2] == self@[3]);
        assert(self@.subrange(1, 5)[3] == self@[4]);
        let length: u32 = (header[1] as u32) * 0x100_0000 + (header[2] as u32) * 0x1_0000
            + (header[3] as u32) * 0x100 + (header[4] as u32);
        let len: usize = length as usize;
        if len > max_message_size {
            return Err(too_long(len, max_message_size));
        }
        if self.buffered - HEADER_LEN < len {
            return Ok(None);
        }
        assert(front(self@, max_message_size as nat) is Message);
        self.consume(HEADER_LEN);
        let message: Bytes = self.take(len);
        proof {
            assert(old(self)@.skip(5).take(len as int) =~= old(self)@.subrange(5, 5 + len));
            assert(old(self)@.skip(5).skip(len as int) =~= old(self)@.skip(5 + len));
        }
        Ok(Some(message))
    }

    /// A copy of the first bytes of the stream, as many as a header has.
    fn header(&self) -> (header: Vec<u8>)
        requires
            self.wf(),
            self@.len() >= HEADER_LEN,
        ensures
            header@ == self@.take(HEADER_LEN as int),
    {
        let mut header: Vec<u8> = Vec::new();
        let mut i: usize = 0;
        let count: usize = self.segments.len();
        proof {
            assert(self.segments@.skip(0) =~= self.segments@);
        }
        while header.len() < HEADER_LEN
            invariant
                self.wf(),
                self@.len() >= HEADER_LEN,
                i <= count == self.segments@.len(),
                header@.len() <= HEADER_LEN,
                header@.len() < HEADER_LEN ==> self@ == header@ + concat(self.segments@.skip(i as int)),
                header@ == self@.take(header@.len() as int),
            decreases HEADER_LEN - header@.len(),
        {
            let ghost before = header@;
            let ghost rest = self.segments@.skip(i as int);
            assert(rest.len() > 0);
            assert(rest.drop_first() =~= self.segments@.skip(i + 1));
            let slice: &[u8] = bytes_slice(&self.segments[i]);
            let wanted: usize = HEADER_LEN - header.len();
            let n: usize = if slice.len() < wanted { slice.len() } else { wanted };
            let head: &[u8] = vstd::slice::slice_subrange(slice, 0, n);
            header.extend_from_slice(head);
            assert(header@ =~= before + slice@.take(n as int));
            assert(header@ =~= self@.take(header@.len() as int));
            i = i + 1;
            if n < wanted {
                assert(slice@.take(n as int) =~= slice@);
                assert(self@ =~= header@ + concat(self.segments@.skip(i as int)));
            }
        }
        header
    }

    /// Drops `n` buffered bytes.
    fn consume(&mut self, n: usize)
        requires
            old(self).wf(),
            n <= old(self)@.len(),
        ensures
            final(self).wf(),
            final(self)@ == old(self)@.skip(n as int),
    {
        self.buffered = self.buffered - n;
        let mut left: usize = n;
        while left > 0
            invariant
                left <= concat(self.segments@).len(),
                self.buffered + left == concat(self.segments@).len(),
                concat(self.segments@).skip(left as int) == old(self)@.skip(n as int),
                forall|i: int|
                    0 <= i < self.segments@.len() ==> bytes_seq(#[trigger] self.segments@[i]).len() > 0,
            decreases left,
        {
            let ghost before = self.segments@;
            let popped: Option<Bytes> = self.segments.pop_front();
            assert(popped is Some);
            let mut first: Bytes = popped.unwrap();
            proof {
                assert(self.segments@ =~= before.drop_first());
                assert forall|i: int| 0 <= i < self.segments@.len() implies bytes_seq(
                    #[trigger] self.segments@[i],
                ).len() > 0 by {
                    assert(self.segments@[i] == before[i + 1]);
                }
            }
            let len: usize = bytes_len(&first);
            if len > left {
                let ghost whole = bytes_seq(first);
                let _dropped: Bytes = bytes_split_to(&mut first, left);
                let ghost kept = first;
                self.segments.push_front(first);
                proof {
                    assert(self.segments@.drop_first() =~= before.drop_first());
                    assert(concat(self.segments@) =~= concat(before).skip(left as int));
                    assert forall|i: int| 0 <= i < self.segments@.len() implies bytes_seq(
                        #[trigger] self.segments@[i],
                    ).len() > 0 by {
                        if i > 0 {
                            assert(self.segments@[i] == before[i]);
                        }
                    }
                    assert(concat(self.segments@).skip(0) =~= concat(self.segments@));
                }
                left = 0;
            } else {
                proof {
                    assert(concat(before).skip(left as int) =~= concat(self.segments@).skip(left - len));
                }
                left = left - len;
            }
        }
        assert(concat(self.segments@).skip(0) =~= concat(self.segments@));
    }

    /// Removes and returns `n` buffered bytes.
    fn take(&mut self, n: usize) -> (taken: Bytes)
        requires
            old(self).wf(),
            n <= old(self)@.len(),
            n <= isize::MAX,
        ensures
            final(self).wf(),
            bytes_seq(taken) == old(self)@.take(n as int),
            final(self)@ == old(self)@.skip(n as int),
    {
        if n == 0 {
            let none: Bytes = bytes_new();
            assert(bytes_seq(none) =~= self@.take(0));
            assert(self@.skip(0) =~= self@);
            return none;
        }
        let fits: bool = bytes_len(&self.segments[0]) >= n;
        if fits {
            return self.take_front(n);
        }
        // The message straddles frames: assemble it.
        let mut out: BytesMut = bytes_mut_with_capacity(n);
        let mut remaining: usize = n;
        while remaining > 0
            invariant
                self.wf(),
                remaining <= n <= isize::MAX,
                n <= old(self)@.len(),
                remaining <= self@.len(),
                bytes_mut_seq(out).len() == n - remaining,
                bytes_mut_seq(out) == old(self)@.take(n - remaining),
                self@ == old(self)@.skip(n - remaining),
            decreases remaining,
        {
            let available: usize = bytes_len(&self.segments[0]);
            let count: usize = if available < remaining { available } else { remaining };
            let ghost before = self@;
            let ghost written = bytes_mut_seq(out);
            let part: Bytes = self.take_front(count);
            bytes_mut_extend(&mut out, bytes_slice(&part));
            proof {
                assert(bytes_mut_seq(out) =~= old(self)@.take(n - remaining + count));
                assert(self@ =~= old(self)@.skip(n - remaining + count));
            }
            remaining = remaining - count;
        }
        bytes_mut_freeze(out)
    }

    /// Removes and returns `n` bytes of the first segment.
    fn take_front(&mut self, n: usize) -> (taken: Bytes)
        requires
            old(self).wf(),
            old(self).segments@.len() > 0,
            0 < n <= bytes_seq(old(self).segments@[0]).len(),
        ensures
            final(self).wf(),
            bytes_seq(taken) == old(self)@.take(n as int),
            final(self)@ == old(self)@.skip(n as int),
    {
        let ghost before = self.segments@;
        let popped: Option<Bytes> = self.segments.pop_front();
        let mut first: Bytes = popped.unwrap();
        assert(self.segments@ =~= before.drop_first());
        assert forall|i: int| 0 <= i < self.segments@.len() implies bytes_seq(
            #[trigger] self.segments@[i],
        ).len() > 0 by {
            assert(self.segments@[i] == before[i + 1]);
        }
        self.buffered = self.buffered - n;
        let taken: Bytes = bytes_split_to(&mut first, n);
        assert(bytes_seq(taken) =~= concat(before).take(n as int));
        if bytes_len(&first) != 0 {
            self.segments.push_front(first);
            proof {
                assert(self.segments@.drop_first() =~= before.drop_first());
                assert forall|i: int| 0 <= i < self.segments@.len() implies bytes_seq(
                    #[trigger] self.segments@[i],
                ).len() > 0 by {
                    if i > 0 {
                        assert(self.segments@[i] == before[i]);
                    }
                }
            }
        }
        assert(concat(self.segments@) =~= concat(before).skip(n as int));
        taken
    }
}

/// The status that refuses a message of `len` bytes under a limit of `max`.
fn too_long(len: usize, max: usize) -> (status: Status)
    ensures
        status.says(Code::OutOfRange, too_long_text(len as nat, max as nat)),
{
    let mut message: String = "message of ".to_owned();
    push_decimal(&mut message, len);
    message.append(" bytes exceeds the ");
    push_decimal(&mut message, max);
    message.append(" byte limit");
    Status { code: Code::OutOfRange, message }
}

/// Encodes a whole protobuf message, given by its encoding, as one
/// length-prefixed gRPC frame. The gRPC frame length limit is 4 GiB.
///
/// For the small control and metadata messages the extra copy through the
/// contiguous buffer is irrelevant; use [`chunk_prefix`] for bulk bytes.
#[must_use]
pub fn encode_message(body: &[u8]) -> (message: Bytes)
    requires
        body@.len() <= u32::MAX,
        HEADER_LEN + body@.len() <= isize::MAX,
    ensures
        bytes_seq(message) == frame(body@),
{
    let mut scratch: BytesMut = bytes_mut_new();
    let message: Bytes = encode_message_into(&mut scratch, body);
    assert(bytes_seq(message) =~= frame(body@));
    message
}

/// Whether encoding a message through a scratch buffer gives these bytes: what
/// the buffer held, then the frame. The buffer is left empty.
pub open spec fn encodes_into(
    before: Seq<u8>,
    body: Seq<u8>,
    message: Seq<u8>,
    after: Seq<u8>,
) -> bool {
    &&& message == before + frame(body)
    &&& after == Seq::<u8>::empty()
}

/// [`encode_message`] through a reusable scratch buffer. Whatever the buffer
/// already held goes out in front of the message.
///
/// When the previously split-off message has been sent and dropped, the
/// allocation is reclaimed instead of mapping fresh pages, which matters on
/// streams that encode gigabytes of responses.
#[must_use]
pub fn encode_message_into(scratch: &mut BytesMut, body: &[u8]) -> (message: Bytes)
    requires
        body@.len() <= u32::MAX,
        bytes_mut_seq(*old(scratch)).len() + HEADER_LEN + body@.len() <= isize::MAX,
    ensures
        encodes_into(
            bytes_mut_seq(*old(scratch)),
            body@,
            bytes_seq(message),
            bytes_mut_seq(*final(scratch)),
        ),
{
    let body_len: usize = body.len();
    bytes_mut_reserve(scratch, HEADER_LEN + body_len);
    bytes_mut_put_u8(scratch, 0);
    bytes_mut_put_u32(scratch, body_len as u32);
    bytes_mut_put_slice(scratch, body);
    assert(bytes_mut_seq(*scratch) =~= bytes_mut_seq(*old(scratch)) + frame(body@));
    let message: BytesMut = bytes_mut_split(scratch);
    bytes_mut_freeze(message)
}

/// Encodes the `ParseWarcRequest` that carries `chunk` as one gRPC frame.
#[must_use]
pub fn encode_chunk_message(chunk: &Bytes) -> (message: Bytes)
    requires
        chunk_request(bytes_seq(*chunk)).len() <= u32::MAX,
        HEADER_LEN + 20 + bytes_seq(*chunk).len() <= isize::MAX,
    ensures
        bytes_seq(message) == frame(chunk_request(bytes_seq(*chunk))),
{
    let ghost content = bytes_seq(*chunk);
    let mut body: BytesMut = bytes_mut_new();
    encode_bytes_field(CHUNK_TAG, chunk, &mut body);
    proof {
        lemma_varint_len(content.len());
        lemma_varint_len_bound(content.len());
        assert(bytes_mut_seq(body) =~= chunk_request(content));
    }
    let encoded: Bytes = bytes_mut_freeze(body);
    encode_message(bytes_slice(&encoded))
}

/// The bytes that go out ahead of a chunk of `chunk_len` bytes: the gRPC frame
/// header, then the key and the length of the `chunk` field.
pub open spec fn chunk_prefix_seq(chunk_len: nat) -> Seq<u8> {
    seq![0u8] + be_bytes(1 + varint_len(chunk_len) + chunk_len) + seq![CHUNK_KEY] + varint(chunk_len)
}

/// gRPC frame header plus protobuf field prefix for a `ParseWarcRequest` whose
/// `chunk` field holds `chunk_len` bytes. The gRPC frame length limit is 4 GiB.
///
/// Sending `[chunk_prefix(chunk.len()), chunk]` as consecutive DATA frames is
/// wire-identical to encoding the whole request, but the archive bytes are
/// handed to HTTP/2 by reference instead of being copied into a frame buffer.
#[must_use]
pub fn chunk_prefix(chunk_len: usize) -> (prefix: Bytes)
    requires
        1 + varint_len(chunk_len as nat) + chunk_len <= u32::MAX,
    ensures
        bytes_seq(prefix) == chunk_prefix_seq(chunk_len as nat),
{
    let mut length: Vec<u8> = Vec::new();
    let mut value: usize = chunk_len;
    proof {
        lemma_varint_len(chunk_len as nat);
        lemma_varint_len_bound(chunk_len as nat);
        assert(Seq::<u8>::empty() + varint(chunk_len as nat) =~= varint(chunk_len as nat));
    }
    while value >= 0x80
        invariant
            length@ + varint(value as nat) == varint(chunk_len as nat),
        decreases value,
    {
        let ghost before = length@;
        let byte: u8 = (value % 0x80) as u8;
        length.push(byte + 0x80);
        assert(length@ + varint((value / 0x80) as nat) =~= before + varint(value as nat));
        value = value / 0x80;
    }
    let ghost before = length@;
    length.push(value as u8);
    assert(length@ =~= before + varint(value as nat));
    let body_len: usize = 1 + length.len() + chunk_len;
    let mut buf: BytesMut = bytes_mut_with_capacity(HEADER_LEN + 1 + length.len());
    bytes_mut_put_u8(&mut buf, 0);
    bytes_mut_put_u32(&mut buf, body_len as u32);
    bytes_mut_put_u8(&mut buf, CHUNK_KEY);
    bytes_mut_put_slice(&mut buf, length.as_slice());
    assert(bytes_mut_seq(buf) =~= chunk_prefix_seq(chunk_len as nat));
    bytes_mut_freeze(buf)
}

/// Appending a segment appends its bytes.
proof fn lemma_concat_push(segments: Seq<Bytes>, last: Bytes)
    ensures
        concat(segments.push(last)) == concat(segments) + bytes_seq(last),
    decreases segments.len(),
{
    let all = segments.push(last);
    if segments.len() == 0 {
        assert(all.drop_first() =~= Seq::<Bytes>::empty());
        assert(concat(all.drop_first()) =~= Seq::<u8>::empty());
        assert(concat(all) =~= concat(segments) + bytes_seq(last));
    } else {
        lemma_concat_push(segments.drop_first(), last);
        assert(all.drop_first() =~= segments.drop_first().push(last));
        assert(concat(all) =~= concat(segments) + bytes_seq(last));
    }
}

/// A chunk behind its prefix is, byte for byte, the message that encodes the
/// whole request.
pub proof fn law_chunk_prefix_is_wire_identical(chunk: Seq<u8>)
    ensures
        chunk_prefix_seq(chunk.len()) + chunk == frame(chunk_request(chunk)),
{
    lemma_varint_len(chunk.len());
    assert(chunk_request(chunk).len() == 1 + varint_len(chunk.len()) + chunk.len());
    assert(chunk_prefix_seq(chunk.len()) + chunk =~= frame(chunk_request(chunk)));
}

/// What the splitter finds at the front of a stream that starts with an
/// encoded message is that message's body, with what follows it left over.
pub proof fn law_message_survives_framing(body: Seq<u8>, rest: Seq<u8>, max: nat)
    requires
        body.len() <= max,
        body.len() <= u32::MAX,
    ensures
        front(frame(body) + rest, max) == Front::Message(body),
        (frame(body) + rest).skip((HEADER_LEN + body.len()) as int) == rest,
{
    let stream = frame(body) + rest;
    lemma_frame_len(body);
    lemma_be_value(body.len());
    assert(stream.subrange(1, 5) =~= frame(body).subrange(1, 5));
    assert(stream.subrange(5, HEADER_LEN + body.len()) =~= body);
    assert(stream.skip((HEADER_LEN + body.len()) as int) =~= rest);
}

/// However a sequence of encoded messages is cut into frames, the splitter
/// hands out exactly their bodies, in order.
pub proof fn law_messages_survive_fragmentation(bodies: Seq<Seq<u8>>, pieces: Seq<Bytes>, max: nat)
    requires
        concat(pieces) == frames(bodies),
        forall|i: int|
            0 <= i < bodies.len() ==> (#[trigger] bodies[i]).len() <= max && bodies[i].len() <= u32::MAX,
    ensures
        messages(concat(pieces), max) == bodies,
{
    lemma_messages_of_frames(bodies, max);
}

/// Splitting a concatenation of encoded messages gives back their bodies.
pub proof fn lemma_messages_of_frames(bodies: Seq<Seq<u8>>, max: nat)
    requires
        forall|i: int|
            0 <= i < bodies.len() ==> (#[trigger] bodies[i]).len() <= max && bodies[i].len() <= u32::MAX,
    ensures
        messages(frames(bodies), max) == bodies,
    decreases bodies.len(),
{
    if bodies.len() == 0 {
        assert(messages(frames(bodies), max) =~= bodies);
    } else {
        let rest = bodies.drop_first();
        assert forall|i: int| 0 <= i < rest.len() implies (#[trigger] rest[i]).len() <= max && rest[i].len()
            <= u32::MAX by {
            assert(rest[i] == bodies[i + 1]);
        }
        lemma_messages_of_frames(rest, max);
        law_message_survives_framing(bodies[0], frames(rest), max);
        assert(messages(frames(bodies), max) =~= bodies);
    }
}

/// Once the front of a stream holds a message or an error, bytes that arrive
/// later do not change it.
pub proof fn law_front_is_final(stream: Seq<u8>, more: Seq<u8>, max: nat)
    requires
        front(stream, max) !is Incomplete,
    ensures
        front(stream + more, max) == front(stream, max),
{
    let all = stream + more;
    assert(all.subrange(1, 5) =~= stream.subrange(1, 5));
    if let Front::Message(body) = front(stream, max) {
        assert(all.subrange(5, HEADER_LEN + body.len()) =~= stream.subrange(5, HEADER_LEN + body.len()));
    }
}

/// What is left of `stream` behind the complete messages at its front.
pub open spec fn leftover(stream: Seq<u8>, max: nat) -> Seq<u8>
    decreases stream.len(),
{
    match front(stream, max) {
        Front::Message(body) => leftover(stream.skip((HEADER_LEN + body.len()) as int), max),
        _ => stream,
    }
}

/// Messages may be taken off as soon as they are complete: those of a stream
/// that grows are the ones that it held before, followed by the ones that the
/// leftover makes with the new bytes.
pub proof fn law_messages_can_be_taken_early(stream: Seq<u8>, more: Seq<u8>, max: nat)
    ensures
        messages(stream + more, max) == messages(stream, max) + messages(
            leftover(stream, max) + more,
            max,
        ),
    decreases stream.len(),
{
    let all = stream + more;
    if let Front::Message(body) = front(stream, max) {
        let taken = (HEADER_LEN + body.len()) as int;
        law_front_is_final(stream, more, max);
        law_messages_can_be_taken_early(stream.skip(taken), more, max);
        assert(all.skip(taken) =~= stream.skip(taken) + more);
        assert(messages(all, max) =~= messages(stream, max) + messages(
            leftover(stream, max) + more,
            max,
        ));
    } else {
        assert(messages(all, max) =~= messages(stream, max) + messages(all, max));
    }
}

/// Whether these frames, queued one by one, lead through these splitters, the
/// first of which is empty.
pub open spec fn pushes_through(splitters: Seq<MessageSplitter>, pieces: Seq<Bytes>) -> bool {
    &&& splitters.len() == pieces.len() + 1
    &&& splitters[0]@ == Seq::<u8>::empty()
    &&& forall|i: int|
        0 <= i < pieces.len() ==> pushes(
            splitters[i]@,
            bytes_seq(pieces[i]),
            (#[trigger] splitters[i + 1])@,
        )
}

/// Whether asking for the next message over and over gives these results and
/// leads through these splitters.
pub open spec fn pops_through(
    splitters: Seq<MessageSplitter>,
    results: Seq<Result<Option<Bytes>, Status>>,
    max: nat,
) -> bool {
    &&& splitters.len() == results.len() + 1
    &&& forall|i: int|
        0 <= i < results.len() ==> pops(
            splitters[i]@,
            max,
            results[i],
            (#[trigger] splitters[i + 1])@,
        )
}

/// What is queued is the bytes of the frames, in order.
proof fn lemma_pushes_queue_the_frames(splitters: Seq<MessageSplitter>, pieces: Seq<Bytes>)
    requires
        pushes_through(splitters, pieces),
    ensures
        splitters.last()@ == concat(pieces),
    decreases pieces.len(),
{
    if pieces.len() > 0 {
        let n = pieces.len() - 1;
        let earlier = splitters.drop_last();
        let less = pieces.drop_last();
        assert forall|i: int| 0 <= i < n implies pushes(
            earlier[i]@,
            bytes_seq(less[i]),
            (#[trigger] earlier[i + 1])@,
        ) by {
            assert(pushes(splitters[i]@, bytes_seq(pieces[i]), splitters[i + 1]@));
        }
        lemma_pushes_queue_the_frames(earlier, less);
        lemma_concat_push(less, pieces[n]);
        assert(less.push(pieces[n]) =~= pieces);
        assert(pushes(splitters[n]@, bytes_seq(pieces[n]), splitters[n + 1]@));
    }
}

/// What is queued after as many messages as `count` were taken off.
proof fn lemma_pops_leave_the_rest(
    splitters: Seq<MessageSplitter>,
    results: Seq<Result<Option<Bytes>, Status>>,
    bodies: Seq<Seq<u8>>,
    max: nat,
    count: int,
)
    requires
        pops_through(splitters, results, max),
        splitters[0]@ == frames(bodies),
        0 <= count <= bodies.len(),
        count < splitters.len(),
        forall|i: int|
            0 <= i < bodies.len() ==> (#[trigger] bodies[i]).len() <= max && bodies[i].len() <= u32::MAX,
    ensures
        splitters[count]@ == frames(bodies.skip(count)),
    decreases count,
{
    if count == 0 {
        assert(bodies.skip(0) =~= bodies);
    } else {
        let i = count - 1;
        let rest = bodies.skip(i);
        lemma_pops_leave_the_rest(splitters, results, bodies, max, i);
        assert(rest.drop_first() =~= bodies.skip(count));
        assert(rest[0] == bodies[i]);
        law_message_survives_framing(bodies[i], frames(bodies.skip(count)), max);
        assert(pops(splitters[i]@, max, results[i], splitters[i + 1]@));
    }
}

/// Frames go in, complete messages come out: however a sequence of encoded
/// messages is cut into frames, empty ones among them, asking for messages gives
/// their bodies one by one and in order, and then says that more is needed.
pub proof fn law_splitter_gives_back_the_messages(
    bodies: Seq<Seq<u8>>,
    pieces: Seq<Bytes>,
    filled: Seq<MessageSplitter>,
    emptied: Seq<MessageSplitter>,
    results: Seq<Result<Option<Bytes>, Status>>,
    max: nat,
)
    requires
        concat(pieces) == frames(bodies),
        forall|i: int|
            0 <= i < bodies.len() ==> (#[trigger] bodies[i]).len() <= max && bodies[i].len() <= u32::MAX,
        pushes_through(filled, pieces),
        pops_through(emptied, results, max),
        emptied[0]@ == filled.last()@,
        results.len() == bodies.len() + 1,
    ensures
        forall|i: int|
            0 <= i < bodies.len() ==> (#[trigger] results[i] matches Ok(Some(message)) && bytes_seq(
                message,
            ) == bodies[i]),
        results.last() == Ok::<Option<Bytes>, Status>(None),
        emptied.last()@ == Seq::<u8>::empty(),
{
    lemma_pushes_queue_the_frames(filled, pieces);
    assert forall|i: int| 0 <= i < bodies.len() implies (#[trigger] results[i] matches Ok(
        Some(message),
    ) && bytes_seq(message) == bodies[i]) by {
        let rest = bodies.skip(i);
        lemma_pops_leave_the_rest(emptied, results, bodies, max, i);
        assert(rest[0] == bodies[i]);
        law_message_survives_framing(bodies[i], frames(rest.drop_first()), max);
        assert(pops(emptied[i]@, max, results[i], emptied[i + 1]@));
    }
    let n = bodies.len() as int;
    lemma_pops_leave_the_rest(emptied, results, bodies, max, n);
    assert(bodies.skip(n) =~= Seq::<Seq<u8>>::empty());
    assert(pops(emptied[n]@, max, results[n], emptied[n + 1]@));
}

/// A scratch buffer may be used over and over: through one that is empty at
/// first, every message is encoded as it would be by itself, whatever was
/// encoded before it.
pub proof fn law_scratch_can_be_reused(
    scratches: Seq<Seq<u8>>,
    bodies: Seq<Seq<u8>>,
    messages: Seq<Seq<u8>>,
)
    requires
        scratches.len() == bodies.len() + 1,
        messages.len() == bodies.len(),
        scratches[0] == Seq::<u8>::empty(),
        forall|i: int|
            0 <= i < bodies.len() ==> encodes_into(
                scratches[i],
                bodies[i],
                messages[i],
                #[trigger] scratches[i + 1],
            ),
    ensures
        forall|i: int| 0 <= i < bodies.len() ==> #[trigger] messages[i] == frame(bodies[i]),
{
    assert forall|i: int| 0 <= i < bodies.len() implies #[trigger] messages[i] == frame(
        bodies[i],
    ) by {
        if i > 0 {
            let k = i - 1;
            assert(encodes_into(scratches[k], bodies[k], messages[k], scratches[k + 1]));
        }
        assert(encodes_into(scratches[i], bodies[i], messages[i], scratches[i + 1]));
        assert(Seq::<u8>::empty() + frame(bodies[i]) =~= frame(bodies[i]));
    }
}

/// What the front of a stream is, byte by byte: five bytes of header are needed;
/// a first byte other than zero is refused; the next four state the length, most
/// significant first; one above the limit is refused; and the message is complete
/// once so many bytes follow.
pub proof fn law_front_is_read_off_the_bytes(stream: Seq<u8>, max: nat)
    ensures
        stream.len() < 5 ==> front(stream, max) is Incomplete,
        stream.len() >= 5 && stream[0] != 0 ==> front(stream, max) is Compressed,
        stream.len() >= 5 && stream[0] == 0 ==> {
            let len = stream[1] * 16777216 + stream[2] * 65536 + stream[3] * 256 + stream[4];
            &&& len > max ==> front(stream, max) == Front::TooLong(len as nat)
            &&& len <= max && stream.len() < 5 + len ==> front(stream, max) is Incomplete
            &&& len <= max && stream.len() >= 5 + len ==> front(stream, max) == Front::Message(
                stream.subrange(5, 5 + len),
            )
        },
{
    if stream.len() >= 5 {
        let bytes = stream.subrange(1, 5);
        assert(bytes[0] == stream[1]);
        assert(bytes[1] == stream[2]);
        assert(bytes[2] == stream[3]);
        assert(bytes[3] == stream[4]);
    }
}

/// Four bytes are the spelling of the number that they spell.
proof fn lemma_be_bytes_of_value(bytes: Seq<u8>)
    requires
        bytes.len() == 4,
    ensures
        be_bytes(be_value(bytes)) == bytes,
        be_value(bytes) <= u32::MAX,
{
    let value = be_value(bytes);
    let a = bytes[0] as nat;
    let b = bytes[1] as nat;
    let c = bytes[2] as nat;
    let d = bytes[3] as nat;
    assert(value == a * 0x100_0000 + b * 0x1_0000 + c * 0x100 + d);
    assert(value / 0x100_0000 == a);
    assert(value / 0x1_0000 == a * 0x100 + b);
    assert(value / 0x100 == a * 0x1_0000 + b * 0x100 + c);
    assert(be_bytes(value) =~= bytes);
}

/// A message at the front of a stream is there as it was framed.
proof fn lemma_front_message_is_framed(stream: Seq<u8>, max: nat)
    requires
        front(stream, max) is Message,
    ensures
        ({
            let body = front(stream, max)->Message_0;
            &&& body.len() <= max
            &&& body.len() <= u32::MAX
            &&& frame(body) + stream.skip((HEADER_LEN + body.len()) as int) == stream
        }),
{
    let body = front(stream, max)->Message_0;
    let bytes = stream.subrange(1, 5);
    lemma_be_bytes_of_value(bytes);
    lemma_frame_len(body);
    let whole = frame(body) + stream.skip((HEADER_LEN + body.len()) as int);
    assert forall|i: int| 0 <= i < stream.len() implies whole[i] == stream[i] by {
        if 1 <= i < 5 {
            assert(frame(body)[i] == be_bytes(body.len())[i - 1]);
            assert(bytes[i - 1] == stream[i]);
        }
    }
    assert(whole =~= stream);
}

/// The messages of a stream, framed one behind the other, and what is left over
/// are the stream. Each is within the limit, and what is left over holds no
/// complete message at its front.
pub proof fn law_messages_and_leftover_are_the_stream(stream: Seq<u8>, max: nat)
    ensures
        frames(messages(stream, max)) + leftover(stream, max) == stream,
        front(leftover(stream, max), max) !is Message,
        forall|i: int|
            0 <= i < messages(stream, max).len() ==> (#[trigger] messages(stream, max)[i]).len()
                <= max,
    decreases stream.len(),
{
    if let Front::Message(body) = front(stream, max) {
        let rest = stream.skip((HEADER_LEN + body.len()) as int);
        let later = messages(rest, max);
        let left = leftover(rest, max);
        lemma_front_message_is_framed(stream, max);
        law_messages_and_leftover_are_the_stream(rest, max);
        lemma_one_more_message(body, later, left, stream, rest, max);
    } else {
        assert(frames(messages(stream, max)) + leftover(stream, max) =~= stream);
    }
}

/// A message in front of others.
proof fn lemma_one_more_message(
    body: Seq<u8>,
    later: Seq<Seq<u8>>,
    left: Seq<u8>,
    stream: Seq<u8>,
    rest: Seq<u8>,
    max: nat,
)
    requires
        frame(body) + rest == stream,
        frames(later) + left == rest,
        body.len() <= max,
        forall|i: int| 0 <= i < later.len() ==> (#[trigger] later[i]).len() <= max,
    ensures
        frames(seq![body] + later) + left == stream,
        forall|i: int|
            0 <= i < (seq![body] + later).len() ==> (#[trigger] (seq![body] + later)[i]).len()
                <= max,
{
    let all = seq![body] + later;
    assert(all.drop_first() =~= later);
    assert(all[0] == body);
    assert(frames(all) == frame(body) + frames(later));
    assert((frame(body) + frames(later)) + left =~= frame(body) + (frames(later) + left));
    assert forall|i: int| 0 <= i < all.len() implies (#[trigger] all[i]).len() <= max by {
        if i > 0 {
            assert(all[i] == later[i - 1]);
        }
    }
}

/// Taking a message off a queue loses nothing: the message, framed, and what is
/// left are what was queued. Where there is none to take, the queue is left as it
/// is. A message is taken exactly where one within the limit stands at the front,
/// more is waited for exactly where no header, or only a part of such a message,
/// is there, and the two failures are told apart by the first byte.
pub proof fn law_taking_a_message_loses_nothing(
    before: Seq<u8>,
    max: nat,
    result: Result<Option<Bytes>, Status>,
    after: Seq<u8>,
)
    requires
        pops(before, max, result, after),
    ensures
        match result {
            Ok(Some(message)) => {
                &&& frame(bytes_seq(message)) + after == before
                &&& bytes_seq(message).len() <= max
            },
            Ok(None) => {
                &&& after == before
                &&& before.len() < 5 || (before[0] == 0 && before[1] * 16777216 + before[2] * 65536
                    + before[3] * 256 + before[4] <= max && before.len() < 5 + before[1] * 16777216
                    + before[2] * 65536 + before[3] * 256 + before[4])
            },
            Err(status) => {
                &&& after == before
                &&& before.len() >= 5
                &&& if before[0] != 0 {
                    &&& status.code == Code::InvalidArgument
                    &&& status.message@ == "compressed gRPC messages are not supported"@
                } else {
                    &&& status.code == Code::OutOfRange
                    &&& before[1] * 16777216 + before[2] * 65536 + before[3] * 256 + before[4] > max
                }
            },
        },
        forall|body: Seq<u8>|
            body.len() <= max && body.len() <= u32::MAX && #[trigger] frame(body).is_prefix_of(
                before,
            ) ==> (result matches Ok(Some(message)) && bytes_seq(message) == body),
{
    law_front_is_read_off_the_bytes(before, max);
    if front(before, max) is Message {
        lemma_front_message_is_framed(before, max);
    }
    assert forall|body: Seq<u8>|
        body.len() <= max && body.len() <= u32::MAX && #[trigger] frame(body).is_prefix_of(
            before,
        ) implies (result matches Ok(Some(message)) && bytes_seq(message) == body) by {
        let rest = before.skip(frame(body).len() as int);
        law_message_survives_framing(body, rest, max);
        assert(frame(body) + rest =~= before);
    }
}

/// What goes through a scratch buffer comes out behind what the buffer held: a
/// zero byte, the length of the body and the body, with nothing left behind.
pub proof fn law_scratch_keeps_what_it_held(
    before: Seq<u8>,
    body: Seq<u8>,
    message: Seq<u8>,
    after: Seq<u8>,
)
    requires
        body.len() <= u32::MAX,
        encodes_into(before, body, message, after),
    ensures
        after.len() == 0,
        message.len() == before.len() + 5 + body.len(),
        message.take(before.len() as int) == before,
        message[before.len() as int] == 0,
        ({
            let frame = message.skip(before.len() as int);
            frame[1] * 16777216 + frame[2] * 65536 + frame[3] * 256 + frame[4] == body.len()
        }),
        message.skip(before.len() + 5int) == body,
{
    lemma_frame_len(body);
    crate::wire::law_frame_layout(body);
    assert(message.skip(before.len() as int) =~= frame(body));
    assert(message.take(before.len() as int) =~= before);
    assert(message.skip(before.len() + 5int) =~= body);
}

/// The bytes of two runs of segments are those of the one, then of the other.
pub proof fn law_segments_stand_in_order(a: Seq<Bytes>, b: Seq<Bytes>, segment: Bytes)
    ensures
        concat(a + b) == concat(a) + concat(b),
        concat(seq![segment]) == bytes_seq(segment),
    decreases a.len(),
{
    assert(seq![segment].drop_first() =~= Seq::<Bytes>::empty());
    assert(concat(Seq::<Bytes>::empty()) =~= Seq::<u8>::empty());
    assert(concat(seq![segment]) =~= bytes_seq(segment));
    if a.len() == 0 {
        assert(a + b =~= b);
        assert(concat(a) + concat(b) =~= concat(b));
    } else {
        law_segments_stand_in_order(a.drop_first(), b, segment);
        assert((a + b).drop_first() =~= a.drop_first() + b);
        assert(concat(a + b) =~= concat(a) + concat(b));
    }
}

/// The refusal of a message that is too long says how long it is and what the
/// limit is, in decimal digits.
pub proof fn law_too_long_text(len: nat, max: nat)
    ensures
        exists|stated: Seq<char>, limit: Seq<char>|
            {
                &&& #[trigger] crate::text::parsed_number(stated) == Some(len)
                &&& #[trigger] crate::text::parsed_number(limit) == Some(max)
                &&& too_long_text(len, max) == "message of "@ + stated + " bytes exceeds the "@
                    + limit + " byte limit"@
            },
{
    crate::text::law_decimal_spells_its_value(len);
    crate::text::law_decimal_spells_its_value(max);
    let stated = decimal(len);
    let limit = decimal(max);
    assert(crate::text::parsed_number(stated) == Some(len));
    assert(crate::text::parsed_number(limit) == Some(max));
}

} // verus!
