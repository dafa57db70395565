//! The events of one record: a start, its payload in chunks, and an end. A
//! payload that cannot be read to its end is closed by an error and an end.

use prost::bytes::Bytes;
use vstd::prelude::*;
use vstd::string::StringExecFns;

use crate::archive::Assembly;
use crate::buffers::bytes_len;
use crate::message::{
    ParseWarcResponse, PayloadChunk, RecordEnd, RecordError, RecordMetadata, RecordStart,
    ResponseKind,
};
use crate::{archive, buffers};

verus! {

/// Whether each chunk starts where the one before it ends, and the first one at
/// zero.
pub open spec fn contiguous(chunks: Seq<PayloadChunk>) -> bool {
    forall|i: int|
        0 <= i < chunks.len() ==> (#[trigger] chunks[i]).offset == archive::chunk_bytes(
            chunks.take(i),
        ).len()
}

/// The chunk that carries `data` behind other chunks.
pub open spec fn chunk_behind(chunks: Seq<PayloadChunk>, data: Bytes) -> PayloadChunk {
    PayloadChunk { offset: archive::chunk_bytes(chunks).len() as u64, data }
}

/// The error for a payload that could not be read to its end.
pub open spec fn failure_of(record_index: u64, message: String, encoded_len: usize) -> ResponseKind {
    ResponseKind::RecordError(
        RecordError { record_index, recoverable: false, message, encoded_len },
    )
}

/// The end of a record with these chunks.
pub open spec fn end_of(chunks: Seq<PayloadChunk>) -> ResponseKind {
    ResponseKind::RecordEnd(
        RecordEnd { payload_length: archive::chunk_bytes(chunks).len() as u64 },
    )
}

/// A record whose start has been emitted, and its end not yet.
pub struct RecordEvents {
    streamed: u64,
    chunks: Ghost<Seq<PayloadChunk>>,
}

impl RecordEvents {
    /// The payload chunks emitted so far.
    pub closed spec fn chunks(&self) -> Seq<PayloadChunk> {
        self.chunks@
    }

    /// The chunks are contiguous, and their bytes are counted.
    pub closed spec fn wf(&self) -> bool {
        &&& contiguous(self.chunks@)
        &&& self.streamed == archive::chunk_bytes(self.chunks@).len()
    }

    /// Begins a record. Answers with its first event.
    pub fn begin(metadata: Option<RecordMetadata>) -> (begun: (Self, ParseWarcResponse))
        ensures
            begun.0.wf(),
            begun.0.chunks() == Seq::<PayloadChunk>::empty(),
            begun.1.kind == Some(ResponseKind::RecordStart(RecordStart { metadata })),
    {
        let record = RecordEvents { streamed: 0, chunks: Ghost(Seq::empty()) };
        let start = ParseWarcResponse {
            kind: Some(ResponseKind::RecordStart(RecordStart { metadata })),
        };
        (record, start)
    }

    /// Whether the record can take in `len` more bytes without outgrowing its
    /// byte count.
    pub fn has_room(&self, len: usize) -> (room: bool)
        requires
            self.wf(),
        ensures
            room == (archive::chunk_bytes(self.chunks()).len() + len <= u64::MAX),
    {
        len as u64 <= u64::MAX - self.streamed
    }

    /// The event for the next payload bytes.
    pub fn chunk(&mut self, data: Bytes) -> (event: ParseWarcResponse)
        requires
            old(self).wf(),
            archive::chunk_bytes(old(self).chunks()).len() + buffers::bytes_seq(data).len()
                <= u64::MAX,
        ensures
            final(self).wf(),
            ({
                let chunk = chunk_behind(old(self).chunks(), data);
                &&& event.kind == Some(ResponseKind::PayloadChunk(chunk))
                &&& final(self).chunks() == old(self).chunks().push(chunk)
            }),
    {
        let offset: u64 = self.streamed;
        let len: usize = bytes_len(&data);
        let ghost before = self.chunks@;
        let ghost chunk = PayloadChunk { offset, data };
        self.streamed = offset + len as u64;
        self.chunks = Ghost(before.push(chunk));
        proof {
            assert(before.push(chunk).drop_last() =~= before);
            assert forall|i: int| 0 <= i < self.chunks@.len() implies (
            #[trigger] self.chunks@[i]).offset == archive::chunk_bytes(self.chunks@.take(i)).len() by {
                assert(self.chunks@.take(i) =~= before.take(i));
                if i == before.len() {
                    assert(before.take(i) =~= before);
                } else {
                    assert(self.chunks@[i] == before[i]);
                }
            }
        }
        ParseWarcResponse { kind: Some(ResponseKind::PayloadChunk(PayloadChunk { offset, data })) }
    }

    /// Ends the record. The end counts the payload bytes that were streamed.
    pub fn end(self) -> (event: ParseWarcResponse)
        requires
            self.wf(),
        ensures
            event.kind == Some(end_of(self.chunks())),
    {
        ParseWarcResponse {
            kind: Some(ResponseKind::RecordEnd(RecordEnd { payload_length: self.streamed })),
        }
    }

    /// Gives up on the payload: an unrecoverable error, and an end that counts
    /// the payload bytes streamed before the failure. `encoded_len` is the
    /// length of the error's encoding.
    pub fn fail(self, record_index: u64, message: String, encoded_len: usize) -> (events: (
        ParseWarcResponse,
        ParseWarcResponse,
    ))
        requires
            self.wf(),
        ensures
            events.0.kind == Some(failure_of(record_index, message, encoded_len)),
            events.1.kind == Some(end_of(self.chunks())),
    {
        let error = ParseWarcResponse {
            kind: Some(
                ResponseKind::RecordError(RecordError { record_index, recoverable: false, message, encoded_len }),
            ),
        };
        (error, self.end())
    }
}

/// The message for a payload that could not be read to its end.
pub fn payload_failure_message(error: &str) -> (message: String)
    ensures
        message@ == "failed to read record payload: "@ + error@,
{
    let mut message: String = "failed to read record payload: ".to_owned();
    message.append(error);
    message
}

/// A record that ends has the length that its end states: what its events
/// assemble to holds exactly as many bytes.
pub proof fn law_end_counts_the_payload(
    before: Assembly,
    metadata: Option<RecordMetadata>,
    chunks: Seq<PayloadChunk>,
)
    requires
        archive::chunk_bytes(chunks).len() <= u64::MAX,
    ensures
        ({
            let payload_length = archive::chunk_bytes(chunks).len() as u64;
            let after = before.after(ResponseKind::RecordStart(RecordStart { metadata })).after_all(
                archive::chunk_events(chunks),
            ).after(ResponseKind::RecordEnd(RecordEnd { payload_length }));
            &&& after.records.drop_last() == before.records
            &&& after.records.last().payload == archive::chunk_bytes(chunks)
            &&& after.records.last().payload.len() == payload_length
        }),
{
    let payload_length = archive::chunk_bytes(chunks).len() as u64;
    archive::law_record_is_assembled(before, metadata, chunks, payload_length);
    let after = before.after(ResponseKind::RecordStart(RecordStart { metadata })).after_all(
        archive::chunk_events(chunks),
    ).after(ResponseKind::RecordEnd(RecordEnd { payload_length }));
    assert(after.records.drop_last() =~= before.records);
}

/// The chunks of a record stand one behind the other: each carries its bytes as they
/// are, at the offset that is the length of all before it put end to end, and the end
/// states the length of them all.
pub proof fn law_chunks_are_placed_end_to_end(chunks: Seq<PayloadChunk>, data: Bytes)
    requires
        archive::chunk_bytes(chunks).len() + buffers::bytes_seq(data).len() <= u64::MAX,
    ensures
        ({
            let before = Seq::new(
                chunks.len(),
                |i: int| buffers::bytes_seq(chunks[i].data),
            ).flatten();
            let chunk = chunk_behind(chunks, data);
            &&& buffers::bytes_seq(chunk.data) == buffers::bytes_seq(data)
            &&& chunk.offset == before.len()
            &&& end_of(chunks) == ResponseKind::RecordEnd(
                RecordEnd { payload_length: before.len() as u64 },
            )
            &&& end_of(chunks.push(chunk)) == ResponseKind::RecordEnd(
                RecordEnd {
                    payload_length: (before.len() + buffers::bytes_seq(data).len()) as u64,
                },
            )
        }),
{
    archive::law_payload_is_the_chunks_end_to_end(chunks);
    let chunk = chunk_behind(chunks, data);
    assert(chunks.push(chunk).drop_last() =~= chunks);
}

/// A payload that cannot be read to its end ends the parse, and its record does not
/// count: the error is not recoverable, keeps its record, message and length, and what
/// was assembled of the record is discarded.
pub proof fn law_failed_payload_discards_the_record(
    before: Assembly,
    metadata: Option<RecordMetadata>,
    chunks: Seq<PayloadChunk>,
    record_index: u64,
    message: String,
    encoded_len: usize,
)
    ensures
        failure_of(record_index, message, encoded_len) matches ResponseKind::RecordError(error)
            && !error.recoverable && error.record_index == record_index && error.message == message
            && error.encoded_len == encoded_len,
        ({
            let after = before.after(ResponseKind::RecordStart(RecordStart { metadata })).after_all(
                archive::chunk_events(chunks),
            ).after(failure_of(record_index, message, encoded_len)).after(end_of(chunks));
            &&& after.open is None
            &&& after.records == before.records
            &&& after.errors.len() == before.errors.len() + 1
            &&& after.errors.drop_last() == before.errors
        }),
{
    let started = before.after(ResponseKind::RecordStart(RecordStart { metadata }));
    archive::lemma_chunks_are_appended(started, metadata, chunks);
    let error = failure_of(record_index, message, encoded_len)->RecordError_0;
    assert(before.errors.push(error).drop_last() =~= before.errors);
}

} // verus!
