//! The messages of the service.
//!
//! A message is held here as the plain values that the library reads. Where it
//! only needs to know how long the protobuf encoding of a part is, that part is
//! carried as its encoding, or with its encoded length beside it.

use prost::bytes::Bytes;
use vstd::prelude::*;

verus! {

/// Options of one parse. A zero size selects the server's default.
#[derive(Clone, Debug, PartialEq, Eq)]
pub struct ParseWarcConfig {
    /// Whether HTTP headers are parsed; unset selects the default.
    pub parse_http: Option<bool>,
    /// Whether record digests are verified.
    pub verify_digests: bool,
    /// Whether payload chunks are returned; unset selects the default.
    pub include_payload: Option<bool>,
    /// Whether header blocks are returned; unset selects the default.
    pub include_headers: Option<bool>,
    /// Largest header block that is accepted, in bytes.
    pub max_header_len: u32,
    /// Size of the returned payload chunks, in bytes.
    pub payload_chunk_size: u32,
    /// Size of the buffer that a local file is read through, in bytes.
    pub input_buffer_size: u32,
    /// Number of events per response message.
    pub response_batch_size: u32,
    /// Shortest record that is returned, in bytes of content.
    pub min_content_length: Option<u64>,
    /// Longest record that is returned, in bytes of content.
    pub max_content_length: Option<u64>,
    /// A file on the server to parse in place of uploaded chunks; empty for
    /// none.
    pub archive_path: String,
}

impl ParseWarcConfig {
    /// Whether every option is at the value that an absent field has, but for
    /// the archive path.
    pub open spec fn is_default_but_for_path(self) -> bool {
        &&& self.parse_http is None
        &&& !self.verify_digests
        &&& self.include_payload is None
        &&& self.include_headers is None
        &&& self.max_header_len == 0
        &&& self.payload_chunk_size == 0
        &&& self.input_buffer_size == 0
        &&& self.response_batch_size == 0
        &&& self.min_content_length is None
        &&& self.max_content_length is None
    }
}

impl Default for ParseWarcConfig {
    /// A configuration with no field set.
    fn default() -> (config: Self)
        ensures
            config.is_default_but_for_path(),
            config.archive_path@ == Seq::<char>::empty(),
            config.parse_http is None,
            !config.verify_digests,
            config.include_payload is None,
            config.include_headers is None,
            config.max_header_len == 0,
            config.payload_chunk_size == 0,
            config.input_buffer_size == 0,
            config.response_batch_size == 0,
            config.min_content_length is None,
            config.max_content_length is None,
    {
        ParseWarcConfig {
            parse_http: None,
            verify_digests: false,
            include_payload: None,
            include_headers: None,
            max_header_len: 0,
            payload_chunk_size: 0,
            input_buffer_size: 0,
            response_batch_size: 0,
            min_content_length: None,
            max_content_length: None,
            archive_path: String::new(),
        }
    }
}

/// One message of a request stream.
#[derive(Debug, PartialEq, Eq)]
pub struct ParseWarcRequest {
    /// What the message carries, if it carries anything.
    pub kind: Option<RequestKind>,
}

/// What a request message carries.
#[derive(Debug, PartialEq, Eq)]
pub enum RequestKind {
    /// The options of the parse; first message only.
    Config(ParseWarcConfig),
    /// The next bytes of the archive.
    Chunk(Bytes),
}

/// The metadata of one record, as its protobuf encoding.
#[derive(Clone, Debug, PartialEq, Eq)]
pub struct RecordMetadata {
    /// The encoded `RecordMetadata` message.
    pub encoded: Vec<u8>,
}

/// A record begins.
#[derive(Clone, Debug, PartialEq, Eq)]
pub struct RecordStart {
    /// What is known of the record ahead of its payload.
    pub metadata: Option<RecordMetadata>,
}

/// The next bytes of the open record's payload.
#[derive(Debug, PartialEq, Eq)]
pub struct PayloadChunk {
    /// Where in the payload the bytes stand.
    pub offset: u64,
    /// The bytes.
    pub data: Bytes,
}

/// The open record is complete.
#[derive(Clone, Debug, PartialEq, Eq)]
pub struct RecordEnd {
    /// Number of payload bytes in the record.
    pub payload_length: u64,
}

/// A record could not be read.
#[derive(Clone, Debug, PartialEq, Eq)]
pub struct RecordError {
    /// Number of the record in the archive, from zero.
    pub record_index: u64,
    /// Whether parsing goes on with the next record.
    pub recoverable: bool,
    /// What went wrong.
    pub message: String,
    /// Length of the protobuf encoding of this error.
    pub encoded_len: usize,
}

/// Several responses in one message.
#[derive(Debug, PartialEq, Eq)]
pub struct RecordBatch {
    /// The responses, in the order in which they were emitted.
    pub items: Vec<ParseWarcResponse>,
}

/// One message of a response stream.
#[derive(Debug, PartialEq, Eq)]
pub struct ParseWarcResponse {
    /// What the message carries, if it carries anything.
    pub kind: Option<ResponseKind>,
}

/// What a response message carries.
#[derive(Debug, PartialEq, Eq)]
pub enum ResponseKind {
    /// A record begins.
    RecordStart(RecordStart),
    /// Payload of the open record.
    PayloadChunk(PayloadChunk),
    /// The open record is complete.
    RecordEnd(RecordEnd),
    /// A record could not be read.
    RecordError(RecordError),
    /// Several responses at once.
    Batch(RecordBatch),
}

/// A whole record of a unary response.
#[derive(Clone, Debug, PartialEq, Eq)]
pub struct ParsedRecord {
    /// What was known of the record ahead of its payload.
    pub metadata: Option<RecordMetadata>,
    /// The payload.
    pub payload: Vec<u8>,
}

/// The unary response: every record of an archive, and every error.
#[derive(Clone, Debug, PartialEq, Eq)]
pub struct ParseArchiveResponse {
    /// The records that were read to their end, in order.
    pub records: Vec<ParsedRecord>,
    /// The errors, in order.
    pub errors: Vec<RecordError>,
}

/// The events of a response, with batches opened up.
pub open spec fn events(response: ParseWarcResponse) -> Seq<ResponseKind>
    decreases response,
{
    match response.kind {
        None => Seq::empty(),
        Some(ResponseKind::Batch(batch)) => all_events(batch.items@),
        Some(event) => seq![event],
    }
}

/// The events of consecutive responses.
pub open spec fn all_events(responses: Seq<ParseWarcResponse>) -> Seq<ResponseKind>
    decreases responses,
{
    if responses.len() == 0 {
        Seq::empty()
    } else {
        all_events(responses.drop_last()) + events(responses.last())
    }
}

/// Appending responses appends their events.
pub proof fn lemma_all_events_add(a: Seq<ParseWarcResponse>, b: Seq<ParseWarcResponse>)
    ensures
        all_events(a + b) == all_events(a) + all_events(b),
    decreases b.len(),
{
    if b.len() == 0 {
        assert(a + b =~= a);
        assert(all_events(a + b) =~= all_events(a) + all_events(b));
    } else {
        lemma_all_events_add(a, b.drop_last());
        assert((a + b).drop_last() =~= a + b.drop_last());
        assert(all_events(a + b) =~= all_events(a) + all_events(b));
    }
}

/// The events of responses, one by one: a response that is no batch is one event,
/// the one that it carries; an empty one is none; and a batch is the events of its
/// items, in order.
pub proof fn law_events_are_those_of_the_items(response: ParseWarcResponse)
    ensures
        response.kind is None ==> events(response).len() == 0,
        response.kind is Some && response.kind->0 !is Batch ==> events(response).len() == 1
            && events(response)[0] == response.kind->0,
        response.kind matches Some(ResponseKind::Batch(batch)) ==> events(response)
            == batch.items@.map_values(|item: ParseWarcResponse| events(item)).flatten(),
{
    if let Some(ResponseKind::Batch(batch)) = response.kind {
        lemma_all_events_is_flatten(batch.items@);
        assert(batch.items@.map_values(|item: ParseWarcResponse| events(item)) =~= event_lists(
            batch.items@,
        ));
    }
}

/// The events of each of the responses.
pub open spec fn event_lists(responses: Seq<ParseWarcResponse>) -> Seq<Seq<ResponseKind>> {
    Seq::new(responses.len(), |i: int| events(responses[i]))
}

/// The events of consecutive responses are theirs put end to end.
pub proof fn lemma_all_events_is_flatten(responses: Seq<ParseWarcResponse>)
    ensures
        all_events(responses) == event_lists(responses).flatten(),
    decreases responses.len(),
{
    let lists = event_lists(responses);
    if responses.len() == 0 {
        assert(all_events(responses) =~= lists.flatten());
    } else {
        let earlier = responses.drop_last();
        lemma_all_events_is_flatten(earlier);
        assert(event_lists(earlier).push(events(responses.last())) =~= lists);
        event_lists(earlier).lemma_flatten_push(events(responses.last()));
    }
}

/// Responses that are no batches are as many events, in order.
pub proof fn law_plain_responses_are_their_events(responses: Seq<ParseWarcResponse>)
    requires
        forall|i: int|
            0 <= i < responses.len() ==> (#[trigger] responses[i]).kind is Some
                && responses[i].kind->0 !is Batch,
    ensures
        all_events(responses).len() == responses.len(),
        forall|i: int|
            0 <= i < responses.len() ==> #[trigger] all_events(responses)[i]
                == responses[i].kind->0,
    decreases responses.len(),
{
    if responses.len() > 0 {
        let earlier = responses.drop_last();
        assert forall|i: int| 0 <= i < earlier.len() implies (#[trigger] earlier[i]).kind is Some
            && earlier[i].kind->0 !is Batch by {
            assert(responses[i].kind is Some);
        }
        law_plain_responses_are_their_events(earlier);
        let last = responses[responses.len() - 1];
        assert(last.kind is Some && last.kind->0 !is Batch);
        law_events_are_those_of_the_items(last);
        assert(all_events(responses) == all_events(earlier) + events(last));
        assert forall|i: int| 0 <= i < responses.len() implies #[trigger] all_events(responses)[i]
            == responses[i].kind->0 by {
            if i < earlier.len() {
                assert(all_events(earlier)[i] == earlier[i].kind->0);
            }
        }
    }
}

} // verus!
