//! The upload benchmark: how it is configured, and what it counts.

use vstd::prelude::*;

use crate::message::{ParseWarcConfig, ParseWarcResponse, ResponseKind};
use crate::text::parse_usize;
use crate::{grpc_frame, message, text, wire};

verus! {

/// Size of an uploaded chunk when none is configured.
pub const DEFAULT_BUFFER_SIZE: usize = 0x10_0000;

/// The largest message that client and server accept.
pub const MAX_MESSAGE_SIZE: usize = 0x100_0000;

/// Concurrent clients when no number is configured.
pub const DEFAULT_JOBS: usize = 8;

/// The number that a configured value spells, if it fits a `usize`.
pub open spec fn configured(value: Option<&str>) -> Option<nat> {
    match value {
        Some(value) => match text::parsed_number(value@) {
            Some(number) => if number <= usize::MAX {
                Some(number)
            } else {
                None
            },
            None => None,
        },
        None => None,
    }
}

/// Size of the uploaded chunks, by the configured number.
pub open spec fn chunk_size(configured: Option<nat>) -> nat {
    match configured {
        Some(number) => if number > 0 {
            number
        } else {
            DEFAULT_BUFFER_SIZE as nat
        },
        None => DEFAULT_BUFFER_SIZE as nat,
    }
}

/// Number of concurrent clients, by the configured number.
pub open spec fn job_count(configured: Option<nat>) -> nat {
    match configured {
        Some(number) => number,
        None => DEFAULT_JOBS as nat,
    }
}

/// Reads a configured number.
fn read_number(value: Option<&str>) -> (number: Option<usize>)
    ensures
        match number {
            Some(number) => configured(value) == Some(number as nat),
            None => configured(value) is None,
        },
{
    match value {
        Some(value) => parse_usize(value),
        None => None,
    }
}

/// Size of the uploaded chunks: the configured number, unless it is zero or no
/// number.
pub fn buffer_size(value: Option<&str>) -> (size: usize)
    ensures
        size == chunk_size(configured(value)),
        value is None ==> size == 1024 * 1024,
        size > 0,
{
    match read_number(value) {
        Some(number) => if number > 0 {
            number
        } else {
            DEFAULT_BUFFER_SIZE
        },
        None => DEFAULT_BUFFER_SIZE,
    }
}

/// Refuses chunks that leave no room for protobuf framing.
pub fn check_buffer_size(size: usize) -> (checked: Result<(), String>)
    ensures
        match checked {
            Ok(()) => size <= MAX_MESSAGE_SIZE / 2,
            Err(text) => size > MAX_MESSAGE_SIZE / 2 && text@
                == "BUFFER_SIZE must not exceed 8 MiB"@,
        },
        checked is Ok <==> size <= 8 * 1024 * 1024,
{
    if size > MAX_MESSAGE_SIZE / 2 {
        Err("BUFFER_SIZE must not exceed 8 MiB".to_owned())
    } else {
        Ok(())
    }
}

/// Number of concurrent clients: the configured number, if it is one.
pub fn jobs(value: Option<&str>) -> (jobs: usize)
    ensures
        jobs == job_count(configured(value)),
        value is None ==> jobs == 8,
{
    match read_number(value) {
        Some(number) => number,
        None => DEFAULT_JOBS,
    }
}

/// The configuration of the benchmark: no HTTP parsing, nothing echoed, batches
/// of 64.
pub fn upload_config() -> (config: ParseWarcConfig)
    ensures
        config.parse_http == Some(false),
        !config.verify_digests,
        config.include_payload == Some(false),
        config.include_headers == Some(false),
        config.max_header_len == 0,
        config.payload_chunk_size == 0,
        config.input_buffer_size == 0,
        config.response_batch_size == 64,
        config.min_content_length is None,
        config.max_content_length is None,
        config.archive_path@ == Seq::<char>::empty(),
{
    let mut config: ParseWarcConfig = ParseWarcConfig::default();
    config.parse_http = Some(false);
    config.include_payload = Some(false);
    config.include_headers = Some(false);
    config.response_batch_size = 64;
    config
}

/// What the benchmark has counted.
pub struct Counted {
    /// Number of records that ended.
    pub count: nat,
    /// Payload bytes of the records that ended.
    pub bytes: nat,
    /// The message of the error that ended the parse, if one did.
    pub fatal: Option<Seq<char>>,
}

impl Counted {
    /// The count after one more event. A fatal error stops the counting; a
    /// recoverable one is passed over.
    pub open spec fn after(self, event: ResponseKind) -> Counted {
        if self.fatal is Some {
            self
        } else {
            match event {
                ResponseKind::RecordEnd(end) => Counted {
                    count: self.count + 1,
                    bytes: self.bytes + end.payload_length as nat,
                    ..self
                },
                ResponseKind::RecordError(error) => if error.recoverable {
                    self
                } else {
                    Counted { fatal: Some(error.message@), ..self }
                },
                _ => self,
            }
        }
    }

    /// The count after consecutive events.
    pub open spec fn after_all(self, events: Seq<ResponseKind>) -> Counted
        decreases events.len(),
    {
        if events.len() == 0 {
            self
        } else {
            self.after_all(events.drop_last()).after(events.last())
        }
    }
}

/// The count that the benchmark's variables stand for.
pub open spec fn counted(count: usize, bytes: u64) -> Counted {
    Counted { count: count as nat, bytes: bytes as nat, fatal: None }
}

proof fn lemma_counted_add(start: Counted, a: Seq<ResponseKind>, b: Seq<ResponseKind>)
    ensures
        start.after_all(a + b) == start.after_all(a).after_all(b),
        start.after_all(a).count <= start.after_all(a + b).count,
        start.after_all(a).bytes <= start.after_all(a + b).bytes,
        start.after_all(a).fatal is Some ==> start.after_all(a + b) == start.after_all(a),
    decreases b.len(),
{
    if b.len() == 0 {
        assert(a + b =~= a);
    } else {
        lemma_counted_add(start, a, b.drop_last());
        assert((a + b).drop_last() =~= a + b.drop_last());
    }
}

proof fn lemma_counted_one(start: Counted, event: ResponseKind)
    ensures
        start.after_all(seq![event]) == start.after(event),
{
    assert(seq![event].drop_last() =~= Seq::<ResponseKind>::empty());
    assert(start.after_all(Seq::<ResponseKind>::empty()) == start);
}

/// Why the counting stopped.
#[derive(Clone, Debug, PartialEq, Eq)]
pub enum CountError {
    /// The archive holds something that the parser could not go on from; this
    /// is the parser's message.
    InvalidData(String),
}

/// Whether these are the variables and the result that a count stands for.
pub open spec fn is_count(
    after: Counted,
    count: usize,
    bytes: u64,
    result: Result<(), CountError>,
) -> bool {
    &&& count == after.count
    &&& bytes == after.bytes
    &&& match after.fatal {
        Some(text) => result matches Err(CountError::InvalidData(message)) && message@ == text,
        None => result is Ok,
    }
}

/// Counts completed records, skipping recoverable errors and failing on fatal
/// ones.
pub fn count_records(response: ParseWarcResponse, count: &mut usize, bytes: &mut u64) -> (result:
    Result<(), CountError>)
    requires
        counted(*old(count), *old(bytes)).after_all(message::events(response)).count <= usize::MAX,
        counted(*old(count), *old(bytes)).after_all(message::events(response)).bytes <= u64::MAX,
    ensures
        is_count(
            counted(*old(count), *old(bytes)).after_all(message::events(response)),
            *final(count),
            *final(bytes),
            result,
        ),
    decreases response,
{
    let ghost before = counted(*count, *bytes);
    match response.kind {
        Some(ResponseKind::RecordEnd(end)) => {
            proof {
                lemma_counted_one(before, ResponseKind::RecordEnd(end));
            }
            *count = *count + 1;
            *bytes = *bytes + end.payload_length;
        },
        Some(ResponseKind::RecordError(error)) => {
            proof {
                lemma_counted_one(before, ResponseKind::RecordError(error));
            }
            if !error.recoverable {
                return Err(CountError::InvalidData(error.message));
            }
        },
        Some(ResponseKind::Batch(batch)) => {
            let ghost items = batch.items@;
            assert(items.take(0) =~= Seq::<ParseWarcResponse>::empty());
            for item in it: batch.items
                invariant
                    it.seq() == items,
                    response.kind matches Some(ResponseKind::Batch(whole)) && whole.items@ == items,
                    before.after_all(message::all_events(items)).count <= usize::MAX,
                    before.after_all(message::all_events(items)).bytes <= u64::MAX,
                    before == counted(*old(count), *old(bytes)),
                    counted(*count, *bytes) == before.after_all(
                        message::all_events(items.take(it.index() as int)),
                    ),
            {
                let ghost k = it.index() as int;
                proof {
                    assert(item == items[k]);
                    assert(decreases_to!(response => response.kind->0->Batch_0.items@[k]));
                    assert(items.take(k + 1).drop_last() =~= items.take(k));
                    assert(items =~= items.take(k + 1) + items.skip(k + 1));
                    message::lemma_all_events_add(items.take(k + 1), items.skip(k + 1));
                    lemma_counted_add(
                        before,
                        message::all_events(items.take(k)),
                        message::events(item),
                    );
                    lemma_counted_add(
                        before,
                        message::all_events(items.take(k + 1)),
                        message::all_events(items.skip(k + 1)),
                    );
                }
                if let Err(error) = count_records(item, count, bytes) {
                    return Err(error);
                }
            }
            assert(items.take(items.len() as int) =~= items);
        },
        Some(ResponseKind::RecordStart(start)) => {
            proof {
                lemma_counted_one(before, ResponseKind::RecordStart(start));
            }
        },
        Some(ResponseKind::PayloadChunk(chunk)) => {
            proof {
                lemma_counted_one(before, ResponseKind::PayloadChunk(chunk));
            }
        },
        None => {},
    }
    Ok(())
}

/// The counts of records and payload bytes after a response, and whether a fatal
/// error stopped the counting, unless a count outgrows its type.
fn count_totals(response: &ParseWarcResponse, count: usize, bytes: u64) -> (totals: Option<
    (usize, u64, bool),
>)
    ensures
        ({
            let after = counted(count, bytes).after_all(message::events(*response));
            match totals {
                Some(totals) => {
                    &&& totals.0 == after.count
                    &&& totals.1 == after.bytes
                    &&& totals.2 == (after.fatal is Some)
                },
                None => after.count > usize::MAX || after.bytes > u64::MAX,
            }
        }),
    decreases response,
{
    let ghost before = counted(count, bytes);
    match &response.kind {
        Some(ResponseKind::RecordEnd(end)) => {
            proof {
                lemma_counted_one(before, ResponseKind::RecordEnd(*end));
            }
            if count < usize::MAX && end.payload_length <= u64::MAX - bytes {
                Some((count + 1, bytes + end.payload_length, false))
            } else {
                None
            }
        },
        Some(ResponseKind::RecordError(error)) => {
            proof {
                lemma_counted_one(before, ResponseKind::RecordError(*error));
            }
            Some((count, bytes, !error.recoverable))
        },
        Some(ResponseKind::Batch(batch)) => {
            let items: &Vec<ParseWarcResponse> = &batch.items;
            let mut i: usize = 0;
            let mut sums: (usize, u64) = (count, bytes);
            assert(items@.take(0) =~= Seq::<ParseWarcResponse>::empty());
            while i < items.len()
                invariant
                    i <= items@.len(),
                    response.kind matches Some(ResponseKind::Batch(whole)) && whole.items == *items,
                    before == counted(count, bytes),
                    counted(sums.0, sums.1) == before.after_all(
                        message::all_events(items@.take(i as int)),
                    ),
                decreases items@.len() - i,
            {
                proof {
                    assert(decreases_to!(response => response.kind->0->Batch_0.items@[i as int]));
                    assert(items@.take(i + 1).drop_last() =~= items@.take(i as int));
                    assert(items@ =~= items@.take(i + 1) + items@.skip(i + 1));
                    message::lemma_all_events_add(items@.take(i + 1), items@.skip(i + 1));
                    lemma_counted_add(
                        before,
                        message::all_events(items@.take(i as int)),
                        message::events(items@[i as int]),
                    );
                    lemma_counted_add(
                        before,
                        message::all_events(items@.take(i + 1)),
                        message::all_events(items@.skip(i + 1)),
                    );
                }
                match count_totals(&items[i], sums.0, sums.1) {
                    Some(totals) => {
                        if totals.2 {
                            return Some(totals);
                        }
                        sums = (totals.0, totals.1);
                    },
                    None => {
                        return None;
                    },
                }
                i = i + 1;
            }
            assert(items@.take(items@.len() as int) =~= items@);
            Some((sums.0, sums.1, false))
        },
        Some(ResponseKind::RecordStart(start)) => {
            proof {
                lemma_counted_one(before, ResponseKind::RecordStart(*start));
            }
            Some((count, bytes, false))
        },
        Some(ResponseKind::PayloadChunk(chunk)) => {
            proof {
                lemma_counted_one(before, ResponseKind::PayloadChunk(*chunk));
            }
            Some((count, bytes, false))
        },
        None => Some((count, bytes, false)),
    }
}

/// Whether the counts can take in the records that a response ends.
pub fn has_room(response: &ParseWarcResponse, count: usize, bytes: u64) -> (room: bool)
    ensures
        room == {
            let after = counted(count, bytes).after_all(message::events(*response));
            after.count <= usize::MAX && after.bytes <= u64::MAX
        },
{
    count_totals(response, count, bytes).is_some()
}

/// A chunk that passes the check leaves room for its framing: the request that
/// carries it is a message that the server accepts.
pub proof fn law_checked_chunks_are_accepted(chunk: Seq<u8>, rest: Seq<u8>)
    requires
        chunk.len() <= MAX_MESSAGE_SIZE / 2,
    ensures
        grpc_frame::front(
            wire::frame(wire::chunk_request(chunk)) + rest,
            MAX_MESSAGE_SIZE as nat,
        ) == grpc_frame::Front::Message(wire::chunk_request(chunk)),
{
    wire::lemma_varint_len(chunk.len());
    wire::lemma_varint_len_bound(chunk.len());
    grpc_frame::law_message_survives_framing(
        wire::chunk_request(chunk),
        rest,
        MAX_MESSAGE_SIZE as nat,
    );
}

/// The benchmark counts the records that end, up to the first error that is not
/// recoverable: two runs of events count what the one and then the other count,
/// each kind of event counts for itself, and behind a fatal error nothing counts.
pub proof fn law_counting_stops_at_a_fatal_error(
    start: Counted,
    a: Seq<ResponseKind>,
    b: Seq<ResponseKind>,
    event: ResponseKind,
)
    ensures
        start.after_all(a + b) == start.after_all(a).after_all(b),
        start.after_all(Seq::empty()) == start,
        start.fatal is Some ==> start.after_all(b) == start,
        start.fatal is None ==> {
            let after = start.after_all(seq![event]);
            match event {
                ResponseKind::RecordEnd(end) => {
                    &&& after.count == start.count + 1
                    &&& after.bytes == start.bytes + end.payload_length
                    &&& after.fatal is None
                },
                ResponseKind::RecordError(error) => {
                    &&& after.count == start.count
                    &&& after.bytes == start.bytes
                    &&& error.recoverable ==> after.fatal is None
                    &&& !error.recoverable ==> after.fatal == Some(error.message@)
                },
                _ => after == start,
            }
        },
        counted(0, 0).count == 0 && counted(0, 0).bytes == 0 && counted(0, 0).fatal is None,
{
    lemma_counted_add(start, a, b);
    lemma_counted_add(start, Seq::empty(), b);
    assert(Seq::<ResponseKind>::empty() + b =~= b);
    lemma_counted_one(start, event);
}

/// A configured number is the one that is spelled out, unless it is none or too
/// large; then it counts as not configured.
pub proof fn law_configured_numbers(value: Option<&str>, number: nat)
    ensures
        configured(value) == Some(number) <==> value is Some && text::parsed_number(value->0@)
            == Some(number) && number <= usize::MAX,
        value is None ==> configured(value) is None,
        DEFAULT_BUFFER_SIZE == 1024 * 1024,
        MAX_MESSAGE_SIZE == 16 * 1024 * 1024,
        DEFAULT_JOBS == 8,
{
}

/// Counting fails exactly where an event is an error that is not recoverable, with
/// the message of the first one. Without one, every record that ends is counted.
pub proof fn law_fatal_errors_fail_the_count(
    events: Seq<ResponseKind>,
    count: usize,
    bytes: u64,
    result: Result<(), CountError>,
)
    requires
        is_count(counted(0, 0).after_all(events), count, bytes, result),
    ensures
        result is Err <==> exists|i: int|
            0 <= i < events.len() && (#[trigger] events[i] matches ResponseKind::RecordError(error)
                && !error.recoverable),
        result is Ok ==> count == events.filter(|event: ResponseKind| event is RecordEnd).len(),
{
    lemma_count_of_events(events);
}

proof fn lemma_count_of_events(events: Seq<ResponseKind>)
    ensures
        ({
            let after = counted(0, 0).after_all(events);
            &&& after.fatal is Some <==> exists|i: int|
                0 <= i < events.len() && (
                #[trigger] events[i] matches ResponseKind::RecordError(error)
                    && !error.recoverable)
            &&& after.fatal is None ==> after.count == events.filter(
                |event: ResponseKind| event is RecordEnd,
            ).len()
        }),
    decreases events.len(),
{
    reveal(Seq::filter);
    if events.len() > 0 {
        let earlier = events.drop_last();
        lemma_count_of_events(earlier);
        if counted(0, 0).after_all(earlier).fatal is Some {
            let i = choose|i: int|
                0 <= i < earlier.len() && (
                #[trigger] earlier[i] matches ResponseKind::RecordError(error)
                    && !error.recoverable);
            assert(events[i] == earlier[i]);
        } else {
            let last = events.len() - 1;
            assert(events[last] == events.last());
            assert forall|i: int| 0 <= i < last implies !(
            #[trigger] events[i] matches ResponseKind::RecordError(error) && !error.recoverable) by {
                assert(earlier[i] == events[i]);
            }
        }
    }
}

/// Every number that is configured counts, whatever its size; only where there is
/// none, or for chunks a zero, the default does: 1 MiB, and 8 clients.
pub proof fn law_configured_numbers_count(number: nat)
    ensures
        number > 0 ==> chunk_size(Some(number)) == number,
        chunk_size(Some(0)) == 1024 * 1024,
        chunk_size(None) == 1024 * 1024,
        job_count(Some(number)) == number,
        job_count(None) == 8,
{
}

} // verus!
