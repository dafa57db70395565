//! Assembly of a unary response out of the parser's events.

use vstd::prelude::*;
use vstd::string::StringExecFns;

use crate::buffers::{bytes_len, bytes_seq, bytes_slice};
use crate::message::{
    all_events, events, lemma_all_events_add, ParseArchiveResponse, ParseWarcResponse,
    ParsedRecord, PayloadChunk, RecordEnd, RecordError, RecordMetadata, RecordStart, ResponseKind,
};
use crate::status::{Code, Status};
use crate::text::{decimal, push_decimal};
use crate::wire::{
    field_len, lemma_varint_len, lemma_varint_len_bound, lemma_varint_len_monotonic, varint,
    varint_len,
};

verus! {

/// A record under assembly or complete.
pub struct RecordModel {
    /// What was known of the record ahead of its payload.
    pub metadata: Option<RecordMetadata>,
    /// The payload bytes.
    pub payload: Seq<u8>,
}

/// The model of a record.
pub open spec fn record_model(record: ParsedRecord) -> RecordModel {
    RecordModel { metadata: record.metadata, payload: record.payload@ }
}

/// The models of records.
pub open spec fn record_models(records: Seq<ParsedRecord>) -> Seq<RecordModel> {
    records.map_values(|record: ParsedRecord| record_model(record))
}

/// What has been assembled out of the events so far.
pub struct Assembly {
    /// The record that was started and not ended.
    pub open: Option<RecordModel>,
    /// The records that were ended, in order.
    pub records: Seq<RecordModel>,
    /// The errors, in order.
    pub errors: Seq<RecordError>,
}

/// The assembly that an open record, finished records and errors stand for.
pub open spec fn assembly(
    open: Option<ParsedRecord>,
    records: Seq<ParsedRecord>,
    errors: Seq<RecordError>,
) -> Assembly {
    Assembly {
        open: match open {
            Some(record) => Some(record_model(record)),
            None => None,
        },
        records: record_models(records),
        errors,
    }
}

/// The assembly before any event.
pub open spec fn nothing_assembled() -> Assembly {
    Assembly { open: None, records: Seq::empty(), errors: Seq::empty() }
}

impl Assembly {
    /// The assembly after one more event. A start opens a record in place of
    /// one that is open; payload without an open record is dropped; an end
    /// finishes the open record; an error discards it.
    pub open spec fn after(self, event: ResponseKind) -> Assembly {
        match event {
            ResponseKind::RecordStart(start) => Assembly {
                open: Some(RecordModel { metadata: start.metadata, payload: Seq::empty() }),
                ..self
            },
            ResponseKind::PayloadChunk(chunk) => match self.open {
                Some(record) => Assembly {
                    open: Some(RecordModel { payload: record.payload + bytes_seq(chunk.data), ..record }),
                    ..self
                },
                None => self,
            },
            ResponseKind::RecordEnd(_) => match self.open {
                Some(record) => Assembly { open: None, records: self.records.push(record), ..self },
                None => self,
            },
            ResponseKind::RecordError(error) => Assembly {
                open: None,
                errors: self.errors.push(error),
                ..self
            },
            ResponseKind::Batch(_) => self,
        }
    }

    /// The assembly after consecutive events.
    pub open spec fn after_all(self, events: Seq<ResponseKind>) -> Assembly
        decreases events.len(),
    {
        if events.len() == 0 {
            self
        } else {
            self.after_all(events.drop_last()).after(events.last())
        }
    }
}

/// Consuming two runs of events one after the other is consuming both.
pub proof fn lemma_after_all_add(start: Assembly, a: Seq<ResponseKind>, b: Seq<ResponseKind>)
    ensures
        start.after_all(a + b) == start.after_all(a).after_all(b),
    decreases b.len(),
{
    if b.len() == 0 {
        assert(a + b =~= a);
    } else {
        lemma_after_all_add(start, a, b.drop_last());
        assert((a + b).drop_last() =~= a + b.drop_last());
    }
}

/// One event is a run of one.
proof fn lemma_after_one(start: Assembly, event: ResponseKind)
    ensures
        start.after_all(seq![event]) == start.after(event),
{
    assert(seq![event].drop_last() =~= Seq::<ResponseKind>::empty());
    assert(start.after_all(Seq::<ResponseKind>::empty()) == start);
}

/// Assembles payloads between start and end events and discards records with
/// errors. A batch counts as its items in order.
pub fn fold_response(
    response: ParseWarcResponse,
    open: &mut Option<ParsedRecord>,
    records: &mut Vec<ParsedRecord>,
    errors: &mut Vec<RecordError>,
)
    ensures
        assembly(*final(open), final(records)@, final(errors)@) == assembly(
            *old(open),
            old(records)@,
            old(errors)@,
        ).after_all(events(response)),
    decreases response,
{
    let ghost before = assembly(*open, records@, errors@);
    match response.kind {
        Some(ResponseKind::RecordStart(start)) => {
            proof {
                lemma_after_one(before, ResponseKind::RecordStart(start));
            }
            *open = Some(ParsedRecord { metadata: start.metadata, payload: Vec::new() });
        },
        Some(ResponseKind::PayloadChunk(chunk)) => {
            proof {
                lemma_after_one(before, ResponseKind::PayloadChunk(chunk));
            }
            let taken: Option<ParsedRecord> = open.take();
            if let Some(mut record) = taken {
                let ghost payload = record.payload@;
                record.payload.extend_from_slice(bytes_slice(&chunk.data));
                assert(record.payload@ =~= payload + bytes_seq(chunk.data));
                *open = Some(record);
            }
        },
        Some(ResponseKind::RecordEnd(end)) => {
            proof {
                lemma_after_one(before, ResponseKind::RecordEnd(end));
            }
            let taken: Option<ParsedRecord> = open.take();
            if let Some(record) = taken {
                let ghost finished = records@;
                records.push(record);
                assert(record_models(records@) =~= record_models(finished).push(record_model(record)));
            }
        },
        Some(ResponseKind::RecordError(error)) => {
            proof {
                lemma_after_one(before, ResponseKind::RecordError(error));
            }
            let _discarded: Option<ParsedRecord> = open.take();
            errors.push(error);
        },
        Some(ResponseKind::Batch(batch)) => {
            let ghost items = batch.items@;
            for item in it: batch.items
                invariant
                    it.seq() == items,
                    response.kind matches Some(ResponseKind::Batch(whole)) && whole.items@ == items,
                    assembly(*open, records@, errors@) == before.after_all(
                        all_events(items.take(it.index() as int)),
                    ),
            {
                let ghost k = it.index() as int;
                proof {
                    assert(item == items[k]);
                    assert(decreases_to!(response => response.kind->0->Batch_0.items@[k]));
                    assert(items.take(k + 1).drop_last() =~= items.take(k));
                    lemma_after_all_add(before, all_events(items.take(k)), events(item));
                }
                fold_response(item, open, records, errors);
            }
            assert(items.take(items.len() as int) =~= items);
        },
        None => {},
    }
}

/// The length of the metadata field of an encoded record.
pub open spec fn metadata_len(metadata: Option<RecordMetadata>) -> nat {
    match metadata {
        Some(metadata) => field_len(metadata.encoded@.len()),
        None => 0,
    }
}

/// What one event may add to the encoding of a unary response, where no
/// response is longer than `budget`.
///
/// A start pays for the metadata and for the two longest prefixes that the
/// enclosing record and its payload can need.
pub open spec fn event_cost(event: ResponseKind, budget: nat) -> nat {
    match event {
        ResponseKind::RecordStart(start) => metadata_len(start.metadata) + 2 * (1 + varint_len(budget)),
        ResponseKind::PayloadChunk(chunk) => bytes_seq(chunk.data).len(),
        ResponseKind::RecordError(error) => field_len(error.encoded_len as nat),
        ResponseKind::RecordEnd(_) => 0,
        ResponseKind::Batch(_) => 0,
    }
}

/// The sum of the costs of consecutive events.
pub open spec fn total_cost(events: Seq<ResponseKind>, budget: nat) -> nat
    decreases events.len(),
{
    if events.len() == 0 {
        0
    } else {
        total_cost(events.drop_last(), budget) + event_cost(events.last(), budget)
    }
}

/// The largest number that a `usize` can hold, or `value` if that is smaller.
pub open spec fn saturated(value: nat) -> nat {
    if value <= usize::MAX {
        value
    } else {
        usize::MAX as nat
    }
}

/// Whether the cost of each single event can be written as a `usize`.
pub open spec fn costs_fit(events: Seq<ResponseKind>, budget: nat) -> bool {
    forall|i: int| 0 <= i < events.len() ==> event_cost(#[trigger] events[i], budget) <= usize::MAX
}

/// The cost of two runs of events is the sum of their costs.
pub proof fn lemma_total_cost_add(a: Seq<ResponseKind>, b: Seq<ResponseKind>, budget: nat)
    ensures
        total_cost(a + b, budget) == total_cost(a, budget) + total_cost(b, budget),
    decreases b.len(),
{
    if b.len() == 0 {
        assert(a + b =~= a);
    } else {
        lemma_total_cost_add(a, b.drop_last(), budget);
        assert((a + b).drop_last() =~= a + b.drop_last());
    }
}

/// A response that is no batch costs what its event costs.
proof fn lemma_total_cost_leaf(response: ParseWarcResponse, budget: nat)
    ensures
        response.kind matches Some(event) ==> event !is Batch ==> {
            &&& events(response)[0] == event
            &&& total_cost(events(response), budget) == event_cost(event, budget)
        },
{
    assert(total_cost(Seq::<ResponseKind>::empty(), budget) == 0);
    if response.kind is Some && response.kind->0 !is Batch {
        assert(events(response).drop_last() =~= Seq::<ResponseKind>::empty());
    }
}

/// Conservative size of the data and protobuf framing that `response` adds to
/// a unary response of at most `budget` bytes. The sum over a batch stops at
/// the largest `usize`.
pub fn event_size(response: &ParseWarcResponse, budget: usize) -> (size: usize)
    requires
        costs_fit(events(*response), budget as nat),
    ensures
        size == saturated(total_cost(events(*response), budget as nat)),
    decreases response,
{
    proof {
        lemma_total_cost_leaf(*response, budget as nat);
    }
    match &response.kind {
        Some(ResponseKind::RecordStart(start)) => {
            proof {
                lemma_varint_len_bound(budget as nat);
            }
            let prefix: usize = 1 + prost::length_delimiter_len(budget);
            let metadata_size: usize = match &start.metadata {
                Some(metadata) => {
                    let size: usize = metadata.encoded.len();
                    1 + prost::length_delimiter_len(size) + size
                },
                None => 0,
            };
            metadata_size + 2 * prefix
        },
        Some(ResponseKind::PayloadChunk(chunk)) => bytes_len(&chunk.data),
        Some(ResponseKind::RecordError(error)) => {
            let size: usize = error.encoded_len;
            1 + prost::length_delimiter_len(size) + size
        },
        Some(ResponseKind::Batch(batch)) => {
            let items: &Vec<ParseWarcResponse> = &batch.items;
            let mut total: usize = 0;
            let mut i: usize = 0;
            while i < items.len()
                invariant
                    i <= items@.len(),
                    response.kind matches Some(ResponseKind::Batch(whole)) && whole.items == *items,
                    costs_fit(all_events(items@), budget as nat),
                    total == saturated(total_cost(all_events(items@.take(i as int)), budget as nat)),
                decreases items@.len() - i,
            {
                proof {
                    assert(decreases_to!(response => response.kind->0->Batch_0.items@[i as int]));
                    lemma_item_events(items@, i as int);
                    assert(items@.take(i + 1).drop_last() =~= items@.take(i as int));
                    lemma_total_cost_add(all_events(items@.take(i as int)), events(items@[i as int]), budget as nat);
                }
                let size: usize = event_size(&items[i], budget);
                total = total.saturating_add(size);
                i = i + 1;
            }
            assert(items@.take(items@.len() as int) =~= items@);
            total
        },
        Some(ResponseKind::RecordEnd(_)) => 0,
        None => 0,
    }
}

/// Where the events of one of several responses stand among the events of all.
proof fn lemma_item_events(items: Seq<ParseWarcResponse>, i: int)
    requires
        0 <= i < items.len(),
    ensures
        all_events(items).len() >= all_events(items.take(i)).len() + events(items[i]).len(),
        forall|j: int|
            0 <= j < events(items[i]).len() ==> #[trigger] events(items[i])[j] == all_events(
                items,
            )[all_events(items.take(i)).len() + j],
{
    assert(items =~= items.take(i + 1) + items.skip(i + 1));
    lemma_all_events_add(items.take(i + 1), items.skip(i + 1));
    assert(items.take(i + 1).drop_last() =~= items.take(i));
    assert(items.take(i + 1).last() == items[i]);
}

/// Whether the cost of each event of a response can be written as a `usize`, so
/// that its size can be computed.
pub fn sizes_fit(response: &ParseWarcResponse, budget: usize) -> (fit: bool)
    ensures
        fit == costs_fit(events(*response), budget as nat),
    decreases response,
{
    match &response.kind {
        Some(ResponseKind::RecordStart(start)) => {
            proof {
                lemma_varint_len_bound(budget as nat);
                assert(events(*response)[0] == response.kind->0);
            }
            let prefixes: usize = 2 * (1 + prost::length_delimiter_len(budget));
            match &start.metadata {
                Some(metadata) => {
                    let size: usize = metadata.encoded.len();
                    proof {
                        lemma_varint_len_bound(size as nat);
                    }
                    size <= usize::MAX - (prefixes + 1 + prost::length_delimiter_len(size))
                },
                None => true,
            }
        },
        Some(ResponseKind::PayloadChunk(chunk)) => {
            // What a chunk costs is the length of a buffer, which fits.
            let _cost: usize = bytes_len(&chunk.data);
            true
        },
        Some(ResponseKind::RecordError(error)) => {
            let size: usize = error.encoded_len;
            proof {
                lemma_varint_len_bound(size as nat);
                assert(events(*response)[0] == response.kind->0);
            }
            size <= usize::MAX - (1 + prost::length_delimiter_len(size))
        },
        Some(ResponseKind::Batch(batch)) => {
            let items: &Vec<ParseWarcResponse> = &batch.items;
            let mut i: usize = 0;
            assert(items@.take(0) =~= Seq::<ParseWarcResponse>::empty());
            while i < items.len()
                invariant
                    i <= items@.len(),
                    response.kind matches Some(ResponseKind::Batch(whole)) && whole.items == *items,
                    costs_fit(all_events(items@.take(i as int)), budget as nat),
                decreases items@.len() - i,
            {
                proof {
                    assert(decreases_to!(response => response.kind->0->Batch_0.items@[i as int]));
                    lemma_item_events(items@, i as int);
                    assert(items@.take(i + 1).drop_last() =~= items@.take(i as int));
                }
                let fits: bool = sizes_fit(&items[i], budget);
                if !fits {
                    proof {
                        let item = events(items@[i as int]);
                        let j = choose|j: int|
                            0 <= j < item.len() && event_cost(#[trigger] item[j], budget as nat)
                                > usize::MAX;
                        assert(item[j] == all_events(items@)[all_events(
                            items@.take(i as int),
                        ).len() + j]);
                    }
                    return false;
                }
                i = i + 1;
            }
            assert(items@.take(items@.len() as int) =~= items@);
            true
        },
        Some(ResponseKind::RecordEnd(_)) => true,
        None => true,
    }
}

/// The text that refuses a unary response past `budget` bytes.
pub open spec fn over_budget_text(budget: nat) -> Seq<char> {
    "archive decodes past the "@ + decimal(budget)
        + "-byte ParseArchive response budget; use the streaming ParseWarc RPC for large archives"@
}

/// Collects the events of one archive for the unary call, within a budget.
///
/// The compressed size of a request does not bound what it decodes to, so the
/// response is measured while it grows.
pub struct ArchiveCollector {
    open: Option<ParsedRecord>,
    records: Vec<ParsedRecord>,
    errors: Vec<RecordError>,
    collected: usize,
    budget: usize,
}

impl ArchiveCollector {
    /// What has been assembled so far.
    pub closed spec fn assembled(&self) -> Assembly {
        assembly(self.open, self.records@, self.errors@)
    }

    /// The cost of the events seen so far, up to the largest `usize`.
    pub closed spec fn spent(&self) -> nat {
        self.collected as nat
    }

    /// The number of bytes that may be collected.
    pub closed spec fn limit(&self) -> nat {
        self.budget as nat
    }

    /// A collector that has seen no event.
    pub fn new(budget: usize) -> (collector: Self)
        ensures
            collector.assembled() == nothing_assembled(),
            collector.spent() == 0,
            collector.limit() == budget,
    {
        let collector = ArchiveCollector {
            open: None,
            records: Vec::new(),
            errors: Vec::new(),
            collected: 0,
            budget,
        };
        assert(record_models(collector.records@) =~= Seq::<RecordModel>::empty());
        assert(collector.errors@ =~= Seq::<RecordError>::empty());
        collector
    }

    /// Takes the next response of the parser. Answers `false`, and adds
    /// nothing, when the budget is exceeded.
    pub fn emit(&mut self, response: ParseWarcResponse) -> (more: bool)
        requires
            costs_fit(events(response), old(self).limit()),
        ensures
            final(self).limit() == old(self).limit(),
            final(self).spent() == saturated(
                old(self).spent() + total_cost(events(response), old(self).limit()),
            ),
            more == (final(self).spent() <= old(self).limit()),
            final(self).assembled() == if more {
                old(self).assembled().after_all(events(response))
            } else {
                old(self).assembled()
            },
    {
        let size: usize = event_size(&response, self.budget);
        self.collected = self.collected.saturating_add(size);
        if self.collected > self.budget {
            return false;
        }
        fold_response(response, &mut self.open, &mut self.records, &mut self.errors);
        true
    }

    /// The response, or the refusal if the budget was exceeded. A record that
    /// was never ended is left out.
    pub fn finish(self) -> (result: Result<ParseArchiveResponse, Status>)
        ensures
            self.spent() <= self.limit() ==> {
                &&& result matches Ok(response)
                &&& record_models(response.records@) == self.assembled().records
                &&& response.errors@ == self.assembled().errors
            },
            self.spent() > self.limit() ==> {
                &&& result matches Err(status)
                &&& status.says(Code::ResourceExhausted, over_budget_text(self.limit()))
            },
    {
        if self.collected > self.budget {
            let mut message: String = "archive decodes past the ".to_owned();
            push_decimal(&mut message, self.budget);
            message.append(
                "-byte ParseArchive response budget; use the streaming ParseWarc RPC for large archives",
            );
            return Err(Status { code: Code::ResourceExhausted, message });
        }
        Ok(ParseArchiveResponse { records: self.records, errors: self.errors })
    }
}

/// Whether this is what the events of an archive are collected to: the records and
/// errors that they assemble to, or the refusal where they cost more than the
/// budget.
pub open spec fn is_collected(
    result: Result<ParseArchiveResponse, Status>,
    events: Seq<ResponseKind>,
    budget: nat,
) -> bool {
    &&& saturated(total_cost(events, budget)) <= budget ==> {
        &&& result matches Ok(response)
        &&& record_models(response.records@) == nothing_assembled().after_all(events).records
        &&& response.errors@ == nothing_assembled().after_all(events).errors
    }
    &&& saturated(total_cost(events, budget)) > budget ==> {
        &&& result matches Err(status)
        &&& status.says(Code::ResourceExhausted, over_budget_text(budget))
    }
}

/// Collects the records and errors out of the responses that the parser emits
/// for one archive, in order, until the budget is exceeded.
pub fn collect_archive(parsed: Vec<ParseWarcResponse>, budget: usize) -> (result: Result<
    ParseArchiveResponse,
    Status,
>)
    requires
        costs_fit(all_events(parsed@), budget as nat),
    ensures
        is_collected(result, all_events(parsed@), budget as nat),
{
    let ghost all = parsed@;
    let mut collector: ArchiveCollector = ArchiveCollector::new(budget);
    proof {
        assert(all.take(0) =~= Seq::<ParseWarcResponse>::empty());
        assert(all_events(all.take(0)) =~= Seq::<ResponseKind>::empty());
    }
    for response in it: parsed
        invariant
            it.seq() == all,
            costs_fit(all_events(all), budget as nat),
            collector.limit() == budget,
            collector.spent() == saturated(
                total_cost(all_events(all.take(it.index() as int)), budget as nat),
            ),
            collector.spent() <= budget,
            collector.assembled() == nothing_assembled().after_all(
                all_events(all.take(it.index() as int)),
            ),
    {
        let ghost k = it.index() as int;
        proof {
            assert(response == all[k]);
            assert(all.take(k + 1).drop_last() =~= all.take(k));
            lemma_item_events(all, k);
            lemma_total_cost_add(all_events(all.take(k)), events(response), budget as nat);
            lemma_after_all_add(nothing_assembled(), all_events(all.take(k)), events(response));
        }
        let more: bool = collector.emit(response);
        if !more {
            proof {
                assert(all =~= all.take(k + 1) + all.skip(k + 1));
                lemma_all_events_add(all.take(k + 1), all.skip(k + 1));
                lemma_total_cost_add(
                    all_events(all.take(k + 1)),
                    all_events(all.skip(k + 1)),
                    budget as nat,
                );
            }
            return collector.finish();
        }
    }
    assert(all.take(all.len() as int) =~= all);
    collector.finish()
}

/// The length of an encoded record of a unary response.
pub open spec fn record_len(record: RecordModel) -> nat {
    metadata_len(record.metadata) + if record.payload.len() == 0 {
        0
    } else {
        field_len(record.payload.len())
    }
}

/// The length of the encoding of a unary response with these records.
pub open spec fn records_len(records: Seq<RecordModel>) -> nat
    decreases records.len(),
{
    if records.len() == 0 {
        0
    } else {
        records_len(records.drop_last()) + field_len(record_len(records.last()))
    }
}

/// The length of the encoding of a unary response with these errors.
pub open spec fn errors_len(errors: Seq<RecordError>) -> nat
    decreases errors.len(),
{
    if errors.len() == 0 {
        0
    } else {
        errors_len(errors.drop_last()) + field_len(errors.last().encoded_len as nat)
    }
}

/// What an open record may still come to in the encoding.
spec fn open_cost(open: Option<RecordModel>, budget: nat) -> nat {
    match open {
        Some(record) => metadata_len(record.metadata) + 2 * (1 + varint_len(budget))
            + record.payload.len(),
        None => 0,
    }
}

/// The budget counts protobuf framing: as long as the events of an archive
/// cost no more than the budget, the encoded response is no longer than they
/// cost, and so no longer than the budget.
pub proof fn law_cost_bounds_encoded_response(events: Seq<ResponseKind>, budget: nat)
    requires
        total_cost(events, budget) <= budget,
    ensures
        ({
            let done = nothing_assembled().after_all(events);
            records_len(done.records) + errors_len(done.errors) <= total_cost(events, budget)
        }),
{
    lemma_cost_invariant(events, budget);
}

/// The encoding of what is finished, and what the open record may come to, are
/// paid for.
proof fn lemma_cost_invariant(events: Seq<ResponseKind>, budget: nat)
    requires
        total_cost(events, budget) <= budget,
    ensures
        ({
            let done = nothing_assembled().after_all(events);
            records_len(done.records) + errors_len(done.errors) + open_cost(done.open, budget)
                <= total_cost(events, budget)
        }),
    decreases events.len(),
{
    if events.len() > 0 {
        lemma_cost_invariant(events.drop_last(), budget);
        let before = nothing_assembled().after_all(events.drop_last());
        match events.last() {
            ResponseKind::RecordEnd(_) => {
                if let Some(record) = before.open {
                    lemma_record_is_paid_for(record, budget);
                    assert(before.records.push(record).drop_last() =~= before.records);
                }
            },
            ResponseKind::RecordError(error) => {
                assert(before.errors.push(error).drop_last() =~= before.errors);
            },
            _ => {},
        }
    }
}

/// Two longest prefixes cover the framing of a record and of its payload.
proof fn lemma_record_is_paid_for(record: RecordModel, budget: nat)
    requires
        open_cost(Some(record), budget) <= budget,
    ensures
        field_len(record_len(record)) <= open_cost(Some(record), budget),
{
    lemma_varint_len_monotonic(record.payload.len(), budget);
    lemma_varint_len_monotonic(record_len(record), budget);
}

/// A start, any chunks and an end add exactly one record: the metadata of the
/// start with the bytes of the chunks, in order.
pub proof fn law_record_is_assembled(
    before: Assembly,
    metadata: Option<RecordMetadata>,
    chunks: Seq<PayloadChunk>,
    payload_length: u64,
)
    ensures
        before.after(ResponseKind::RecordStart(RecordStart { metadata })).after_all(
            chunk_events(chunks),
        ).after(ResponseKind::RecordEnd(RecordEnd { payload_length })) == (Assembly {
            open: None,
            records: before.records.push(RecordModel { metadata, payload: chunk_bytes(chunks) }),
            errors: before.errors,
        }),
{
    lemma_chunks_are_appended(
        before.after(ResponseKind::RecordStart(RecordStart { metadata })),
        metadata,
        chunks,
    );
}

/// The payload events of chunks.
pub open spec fn chunk_events(chunks: Seq<PayloadChunk>) -> Seq<ResponseKind> {
    chunks.map_values(|chunk: PayloadChunk| ResponseKind::PayloadChunk(chunk))
}

/// The bytes of chunks, in order.
pub open spec fn chunk_bytes(chunks: Seq<PayloadChunk>) -> Seq<u8>
    decreases chunks.len(),
{
    if chunks.len() == 0 {
        Seq::empty()
    } else {
        chunk_bytes(chunks.drop_last()) + bytes_seq(chunks.last().data)
    }
}

/// Chunks of an open record append to its payload.
pub proof fn lemma_chunks_are_appended(
    before: Assembly,
    metadata: Option<RecordMetadata>,
    chunks: Seq<PayloadChunk>,
)
    requires
        before.open == Some(RecordModel { metadata, payload: Seq::<u8>::empty() }),
    ensures
        before.after_all(chunk_events(chunks)) == (Assembly {
            open: Some(RecordModel { metadata, payload: chunk_bytes(chunks) }),
            ..before
        }),
    decreases chunks.len(),
{
    if chunks.len() > 0 {
        lemma_chunks_are_appended(before, metadata, chunks.drop_last());
        assert(chunk_events(chunks).drop_last() =~= chunk_events(chunks.drop_last()));
    }
}

/// An error leaves no trace of the record that it interrupts: the records stay
/// as they were, and an end that follows finishes nothing.
pub proof fn law_error_discards_record(before: Assembly, error: RecordError, payload_length: u64)
    ensures
        before.after(ResponseKind::RecordError(error)).after(
            ResponseKind::RecordEnd(RecordEnd { payload_length }),
        ) == (Assembly { open: None, records: before.records, errors: before.errors.push(error) }),
{
}

/// What an event costs, to the byte: a start the encoded metadata field, with its
/// key and its length, and two prefixes as long as the budget may need; a chunk
/// exactly its bytes; an error its encoded field; and an end nothing.
pub proof fn law_cost_of_an_event(event: ResponseKind, budget: nat)
    ensures
        event matches ResponseKind::PayloadChunk(chunk) ==> event_cost(event, budget) == bytes_seq(
            chunk.data,
        ).len(),
        event matches ResponseKind::RecordError(error) ==> forall|encoded: Seq<u8>|
            encoded.len() == error.encoded_len ==> event_cost(event, budget) == (seq![0x12u8]
                + #[trigger] varint(encoded.len()) + encoded).len(),
        event matches ResponseKind::RecordStart(start) ==> event_cost(event, budget) == 2 * (1
            + varint(budget).len()) + match start.metadata {
            Some(metadata) => (seq![0x0au8] + varint(metadata.encoded@.len())
                + metadata.encoded@).len(),
            None => 0,
        },
        event is RecordEnd ==> event_cost(event, budget) == 0,
{
    lemma_varint_len(budget);
    if let ResponseKind::RecordError(error) = event {
        lemma_varint_len(error.encoded_len as nat);
    }
    if let ResponseKind::RecordStart(start) = event {
        if let Some(metadata) = start.metadata {
            lemma_varint_len(metadata.encoded@.len());
        }
    }
}

/// The costs of events add up, whatever order they are summed in, and a single
/// one is its own.
pub proof fn law_costs_add_up(
    a: Seq<ResponseKind>,
    b: Seq<ResponseKind>,
    event: ResponseKind,
    budget: nat,
)
    ensures
        total_cost(a + b, budget) == total_cost(a, budget) + total_cost(b, budget),
        total_cost(seq![event], budget) == event_cost(event, budget),
        total_cost(Seq::empty(), budget) == 0,
{
    lemma_total_cost_add(a, b, budget);
    let one = seq![event];
    assert(one.drop_last() =~= Seq::<ResponseKind>::empty());
    assert(total_cost(one.drop_last(), budget) == 0);
    assert(one.last() == event);
}

/// The payload events of chunks cost as many bytes as the chunks hold.
proof fn lemma_chunks_cost_their_bytes(chunks: Seq<PayloadChunk>, budget: nat)
    ensures
        total_cost(chunk_events(chunks), budget) == chunk_bytes(chunks).len(),
    decreases chunks.len(),
{
    if chunks.len() > 0 {
        lemma_chunks_cost_their_bytes(chunks.drop_last(), budget);
        assert(chunk_events(chunks).drop_last() =~= chunk_events(chunks.drop_last()));
        assert(chunk_events(chunks).last() == ResponseKind::PayloadChunk(chunks.last()));
    }
}

/// A record costs the bytes of its payload, however they are cut into chunks, its
/// metadata, and two prefixes.
pub proof fn law_cost_of_a_record(
    metadata: Option<RecordMetadata>,
    chunks: Seq<PayloadChunk>,
    payload_length: u64,
    budget: nat,
)
    ensures
        total_cost(
            seq![ResponseKind::RecordStart(RecordStart { metadata })] + chunk_events(chunks)
                + seq![ResponseKind::RecordEnd(RecordEnd { payload_length })],
            budget,
        ) == 2 * (1 + varint(budget).len()) + chunk_bytes(chunks).len() + match metadata {
            Some(metadata) => (seq![0x0au8] + varint(metadata.encoded@.len())
                + metadata.encoded@).len(),
            None => 0,
        },
{
    let start = ResponseKind::RecordStart(RecordStart { metadata });
    let end = ResponseKind::RecordEnd(RecordEnd { payload_length });
    law_costs_add_up(seq![start], chunk_events(chunks), start, budget);
    law_costs_add_up(seq![start] + chunk_events(chunks), seq![end], end, budget);
    lemma_chunks_cost_their_bytes(chunks, budget);
    law_cost_of_an_event(start, budget);
}

/// The number of starts among the events.
pub open spec fn starts(events: Seq<ResponseKind>) -> nat {
    events.filter(|event: ResponseKind| event is RecordStart).len()
}

/// The bytes of payload and metadata of an open record, which may be discarded.
spec fn open_len(open: Option<RecordModel>) -> nat {
    match open {
        Some(record) => metadata_len(record.metadata) + record.payload.len(),
        None => 0,
    }
}

/// Whether the events are those of whole records and of errors between them: a
/// start comes only where no record is open, payload and ends only where one is,
/// and errors only where none is.
pub open spec fn is_whole(events: Seq<ResponseKind>) -> bool
    decreases events.len(),
{
    events.len() == 0 || {
        let before = events.drop_last();
        let open = nothing_assembled().after_all(before).open;
        is_whole(before) && match events.last() {
            ResponseKind::RecordStart(_) => open is None,
            ResponseKind::PayloadChunk(_) => open is Some,
            ResponseKind::RecordEnd(_) => open is Some,
            ResponseKind::RecordError(_) => open is None,
            ResponseKind::Batch(_) => false,
        }
    }
}

/// Events of whole records cost no more than their encoding and two prefixes for
/// each start.
proof fn lemma_cost_is_tight(events: Seq<ResponseKind>, budget: nat)
    requires
        is_whole(events),
    ensures
        ({
            let done = nothing_assembled().after_all(events);
            total_cost(events, budget) <= records_len(done.records) + errors_len(done.errors)
                + open_len(done.open) + starts(events) * (2 * (1 + varint_len(budget)))
        }),
    decreases events.len(),
{
    reveal(Seq::filter);
    let prefixes = 2 * (1 + varint_len(budget));
    if events.len() > 0 {
        let earlier = events.drop_last();
        lemma_cost_is_tight(earlier, budget);
        let before = nothing_assembled().after_all(earlier);
        match events.last() {
            ResponseKind::RecordStart(_) => {
                assert(starts(events) == starts(earlier) + 1);
                assert((starts(earlier) + 1) * prefixes == starts(earlier) * prefixes + prefixes)
                    by (nonlinear_arith);
            },
            ResponseKind::RecordEnd(_) => {
                let record = before.open->0;
                assert(before.records.push(record).drop_last() =~= before.records);
            },
            ResponseKind::RecordError(error) => {
                assert(before.errors.push(error).drop_last() =~= before.errors);
            },
            _ => {},
        }
    } else {
        assert(starts(events) == 0);
        assert(0 * prefixes == 0) by (nonlinear_arith);
    }
}

/// The budget refuses no archive that fits it: whole records and errors cost no
/// more than their encoded response and two prefixes for each record, so that
/// where those fit the budget, the archive is collected.
pub proof fn law_archive_that_fits_is_collected(
    result: Result<ParseArchiveResponse, Status>,
    events: Seq<ResponseKind>,
    budget: nat,
)
    requires
        is_collected(result, events, budget),
        is_whole(events),
        nothing_assembled().after_all(events).open is None,
        budget <= usize::MAX,
        ({
            let done = nothing_assembled().after_all(events);
            records_len(done.records) + errors_len(done.errors) + starts(events) * (2 * (1
                + varint(budget).len())) <= budget
        }),
    ensures
        total_cost(events, budget) <= budget,
        ({
            let done = nothing_assembled().after_all(events);
            &&& result matches Ok(response)
            &&& response.errors@ == done.errors
            &&& response.records@.len() == done.records.len()
            &&& forall|i: int|
                0 <= i < done.records.len() ==> (#[trigger] response.records@[i]).metadata
                    == done.records[i].metadata && response.records@[i].payload@
                    == done.records[i].payload
        }),
{
    lemma_varint_len(budget);
    if let Ok(response) = result {
        law_models_are_the_records(response.records@, None, response.errors@);
        assert forall|i: int| 0 <= i < response.records@.len() implies (
        #[trigger] response.records@[i]).metadata == record_models(response.records@)[i].metadata
            && response.records@[i].payload@ == record_models(response.records@)[i].payload by {}
    }
    lemma_cost_is_tight(events, budget);
}

/// What outgrows a `usize` is taken for the largest one, and everything else for
/// what it is.
pub proof fn law_saturation(value: nat)
    ensures
        value <= usize::MAX ==> saturated(value) == value,
        value > usize::MAX ==> saturated(value) == usize::MAX,
{
}

/// Events that belong to no record change nothing, and a start takes the place of
/// a record that was not ended: only a start and its end make a record.
pub proof fn law_only_whole_records_count(
    before: Assembly,
    start: RecordStart,
    chunk: PayloadChunk,
    end: RecordEnd,
)
    ensures
        before.open is None ==> before.after(ResponseKind::PayloadChunk(chunk)) == before,
        before.open is None ==> before.after(ResponseKind::RecordEnd(end)) == before,
        before.after(ResponseKind::RecordStart(start)).records == before.records,
        before.after(ResponseKind::RecordStart(start)).errors == before.errors,
        before.after(ResponseKind::RecordStart(start)).open == Some(
            RecordModel { metadata: start.metadata, payload: Seq::empty() },
        ),
        before.after(ResponseKind::PayloadChunk(chunk)).records == before.records,
        before.after(ResponseKind::PayloadChunk(chunk)).errors == before.errors,
        before.after(ResponseKind::RecordEnd(end)).errors == before.errors,
        before.after(ResponseKind::RecordEnd(end)).open is None,
{
}

/// Events are taken in one after the other.
pub proof fn law_events_are_taken_in_order(
    before: Assembly,
    a: Seq<ResponseKind>,
    b: Seq<ResponseKind>,
    event: ResponseKind,
)
    ensures
        before.after_all(a + b) == before.after_all(a).after_all(b),
        before.after_all(seq![event]) == before.after(event),
        before.after_all(Seq::empty()) == before,
        nothing_assembled().open is None,
        nothing_assembled().records.len() == 0,
        nothing_assembled().errors.len() == 0,
{
    lemma_after_all_add(before, a, b);
    lemma_after_one(before, event);
}

/// The model of records is their metadata and their payload bytes, one by one.
pub proof fn law_models_are_the_records(
    records: Seq<ParsedRecord>,
    open: Option<ParsedRecord>,
    errors: Seq<RecordError>,
)
    ensures
        record_models(records).len() == records.len(),
        forall|i: int|
            0 <= i < records.len() ==> (#[trigger] record_models(records)[i]).metadata
                == records[i].metadata && record_models(records)[i].payload == records[i].payload@,
        assembly(open, records, errors).records == record_models(records),
        assembly(open, records, errors).errors == errors,
        assembly(open, records, errors).open is Some == (open is Some),
        open matches Some(record) ==> assembly(open, records, errors).open == Some(
            RecordModel { metadata: record.metadata, payload: record.payload@ },
        ),
{
}

/// The bytes of chunks are theirs put end to end.
pub proof fn law_payload_is_the_chunks_end_to_end(chunks: Seq<PayloadChunk>)
    ensures
        chunk_bytes(chunks) == Seq::new(
            chunks.len(),
            |i: int| bytes_seq(chunks[i].data),
        ).flatten(),
        chunk_events(chunks).len() == chunks.len(),
        forall|i: int|
            0 <= i < chunks.len() ==> #[trigger] chunk_events(chunks)[i]
                == ResponseKind::PayloadChunk(chunks[i]),
    decreases chunks.len(),
{
    let contents = Seq::new(chunks.len(), |i: int| bytes_seq(chunks[i].data));
    if chunks.len() == 0 {
        assert(chunk_bytes(chunks) =~= contents.flatten());
    } else {
        let earlier = chunks.drop_last();
        law_payload_is_the_chunks_end_to_end(earlier);
        let fewer = Seq::new(earlier.len(), |i: int| bytes_seq(earlier[i].data));
        assert(fewer.push(bytes_seq(chunks.last().data)) =~= contents);
        fewer.lemma_flatten_push(bytes_seq(chunks.last().data));
    }
}

/// Every event whose cost a `usize` can hold can be counted, and no other.
pub proof fn law_countable_costs(events: Seq<ResponseKind>, budget: nat)
    ensures
        costs_fit(events, budget) <==> forall|i: int|
            0 <= i < events.len() ==> event_cost(#[trigger] events[i], budget) <= usize::MAX,
        forall|chunk: PayloadChunk|
            bytes_seq(chunk.data).len() <= usize::MAX ==> #[trigger] costs_fit(
                seq![ResponseKind::PayloadChunk(chunk)],
                budget,
            ),
{
}

/// A refusal for the budget states it in decimal digits.
pub proof fn law_budget_is_stated(budget: nat)
    ensures
        exists|limit: Seq<char>|
            {
                &&& #[trigger] crate::text::parsed_number(limit) == Some(budget)
                &&& over_budget_text(budget) == "archive decodes past the "@ + limit
                    + "-byte ParseArchive response budget; use the streaming ParseWarc RPC for large archives"@
            },
{
    crate::text::law_decimal_spells_its_value(budget);
    assert(crate::text::parsed_number(decimal(budget)) == Some(budget));
}

/// The length of an encoded unary response is that of its fields: each record as
/// one field that holds its metadata and, unless it is empty, its payload, and each
/// error as one field.
pub proof fn law_response_length(
    record: RecordModel,
    error: RecordError,
    records: Seq<RecordModel>,
    errors: Seq<RecordError>,
)
    ensures
        record_len(record) == (match record.metadata {
            Some(metadata) => (seq![0x0au8] + varint(metadata.encoded@.len())
                + metadata.encoded@).len(),
            None => 0,
        }) + (if record.payload.len() == 0 {
            0
        } else {
            (seq![0x12u8] + varint(record.payload.len()) + record.payload).len()
        }),
        records_len(records.push(record)) == records_len(records) + 1 + varint(
            record_len(record),
        ).len() + record_len(record),
        errors_len(errors.push(error)) == errors_len(errors) + 1 + varint(
            error.encoded_len as nat,
        ).len() + error.encoded_len,
        records_len(Seq::empty()) == 0,
        errors_len(Seq::empty()) == 0,
{
    lemma_varint_len(record.payload.len());
    lemma_varint_len(record_len(record));
    lemma_varint_len(error.encoded_len as nat);
    if let Some(metadata) = record.metadata {
        lemma_varint_len(metadata.encoded@.len());
    }
    assert(records.push(record).drop_last() =~= records);
    assert(errors.push(error).drop_last() =~= errors);
}

/// No response is longer than the budget: what the collected records and errors
/// encode to is within it, and an archive whose records and errors encode to more is
/// refused as exhausting.
pub proof fn law_response_stays_within_the_budget(
    result: Result<ParseArchiveResponse, Status>,
    events: Seq<ResponseKind>,
    budget: nat,
)
    requires
        is_collected(result, events, budget),
        budget < usize::MAX,
    ensures
        result matches Ok(response) ==> records_len(record_models(response.records@)) + errors_len(
            response.errors@,
        ) <= budget,
        ({
            let done = nothing_assembled().after_all(events);
            records_len(done.records) + errors_len(done.errors) > budget ==> (result matches Err(
                status,
            ) && status.code == Code::ResourceExhausted)
        }),
{
    if total_cost(events, budget) <= budget {
        law_cost_bounds_encoded_response(events, budget);
    }
}

} // verus!
