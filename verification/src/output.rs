//! The output ladder: what parsing one archive produces, counted and batched.

use prost::bytes::{Bytes, BytesMut};
use vstd::prelude::*;

use crate::buffers::{bytes_copy, bytes_len, bytes_mut_new};
use crate::grpc_frame::encode_message_into;
use crate::message::{
    ParseWarcResponse, PayloadChunk, RecordBatch, RecordEnd, RecordMetadata, RecordStart,
    ResponseKind,
};
use crate::wire::HEADER_LEN;
use crate::{buffers, grpc_frame, message, wire};

verus! {

/// Number of events that fill a batch.
pub const BATCH_ITEMS: usize = 64;

/// Approximate size of the events that fill a batch.
pub const BATCH_BYTES: usize = 0x20_0000;

/// Approximate size of a record's start, with its headers.
pub const START_SIZE: usize = 512;

/// Approximate size of the framing of an event.
pub const EVENT_SIZE: usize = 64;

/// Progress through the records of an archive whose payloads are read out.
pub struct OutputRun {
    payload: u64,
    records: usize,
    index: u64,
    offset: u64,
}

/// [`OutputRun`] over its content.
pub struct Progress {
    /// Payload bytes of the records that ended.
    pub payload: nat,
    /// Number of records that ended.
    pub records: nat,
    /// Payload bytes of the open record.
    pub offset: nat,
}

/// What reading an archive came to next.
#[derive(Clone, Copy, Debug, PartialEq, Eq, Structural)]
pub enum OutputEvent {
    /// Something that is no readable record.
    Unreadable,
    /// A record.
    Record,
    /// This many payload bytes of the open record; none at its end.
    Window(usize),
    /// The open record has no payload to read.
    NoPayload,
}

/// What the sink is told.
#[derive(Clone, Copy, Debug, PartialEq, Eq, Structural)]
pub enum OutputAction {
    /// Nothing; read on.
    Skip,
    /// The record with this number begins.
    Start(u64),
    /// The window stands at this offset in the payload.
    Payload(u64),
    /// The record ends after this many payload bytes.
    End(u64),
}

impl Progress {
    /// What the sink is told of an event: what cannot be read is skipped, and an
    /// empty window ends the record.
    pub open spec fn action(self, event: OutputEvent) -> OutputAction {
        match event {
            OutputEvent::Unreadable => OutputAction::Skip,
            OutputEvent::Record => OutputAction::Start(self.records as u64),
            OutputEvent::Window(len) => if len == 0 {
                OutputAction::End(self.offset as u64)
            } else {
                OutputAction::Payload(self.offset as u64)
            },
            OutputEvent::NoPayload => OutputAction::End(self.offset as u64),
        }
    }

    /// How far the run is after an event.
    pub open spec fn after(self, event: OutputEvent) -> Progress {
        match self.action(event) {
            OutputAction::Skip => self,
            OutputAction::Start(_) => Progress { offset: 0, ..self },
            OutputAction::Payload(_) => Progress {
                offset: self.offset + event->Window_0 as nat,
                ..self
            },
            OutputAction::End(_) => Progress {
                payload: self.payload + self.offset,
                records: self.records + 1,
                offset: 0,
            },
        }
    }

    /// Whether the counts are within their types.
    pub open spec fn fits(self) -> bool {
        self.payload + self.offset <= u64::MAX && self.records <= usize::MAX
    }
}

impl OutputRun {
    /// How far the run has come.
    pub closed spec fn progress(&self) -> Progress {
        Progress {
            payload: self.payload as nat,
            records: self.records as nat,
            offset: self.offset as nat,
        }
    }

    /// Records are numbered in order, and ending the open one is possible.
    pub closed spec fn wf(&self) -> bool {
        &&& self.index == self.records
        &&& self.payload + self.offset <= u64::MAX
    }

    /// A run that has seen no record.
    pub fn new() -> (run: Self)
        ensures
            run.wf(),
            run.progress() == (Progress { payload: 0, records: 0, offset: 0 }),
    {
        OutputRun { payload: 0, records: 0, index: 0, offset: 0 }
    }

    /// Begins a record. Answers its number.
    pub fn begin(&mut self) -> (index: u64)
        requires
            old(self).wf(),
        ensures
            final(self).wf(),
            index == old(self).progress().records,
            final(self).progress() == (Progress { offset: 0, ..old(self).progress() }),
    {
        self.offset = 0;
        self.index
    }

    /// Whether the run can take in `len` more payload bytes without outgrowing
    /// its byte count.
    pub fn has_room(&self, len: usize) -> (room: bool)
        requires
            self.wf(),
        ensures
            room == (self.progress().payload + self.progress().offset + len <= u64::MAX),
    {
        len as u64 <= u64::MAX - (self.payload + self.offset)
    }

    /// Takes in the next `len` payload bytes of the open record. Answers where
    /// they stand in the payload.
    pub fn window(&mut self, len: usize) -> (offset: u64)
        requires
            old(self).wf(),
            old(self).progress().payload + old(self).progress().offset + len <= u64::MAX,
        ensures
            final(self).wf(),
            offset == old(self).progress().offset,
            final(self).progress() == (Progress {
                offset: old(self).progress().offset + len as nat,
                ..old(self).progress()
            }),
    {
        let offset: u64 = self.offset;
        self.offset = offset + len as u64;
        offset
    }

    /// Ends the open record. Answers the length of its payload.
    pub fn end(&mut self) -> (payload_length: u64)
        requires
            old(self).wf(),
            old(self).progress().records < usize::MAX,
        ensures
            final(self).wf(),
            payload_length == old(self).progress().offset,
            final(self).progress() == (Progress {
                payload: old(self).progress().payload + old(self).progress().offset,
                records: old(self).progress().records + 1,
                offset: 0,
            }),
    {
        let payload_length: u64 = self.offset;
        self.payload = self.payload + payload_length;
        self.offset = 0;
        self.records = self.records + 1;
        self.index = self.index + 1;
        payload_length
    }

    /// Whether the run can take in an event without outgrowing its counts.
    pub fn has_room_for(&self, event: OutputEvent) -> (room: bool)
        requires
            self.wf(),
        ensures
            room == self.progress().after(event).fits(),
    {
        match event {
            OutputEvent::Unreadable => true,
            OutputEvent::Record => true,
            OutputEvent::Window(len) => if len == 0 {
                self.records < usize::MAX
            } else {
                self.has_room(len)
            },
            OutputEvent::NoPayload => self.records < usize::MAX,
        }
    }

    /// Takes in what reading the archive came to. Answers what the sink is told.
    pub fn step(&mut self, event: OutputEvent) -> (action: OutputAction)
        requires
            old(self).wf(),
            old(self).progress().after(event).fits(),
        ensures
            final(self).wf(),
            action == old(self).progress().action(event),
            final(self).progress() == old(self).progress().after(event),
    {
        match event {
            OutputEvent::Unreadable => OutputAction::Skip,
            OutputEvent::Record => OutputAction::Start(self.begin()),
            OutputEvent::Window(len) => if len == 0 {
                OutputAction::End(self.end())
            } else {
                OutputAction::Payload(self.window(len))
            },
            OutputEvent::NoPayload => OutputAction::End(self.end()),
        }
    }

    /// Payload bytes and number of the records that ended.
    pub fn totals(&self) -> (totals: (u64, usize))
        ensures
            totals.0 == self.progress().payload,
            totals.1 == self.progress().records,
    {
        (self.payload, self.records)
    }
}

/// Encodes a message, given by its encoding, as one length-prefixed gRPC frame
/// through a reusable scratch buffer.
pub fn encode_grpc_frame(scratch: &mut BytesMut, body: &[u8]) -> (message: Bytes)
    requires
        body@.len() <= u32::MAX,
        buffers::bytes_mut_seq(*old(scratch)).len() + HEADER_LEN + body@.len() <= isize::MAX,
    ensures
        grpc_frame::encodes_into(
            buffers::bytes_mut_seq(*old(scratch)),
            body@,
            buffers::bytes_seq(message),
            buffers::bytes_mut_seq(*final(scratch)),
        ),
{
    encode_message_into(scratch, body)
}

/// Builds the service's response messages and batches them.
///
/// A method that fills the batch answers with the message that carries it.
/// Whoever encodes that message hands its encoding to [`Self::frame`].
pub struct ProtoSink {
    batch: Vec<ParseWarcResponse>,
    batch_bytes: usize,
    scratch: BytesMut,
    produced: u64,
}

/// The message that carries `items` as a batch.
pub open spec fn is_batch_of(message: ParseWarcResponse, items: Seq<ParseWarcResponse>) -> bool {
    message.kind matches Some(ResponseKind::Batch(batch)) && batch.items@ == items
}

impl ProtoSink {
    /// The events that wait, in order.
    pub closed spec fn waiting(&self) -> Seq<ParseWarcResponse> {
        self.batch@
    }

    /// Their approximate size.
    pub closed spec fn size(&self) -> nat {
        self.batch_bytes as nat
    }

    /// The number of bytes produced.
    pub closed spec fn bytes(&self) -> nat {
        self.produced as nat
    }

    /// What waits does not fill a batch, and nothing of an earlier message is
    /// left over.
    pub closed spec fn wf(&self) -> bool {
        &&& self.batch@.len() < BATCH_ITEMS
        &&& self.batch_bytes < BATCH_BYTES
        &&& self.batch@.len() == 0 ==> self.batch_bytes == 0
        &&& buffers::bytes_mut_seq(self.scratch) == Seq::<u8>::empty()
    }

    /// Whether adding an event of this approximate size to what `before` held
    /// gives this sink and this answer: the event joins what waits, and all of
    /// it goes out once it fills the batch by number or by size.
    pub open spec fn has_pushed(
        self,
        before: ProtoSink,
        response: ParseWarcResponse,
        approx: nat,
        message: Option<ParseWarcResponse>,
    ) -> bool {
        let items = before.waiting().push(response);
        let size = before.size() + approx;
        let full = items.len() >= BATCH_ITEMS || size >= BATCH_BYTES;
        &&& self.bytes() == before.bytes()
        &&& full ==> {
            &&& message matches Some(message)
            &&& is_batch_of(message, items)
            &&& self.waiting().len() == 0
            &&& self.size() == 0
        }
        &&& !full ==> {
            &&& message is None
            &&& self.waiting() == items
            &&& self.size() == size
        }
    }

    /// A sink that holds nothing.
    pub fn new() -> (sink: Self)
        ensures
            sink.wf(),
            sink.waiting() == Seq::<ParseWarcResponse>::empty(),
            sink.size() == 0,
            sink.bytes() == 0,
    {
        ProtoSink {
            batch: Vec::new(),
            batch_bytes: 0,
            scratch: bytes_mut_new(),
            produced: 0,
        }
    }

    /// Adds an event of approximately this size.
    pub fn push(&mut self, response: ParseWarcResponse, approx: usize) -> (message: Option<
        ParseWarcResponse,
    >)
        requires
            old(self).wf(),
            BATCH_BYTES + approx <= usize::MAX,
        ensures
            final(self).wf(),
            final(self).has_pushed(*old(self), response, approx as nat, message),
    {
        self.batch.push(response);
        self.batch_bytes = self.batch_bytes + approx;
        if self.batch.len() >= BATCH_ITEMS || self.batch_bytes >= BATCH_BYTES {
            self.drain()
        } else {
            None
        }
    }

    /// Takes out what waits, if anything does, as one batch.
    pub fn flush(&mut self) -> (message: Option<ParseWarcResponse>)
        requires
            old(self).wf(),
        ensures
            final(self).wf(),
            final(self).waiting() == Seq::<ParseWarcResponse>::empty(),
            final(self).size() == 0,
            final(self).bytes() == old(self).bytes(),
            match message {
                Some(message) => old(self).waiting().len() > 0 && is_batch_of(
                    message,
                    old(self).waiting(),
                ),
                None => old(self).waiting().len() == 0,
            },
    {
        self.drain()
    }

    /// Takes out what waits, even where it fills a batch.
    fn drain(&mut self) -> (message: Option<ParseWarcResponse>)
        requires
            buffers::bytes_mut_seq(old(self).scratch) == Seq::<u8>::empty(),
            old(self).waiting().len() == 0 ==> old(self).size() == 0,
        ensures
            final(self).wf(),
            final(self).waiting() == Seq::<ParseWarcResponse>::empty(),
            final(self).size() == 0,
            final(self).bytes() == old(self).bytes(),
            match message {
                Some(message) => old(self).waiting().len() > 0 && is_batch_of(
                    message,
                    old(self).waiting(),
                ),
                None => old(self).waiting().len() == 0,
            },
    {
        if self.batch.len() == 0 {
            return None;
        }
        let mut items: Vec<ParseWarcResponse> = Vec::new();
        std::mem::swap(&mut items, &mut self.batch);
        self.batch_bytes = 0;
        Some(ParseWarcResponse { kind: Some(ResponseKind::Batch(RecordBatch { items })) })
    }

    /// Frames a message by its encoding, and counts the bytes.
    pub fn frame(&mut self, body: &[u8]) -> (frame: Bytes)
        requires
            old(self).wf(),
            body@.len() <= u32::MAX,
            HEADER_LEN + body@.len() <= isize::MAX,
            old(self).bytes() + HEADER_LEN + body@.len() <= u64::MAX,
        ensures
            final(self).wf(),
            buffers::bytes_seq(frame) == wire::frame(body@),
            final(self).bytes() == old(self).bytes() + HEADER_LEN + body@.len(),
            final(self).waiting() == old(self).waiting(),
            final(self).size() == old(self).size(),
    {
        let frame: Bytes = encode_grpc_frame(&mut self.scratch, body);
        proof {
            assert(buffers::bytes_seq(frame) =~= wire::frame(body@));
            wire::lemma_frame_len(body@);
        }
        self.produced = self.produced + bytes_len(&frame) as u64;
        frame
    }

    /// The number of bytes produced.
    pub fn produced(&self) -> (produced: u64)
        ensures
            produced == self.bytes(),
    {
        self.produced
    }

    /// A record begins.
    pub fn record_start(&mut self, metadata: RecordMetadata) -> (message: Option<
        ParseWarcResponse,
    >)
        requires
            old(self).wf(),
        ensures
            final(self).wf(),
            final(self).has_pushed(
                *old(self),
                (ParseWarcResponse {
                    kind: Some(ResponseKind::RecordStart(RecordStart { metadata: Some(metadata) })),
                }),
                START_SIZE as nat,
                message,
            ),
    {
        self.push(
            ParseWarcResponse {
                kind: Some(ResponseKind::RecordStart(RecordStart { metadata: Some(metadata) })),
            },
            START_SIZE,
        )
    }

    /// Payload of the open record: a copy of `window`, which stands at `offset`.
    pub fn payload_window(&mut self, offset: u64, window: &[u8]) -> (message: Option<
        ParseWarcResponse,
    >)
        requires
            old(self).wf(),
            BATCH_BYTES + EVENT_SIZE + window@.len() <= usize::MAX,
        ensures
            final(self).wf(),
            exists|data: Bytes|
                {
                    &&& #[trigger] buffers::bytes_seq(data) == window@
                    &&& final(self).has_pushed(
                        *old(self),
                        (ParseWarcResponse {
                            kind: Some(ResponseKind::PayloadChunk(PayloadChunk { offset, data })),
                        }),
                        (window@.len() + EVENT_SIZE) as nat,
                        message,
                    )
                },
    {
        let data: Bytes = bytes_copy(window);
        let approx: usize = bytes_len(&data) + EVENT_SIZE;
        self.push(
            ParseWarcResponse { kind: Some(ResponseKind::PayloadChunk(PayloadChunk { offset, data })) },
            approx,
        )
    }

    /// The open record is complete.
    pub fn record_end(&mut self, payload_length: u64) -> (message: Option<ParseWarcResponse>)
        requires
            old(self).wf(),
        ensures
            final(self).wf(),
            final(self).has_pushed(
                *old(self),
                (ParseWarcResponse {
                    kind: Some(ResponseKind::RecordEnd(RecordEnd { payload_length })),
                }),
                EVENT_SIZE as nat,
                message,
            ),
    {
        self.push(
            ParseWarcResponse {
                kind: Some(ResponseKind::RecordEnd(RecordEnd { payload_length })),
            },
            EVENT_SIZE,
        )
    }
}

/// A sink keeps the order of events and loses none: the batch that goes out,
/// followed by what waits, is what waited before, followed by the new event.
pub proof fn law_sink_keeps_order(
    before: ProtoSink,
    after: ProtoSink,
    response: ParseWarcResponse,
    approx: nat,
    message: Option<ParseWarcResponse>,
)
    requires
        after.has_pushed(before, response, approx, message),
    ensures
        (match message {
            Some(message) => message::events(message),
            None => Seq::empty(),
        }) + message::all_events(after.waiting()) == message::all_events(before.waiting())
            + message::events(response),
{
    let items = before.waiting().push(response);
    assert(items.drop_last() =~= before.waiting());
    assert(message::all_events(items) == message::all_events(before.waiting()) + message::events(
        response,
    ));
    if message is Some {
        assert(message::all_events(after.waiting()) =~= Seq::empty());
        assert(message::events(message->0) + Seq::empty() =~= message::events(message->0));
    } else {
        assert(Seq::empty() + message::all_events(items) =~= message::all_events(items));
    }
}

/// How far a run is after consecutive windows of payload.
pub open spec fn after_windows(progress: Progress, lens: Seq<usize>) -> Progress
    decreases lens.len(),
{
    if lens.len() == 0 {
        progress
    } else {
        after_windows(progress, lens.drop_last()).after(OutputEvent::Window(lens.last()))
    }
}

/// The sum of lengths.
pub open spec fn sum(lens: Seq<usize>) -> nat {
    lens.fold_left(0nat, |total: nat, len: usize| total + len as nat)
}

/// A record is read out window by window: it begins with the number of records
/// before it, each window stands where the ones before it end, and an empty window
/// ends it after as many bytes as all of them hold. The totals grow by exactly
/// that.
pub proof fn law_record_is_read_out(before: Progress, lens: Seq<usize>)
    requires
        forall|i: int| 0 <= i < lens.len() ==> #[trigger] lens[i] > 0,
        before.records <= u64::MAX,
        sum(lens) <= u64::MAX,
    ensures
        before.action(OutputEvent::Record) == OutputAction::Start(before.records as u64),
        ({
            let begun = before.after(OutputEvent::Record);
            let read = after_windows(begun, lens);
            let ended = read.after(OutputEvent::Window(0));
            &&& begun.payload == before.payload && begun.records == before.records
            &&& forall|len: usize|
                len > 0 ==> #[trigger] read.action(OutputEvent::Window(len)) == OutputAction::Payload(
                    sum(lens) as u64,
                )
            &&& read.action(OutputEvent::Window(0)) == OutputAction::End(sum(lens) as u64)
            &&& read.action(OutputEvent::NoPayload) == OutputAction::End(sum(lens) as u64)
            &&& read.after(OutputEvent::NoPayload) == ended
            &&& ended.payload == before.payload + sum(lens)
            &&& ended.records == before.records + 1
        }),
{
    lemma_windows_add_up(before.after(OutputEvent::Record), lens);
}

/// Windows move the offset by their lengths, and nothing else.
proof fn lemma_windows_add_up(begun: Progress, lens: Seq<usize>)
    requires
        forall|i: int| 0 <= i < lens.len() ==> #[trigger] lens[i] > 0,
    ensures
        after_windows(begun, lens) == (Progress { offset: begun.offset + sum(lens), ..begun }),
    decreases lens.len(),
{
    reveal(Seq::fold_left);
    if lens.len() > 0 {
        let earlier = lens.drop_last();
        assert forall|i: int| 0 <= i < earlier.len() implies #[trigger] earlier[i] > 0 by {
            assert(lens[i] > 0);
        }
        assert(lens[lens.len() - 1] > 0);
        lemma_windows_add_up(begun, earlier);
        assert(sum(lens) == sum(earlier) + lens.last());
    } else {
        assert(sum(lens) == 0);
    }
}

/// What cannot be read changes nothing and is not told to the sink.
pub proof fn law_unreadable_is_skipped(before: Progress)
    ensures
        before.action(OutputEvent::Unreadable) is Skip,
        before.after(OutputEvent::Unreadable) == before,
{
}

/// A sink sends once it holds 64 events or about 2 MiB of them, and not before: all
/// that waits goes out as one batch, in order, and nothing stays.
pub proof fn law_sink_sends_when_full(
    before: ProtoSink,
    after: ProtoSink,
    response: ParseWarcResponse,
    approx: nat,
    message: Option<ParseWarcResponse>,
)
    requires
        after.has_pushed(before, response, approx, message),
    ensures
        message is Some <==> before.waiting().len() + 1 >= 64 || before.size() + approx >= 2 * 1024
            * 1024,
        message is None ==> after.waiting() == before.waiting().push(response) && after.size()
            == before.size() + approx,
        message matches Some(message) ==> {
            &&& after.waiting().len() == 0
            &&& after.size() == 0
            &&& message.kind matches Some(ResponseKind::Batch(batch))
            &&& batch.items@ == before.waiting().push(response)
        },
        after.bytes() == before.bytes(),
        START_SIZE == 512 && EVENT_SIZE == 64,
{
}

/// A run has room exactly as long as the payload bytes and the records can be
/// counted in their types.
pub proof fn law_run_has_room_up_to_its_types(progress: Progress)
    ensures
        progress.fits() <==> progress.payload + progress.offset <= u64::MAX && progress.records
            <= usize::MAX,
{
}

/// The message that carries waiting events is a batch of exactly those, in order.
pub proof fn law_batch_is_its_events(message: ParseWarcResponse, items: Seq<ParseWarcResponse>)
    requires
        is_batch_of(message, items),
    ensures
        message::events(message) == message::all_events(items),
        message.kind matches Some(ResponseKind::Batch(batch)) && batch.items@.len() == items.len(),
{
}

} // verus!
