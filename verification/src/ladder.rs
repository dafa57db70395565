//! The ledger of the layer cost ladder: how much an archive holds, and how
//! many bytes it takes on the wire.

use vstd::arithmetic::div_mod::{lemma_add_mod_noop, lemma_mod_self_0, lemma_small_mod};
use vstd::prelude::*;

use crate::message::{ParseWarcConfig, ParseWarcResponse, ResponseKind};
use crate::wire::HEADER_LEN;
use crate::{message, wire};

verus! {

/// Size of the slices in which an archive is uploaded.
pub const CHUNK: usize = 0x1_0000;

/// What one step of reading an archive came to.
#[derive(Clone, Copy, Debug, PartialEq, Eq, Structural)]
pub enum Step {
    /// A record with this many bytes of content.
    Record(u64),
    /// Something that is no readable record.
    Unreadable,
    /// The archive has ended.
    End,
}

/// The payload bytes of the records among the steps.
pub open spec fn payload_of(steps: Seq<Step>) -> nat
    decreases steps.len(),
{
    if steps.len() == 0 {
        0
    } else {
        payload_of(steps.drop_last()) + content_of(steps.last())
    }
}

/// The payload bytes of one step.
pub open spec fn content_of(step: Step) -> nat {
    match step {
        Step::Record(content) => content as nat,
        _ => 0,
    }
}

/// The number of records among the steps.
pub open spec fn records_of(steps: Seq<Step>) -> nat
    decreases steps.len(),
{
    if steps.len() == 0 {
        0
    } else {
        records_of(steps.drop_last()) + if steps.last() is Record {
            1nat
        } else {
            0nat
        }
    }
}

/// Counting on from a number that has wrapped around.
proof fn lemma_count_wraps(count: nat, modulus: nat)
    requires
        modulus > 1,
    ensures
        count % modulus < modulus,
        (count + 1) % modulus == if count % modulus + 1 == modulus {
            0
        } else {
            count % modulus + 1
        },
{
    lemma_small_mod(1, modulus);
    lemma_add_mod_noop(count as int, 1, modulus as int);
    if count % modulus + 1 < modulus {
        lemma_small_mod((count % modulus + 1) as nat, modulus);
    } else {
        lemma_mod_self_0(modulus as int);
    }
}

/// A count of payload bytes and records. Both wrap around where they outgrow
/// their type.
pub struct Tally {
    payload: u64,
    records: usize,
    steps: Ghost<Seq<Step>>,
}

impl Tally {
    /// What was counted, in order.
    pub closed spec fn steps(&self) -> Seq<Step> {
        self.steps@
    }

    /// The counts are those of the steps.
    pub closed spec fn wf(&self) -> bool {
        &&& self.payload == payload_of(self.steps@) % 0x1_0000_0000_0000_0000
        &&& self.records == records_of(self.steps@) % (usize::MAX as nat + 1)
    }

    /// A count of nothing.
    pub fn new() -> (tally: Self)
        ensures
            tally.wf(),
            tally.steps() == Seq::<Step>::empty(),
    {
        proof {
            lemma_small_mod(0, usize::MAX as nat + 1);
        }
        Tally { payload: 0, records: 0, steps: Ghost(Seq::empty()) }
    }

    /// The payload bytes of the records that were counted.
    pub fn payload(&self) -> (payload: u64)
        requires
            self.wf(),
        ensures
            payload == payload_of(self.steps()) % 0x1_0000_0000_0000_0000,
    {
        self.payload
    }

    /// The number of records that were counted.
    pub fn records(&self) -> (records: usize)
        requires
            self.wf(),
        ensures
            records == records_of(self.steps()) % (usize::MAX as nat + 1),
    {
        self.records
    }

    /// Counts one step. Only a readable record adds to the counts; what cannot
    /// be read as a record is passed over. Answers whether to read on, which is
    /// up to the end of the archive.
    pub fn count(&mut self, step: Step) -> (more: bool)
        requires
            old(self).wf(),
        ensures
            final(self).wf(),
            final(self).steps() == old(self).steps().push(step),
            more == (step != Step::End),
    {
        proof {
            assert(self.steps@.push(step).drop_last() =~= self.steps@);
            lemma_count_wraps(records_of(self.steps@), usize::MAX as nat + 1);
        }
        if let Step::Record(content) = step {
            self.payload = self.payload.wrapping_add(content);
            self.records = self.records.wrapping_add(1);
        }
        self.steps = Ghost(self.steps@.push(step));
        step != Step::End
    }
}

/// Whether this is the configuration of a parse that is measured, with this path.
pub open spec fn is_measured_config(
    config: ParseWarcConfig,
    full: bool,
    path: Seq<char>,
) -> bool {
    &&& config.parse_http == Some(false)
    &&& !config.verify_digests
    &&& config.include_payload == Some(full)
    &&& config.include_headers == Some(full)
    &&& config.max_header_len == 0
    &&& config.payload_chunk_size == 0x10_0000
    &&& config.input_buffer_size == CHUNK
    &&& config.response_batch_size == 64
    &&& config.min_content_length is None
    &&& config.max_content_length is None
    &&& config.archive_path@ == path
}

/// The configuration of the parses that are measured: no HTTP parsing, no
/// digests, batches of 64. `full` asks for payloads and header blocks too.
pub fn parse_config(full: bool, local_path: Option<&str>) -> (config: ParseWarcConfig)
    ensures
        is_measured_config(
            config,
            full,
            match local_path {
                Some(path) => path@,
                None => Seq::empty(),
            },
        ),
{
    ParseWarcConfig {
        parse_http: Some(false),
        verify_digests: false,
        include_payload: Some(full),
        include_headers: Some(full),
        max_header_len: 0,
        payload_chunk_size: 0x10_0000,
        input_buffer_size: 0x1_0000,
        response_batch_size: 64,
        min_content_length: None,
        max_content_length: None,
        archive_path: match local_path {
            Some(path) => path.to_owned(),
            None => String::new(),
        },
    }
}

/// The length of the gRPC message that carries a chunk of `len` bytes.
pub open spec fn chunk_frame_len(len: nat) -> nat {
    (HEADER_LEN + wire::field_len(len)) as nat
}

/// The length of the gRPC messages that carry `len` bytes in slices of
/// [`CHUNK`], the last of which may be shorter.
pub open spec fn chunks_len(len: nat) -> nat
    decreases len,
{
    if len == 0 {
        0
    } else if len < CHUNK {
        chunk_frame_len(len)
    } else {
        chunk_frame_len(CHUNK as nat) + chunks_len((len - CHUNK) as nat)
    }
}

/// The length of an upload on the wire: one message with the configuration,
/// and one for each slice of the archive.
pub open spec fn upload_len(file_bytes: nat, config_len: nat) -> nat {
    (HEADER_LEN + config_len + chunks_len(file_bytes)) as nat
}

/// Full slices, and then what is left.
proof fn lemma_chunks_len(full: nat, tail: nat)
    requires
        tail < CHUNK,
    ensures
        chunks_len(full * CHUNK as nat + tail) == full * chunk_frame_len(CHUNK as nat)
            + chunks_len(tail),
    decreases full,
{
    if full > 0 {
        let rest = (full - 1) as nat;
        lemma_chunks_len(rest, tail);
        assert(full * CHUNK as nat == rest * CHUNK as nat + CHUNK) by (nonlinear_arith)
            requires
                full == rest + 1,
        ;
        assert(full * chunk_frame_len(CHUNK as nat) == rest * chunk_frame_len(CHUNK as nat)
            + chunk_frame_len(CHUNK as nat)) by (nonlinear_arith)
            requires
                full == rest + 1,
        ;
        assert((full * CHUNK as nat + tail - CHUNK) as nat == rest * CHUNK as nat + tail);
    } else {
        assert(full * chunk_frame_len(CHUNK as nat) == 0) by (nonlinear_arith)
            requires
                full == 0,
        ;
    }
}

/// Wire overhead of one framed chunk message: the gRPC header, the protobuf
/// field key, and the length of the chunk.
pub fn chunk_frame_overhead(chunk_len: usize) -> (overhead: u64)
    ensures
        overhead == chunk_frame_len(chunk_len as nat) - chunk_len,
{
    proof {
        wire::lemma_varint_len_bound(chunk_len as nat);
    }
    let delimiter: usize = prost::length_delimiter_len(chunk_len);
    5 + 1 + delimiter as u64
}

/// Wire bytes that an upload of `file_bytes` takes: one message with the
/// configuration, whose encoding is `config_len` bytes long, and a framed chunk
/// per slice.
pub fn upload_wire_bytes(file_bytes: u64, config_len: usize) -> (wire_bytes: u64)
    requires
        upload_len(file_bytes as nat, config_len as nat) <= u64::MAX,
    ensures
        wire_bytes == upload_len(file_bytes as nat, config_len as nat),
{
    let full_chunks: u64 = file_bytes / 0x1_0000;
    let tail: u64 = file_bytes % 0x1_0000;
    proof {
        lemma_chunks_len(full_chunks as nat, tail as nat);
        reveal_with_fuel(wire::varint_len, 3);
        assert(chunk_frame_len(CHUNK as nat) == 0x1_0009);
    }
    let mut total: u64 = 5 + config_len as u64;
    total = total + full_chunks * (chunk_frame_overhead(CHUNK) + 0x1_0000);
    if tail > 0 {
        total = total + (chunk_frame_overhead(tail as usize) + tail);
    }
    total
}

/// The request messages that carry an archive, slice by slice.
pub open spec fn chunk_requests(archive: Seq<u8>) -> Seq<Seq<u8>>
    decreases archive.len(),
{
    if archive.len() == 0 {
        Seq::empty()
    } else if archive.len() < CHUNK {
        seq![wire::chunk_request(archive)]
    } else {
        seq![wire::chunk_request(archive.take(CHUNK as int))] + chunk_requests(
            archive.skip(CHUNK as int),
        )
    }
}

/// The computed length of an upload is the length of the gRPC messages that
/// carry the configuration and the slices of the archive.
pub proof fn law_upload_length(config: Seq<u8>, archive: Seq<u8>)
    ensures
        wire::frames(seq![config] + chunk_requests(archive)).len() == upload_len(
            archive.len(),
            config.len(),
        ),
{
    let bodies = seq![config] + chunk_requests(archive);
    lemma_chunk_requests_len(archive);
    wire::lemma_frame_len(config);
    assert(bodies.drop_first() =~= chunk_requests(archive));
}

proof fn lemma_chunk_requests_len(archive: Seq<u8>)
    ensures
        wire::frames(chunk_requests(archive)).len() == chunks_len(archive.len()),
    decreases archive.len(),
{
    let bodies = chunk_requests(archive);
    if archive.len() > 0 {
        let head = if archive.len() < CHUNK {
            archive
        } else {
            archive.take(CHUNK as int)
        };
        wire::lemma_varint_len(head.len());
        wire::lemma_frame_len(wire::chunk_request(head));
        if archive.len() < CHUNK {
            assert(bodies.drop_first() =~= Seq::<Seq<u8>>::empty());
            assert(wire::frames(bodies.drop_first()).len() == 0);
        } else {
            lemma_chunk_requests_len(archive.skip(CHUNK as int));
            assert(bodies.drop_first() =~= chunk_requests(archive.skip(CHUNK as int)));
        }
    }
}

/// What a client has counted of the replies to a parse.
pub struct Ends {
    /// Payload bytes of the records that ended.
    pub payload: nat,
    /// Number of records that ended.
    pub records: nat,
    /// The messages of the errors after which nothing more comes.
    pub fatal: Seq<Seq<char>>,
}

impl Ends {
    /// The count after one more event.
    pub open spec fn after(self, event: ResponseKind) -> Ends {
        match event {
            ResponseKind::RecordEnd(end) => Ends {
                payload: self.payload + end.payload_length as nat,
                records: self.records + 1,
                ..self
            },
            ResponseKind::RecordError(error) => if error.recoverable {
                self
            } else {
                Ends { fatal: self.fatal.push(error.message@), ..self }
            },
            _ => self,
        }
    }

    /// The count after consecutive events.
    pub open spec fn after_all(self, events: Seq<ResponseKind>) -> Ends
        decreases events.len(),
    {
        if events.len() == 0 {
            self
        } else {
            self.after_all(events.drop_last()).after(events.last())
        }
    }
}

/// The texts of strings.
pub open spec fn texts(strings: Seq<String>) -> Seq<Seq<char>> {
    strings.map_values(|string: String| string@)
}

/// The count that a client's variables stand for.
pub open spec fn ends(payload: u64, records: usize, fatal: Seq<String>) -> Ends {
    Ends { payload: payload as nat, records: records as nat, fatal: texts(fatal) }
}

proof fn lemma_ends_add(start: Ends, a: Seq<ResponseKind>, b: Seq<ResponseKind>)
    ensures
        start.after_all(a + b) == start.after_all(a).after_all(b),
        start.after_all(a).payload <= start.after_all(a + b).payload,
        start.after_all(a).records <= start.after_all(a + b).records,
    decreases b.len(),
{
    if b.len() == 0 {
        assert(a + b =~= a);
    } else {
        lemma_ends_add(start, a, b.drop_last());
        assert((a + b).drop_last() =~= a + b.drop_last());
    }
}

proof fn lemma_ends_one(start: Ends, event: ResponseKind)
    ensures
        start.after_all(seq![event]) == start.after(event),
{
    assert(seq![event].drop_last() =~= Seq::<ResponseKind>::empty());
    assert(start.after_all(Seq::<ResponseKind>::empty()) == start);
}

/// Payload bytes and records are counted alike, whatever errors came before.
proof fn lemma_ends_ignore_errors(a: Ends, b: Ends, events: Seq<ResponseKind>)
    requires
        a.payload == b.payload,
        a.records == b.records,
    ensures
        a.after_all(events).payload == b.after_all(events).payload,
        a.after_all(events).records == b.after_all(events).records,
    decreases events.len(),
{
    if events.len() > 0 {
        lemma_ends_ignore_errors(a, b, events.drop_last());
    }
}

/// The counts of payload bytes and records after a reply, unless one of them
/// outgrows its type.
fn end_totals(resp: &ParseWarcResponse, payload: u64, records: usize) -> (totals: Option<
    (u64, usize),
>)
    ensures
        ({
            let after = ends(payload, records, Seq::empty()).after_all(message::events(*resp));
            match totals {
                Some(totals) => totals.0 == after.payload && totals.1 == after.records,
                None => after.payload > u64::MAX || after.records > usize::MAX,
            }
        }),
    decreases resp,
{
    let ghost before = ends(payload, records, Seq::empty());
    match &resp.kind {
        Some(ResponseKind::RecordEnd(end)) => {
            proof {
                lemma_ends_one(before, ResponseKind::RecordEnd(*end));
            }
            if end.payload_length <= u64::MAX - payload && records < usize::MAX {
                Some((payload + end.payload_length, records + 1))
            } else {
                None
            }
        },
        Some(ResponseKind::Batch(batch)) => {
            let items: &Vec<ParseWarcResponse> = &batch.items;
            let mut i: usize = 0;
            let mut sums: (u64, usize) = (payload, records);
            assert(items@.take(0) =~= Seq::<ParseWarcResponse>::empty());
            while i < items.len()
                invariant
                    i <= items@.len(),
                    resp.kind matches Some(ResponseKind::Batch(whole)) && whole.items == *items,
                    before == ends(payload, records, Seq::empty()),
                    ({
                        let after = before.after_all(
                            message::all_events(items@.take(i as int)),
                        );
                        sums.0 == after.payload && sums.1 == after.records
                    }),
                decreases items@.len() - i,
            {
                let ghost done = message::all_events(items@.take(i as int));
                let ghost next = message::events(items@[i as int]);
                proof {
                    assert(decreases_to!(resp => resp.kind->0->Batch_0.items@[i as int]));
                    assert(items@.take(i + 1).drop_last() =~= items@.take(i as int));
                    assert(items@ =~= items@.take(i + 1) + items@.skip(i + 1));
                    message::lemma_all_events_add(items@.take(i + 1), items@.skip(i + 1));
                    lemma_ends_add(before, done, next);
                    lemma_ends_add(
                        before,
                        message::all_events(items@.take(i + 1)),
                        message::all_events(items@.skip(i + 1)),
                    );
                    lemma_ends_ignore_errors(
                        ends(sums.0, sums.1, Seq::empty()),
                        before.after_all(done),
                        next,
                    );
                }
                match end_totals(&items[i], sums.0, sums.1) {
                    Some(totals) => {
                        sums = totals;
                    },
                    None => {
                        return None;
                    },
                }
                i = i + 1;
            }
            assert(items@.take(items@.len() as int) =~= items@);
            Some(sums)
        },
        Some(ResponseKind::RecordStart(start)) => {
            proof {
                lemma_ends_one(before, ResponseKind::RecordStart(*start));
            }
            Some((payload, records))
        },
        Some(ResponseKind::PayloadChunk(chunk)) => {
            proof {
                lemma_ends_one(before, ResponseKind::PayloadChunk(*chunk));
            }
            Some((payload, records))
        },
        Some(ResponseKind::RecordError(error)) => {
            proof {
                lemma_ends_one(before, ResponseKind::RecordError(*error));
            }
            Some((payload, records))
        },
        None => Some((payload, records)),
    }
}

/// Counts the records that a reply ends, and keeps the messages of errors that
/// end the parse.
pub fn count_end(
    resp: &ParseWarcResponse,
    payload: &mut u64,
    records: &mut usize,
    fatal: &mut Vec<String>,
)
    requires
        ends(*old(payload), *old(records), old(fatal)@).after_all(message::events(*resp)).payload
            <= u64::MAX,
        ends(*old(payload), *old(records), old(fatal)@).after_all(message::events(*resp)).records
            <= usize::MAX,
    ensures
        ends(*final(payload), *final(records), final(fatal)@) == ends(
            *old(payload),
            *old(records),
            old(fatal)@,
        ).after_all(message::events(*resp)),
    decreases resp,
{
    let ghost before = ends(*payload, *records, fatal@);
    match &resp.kind {
        Some(ResponseKind::RecordEnd(end)) => {
            proof {
                lemma_ends_one(before, ResponseKind::RecordEnd(*end));
            }
            *payload = *payload + end.payload_length;
            *records = *records + 1;
        },
        Some(ResponseKind::RecordError(error)) => {
            proof {
                lemma_ends_one(before, ResponseKind::RecordError(*error));
            }
            if !error.recoverable {
                let ghost kept = fatal@;
                fatal.push(error.message.clone());
                assert(texts(fatal@) =~= texts(kept).push(error.message@));
            }
        },
        Some(ResponseKind::Batch(batch)) => {
            let items: &Vec<ParseWarcResponse> = &batch.items;
            let mut i: usize = 0;
            assert(items@.take(0) =~= Seq::<ParseWarcResponse>::empty());
            while i < items.len()
                invariant
                    i <= items@.len(),
                    resp.kind matches Some(ResponseKind::Batch(whole)) && whole.items == *items,
                    before.after_all(message::all_events(items@)).payload <= u64::MAX,
                    before.after_all(message::all_events(items@)).records <= usize::MAX,
                    ends(*payload, *records, fatal@) == before.after_all(
                        message::all_events(items@.take(i as int)),
                    ),
                decreases items@.len() - i,
            {
                proof {
                    assert(decreases_to!(resp => resp.kind->0->Batch_0.items@[i as int]));
                    let done = message::all_events(items@.take(i as int));
                    let next = message::events(items@[i as int]);
                    assert(items@.take(i + 1).drop_last() =~= items@.take(i as int));
                    assert(items@ =~= items@.take(i + 1) + items@.skip(i + 1));
                    message::lemma_all_events_add(items@.take(i + 1), items@.skip(i + 1));
                    lemma_ends_add(before, done, next);
                    lemma_ends_add(
                        before,
                        message::all_events(items@.take(i + 1)),
                        message::all_events(items@.skip(i + 1)),
                    );
                }
                count_end(&items[i], payload, records, fatal);
                i = i + 1;
            }
            assert(items@.take(items@.len() as int) =~= items@);
        },
        Some(ResponseKind::RecordStart(start)) => {
            proof {
                lemma_ends_one(before, ResponseKind::RecordStart(*start));
            }
        },
        Some(ResponseKind::PayloadChunk(chunk)) => {
            proof {
                lemma_ends_one(before, ResponseKind::PayloadChunk(*chunk));
            }
        },
        None => {},
    }
}

/// What a client has received in reply to its uploads.
pub struct Replies {
    /// Payload bytes of the records that ended.
    pub payload: u64,
    /// Number of records that ended.
    pub records: usize,
    /// Bytes of the gRPC messages that came.
    pub wire_out: u64,
    /// The messages of the errors after which nothing more came.
    pub fatal: Vec<String>,
}

impl Replies {
    /// The count of the records that ended.
    pub open spec fn ends(&self) -> Ends {
        ends(self.payload, self.records, self.fatal@)
    }

    /// Whether counting a reply, whose encoding is `encoded_len` bytes long, turns
    /// `before` into this.
    pub open spec fn has_received(
        &self,
        before: Replies,
        response: ParseWarcResponse,
        encoded_len: nat,
    ) -> bool {
        &&& self.ends() == before.ends().after_all(message::events(response))
        &&& self.wire_out == before.wire_out + HEADER_LEN + encoded_len
    }

    /// Whether this is what two clients have received together.
    pub open spec fn has_merged(&self, before: Replies, other: Replies) -> bool {
        &&& self.payload == before.payload + other.payload
        &&& self.records == before.records + other.records
        &&& self.wire_out == before.wire_out + other.wire_out
        &&& self.fatal@ == before.fatal@ + other.fatal@
    }

    /// No replies yet.
    pub fn new() -> (replies: Self)
        ensures
            replies.ends() == (Ends { payload: 0, records: 0, fatal: Seq::empty() }),
            replies.wire_out == 0,
    {
        let replies = Replies { payload: 0, records: 0, wire_out: 0, fatal: Vec::new() };
        assert(texts(replies.fatal@) =~= Seq::<Seq<char>>::empty());
        replies
    }

    /// Whether the counts can take in a reply, whose encoding is `encoded_len`
    /// bytes long.
    pub fn has_room(&self, response: &ParseWarcResponse, encoded_len: usize) -> (room: bool)
        ensures
            room == {
                let after = self.ends().after_all(message::events(*response));
                &&& after.payload <= u64::MAX
                &&& after.records <= usize::MAX
                &&& self.wire_out + HEADER_LEN + encoded_len <= u64::MAX
            },
    {
        proof {
            lemma_ends_ignore_errors(
                self.ends(),
                ends(self.payload, self.records, Seq::empty()),
                message::events(*response),
            );
        }
        let counts_fit: bool = end_totals(response, self.payload, self.records).is_some();
        let left: u64 = u64::MAX - self.wire_out;
        counts_fit && left >= 5 && encoded_len as u64 <= left - 5
    }

    /// Whether the counts can take in what another client has received.
    pub fn has_room_for(&self, other: &Replies) -> (room: bool)
        ensures
            room == {
                &&& self.payload + other.payload <= u64::MAX
                &&& self.records + other.records <= usize::MAX
                &&& self.wire_out + other.wire_out <= u64::MAX
            },
    {
        other.payload <= u64::MAX - self.payload && other.records <= usize::MAX - self.records
            && other.wire_out <= u64::MAX - self.wire_out
    }

    /// Counts one reply, whose encoding is `encoded_len` bytes long.
    pub fn receive(&mut self, response: &ParseWarcResponse, encoded_len: usize)
        requires
            old(self).ends().after_all(message::events(*response)).payload <= u64::MAX,
            old(self).ends().after_all(message::events(*response)).records <= usize::MAX,
            old(self).wire_out + HEADER_LEN + encoded_len <= u64::MAX,
        ensures
            final(self).has_received(*old(self), *response, encoded_len as nat),
    {
        self.wire_out = self.wire_out + (5 + encoded_len as u64);
        count_end(response, &mut self.payload, &mut self.records, &mut self.fatal);
    }

    /// Adds what another client has received.
    pub fn merge(&mut self, other: Replies)
        requires
            old(self).payload + other.payload <= u64::MAX,
            old(self).records + other.records <= usize::MAX,
            old(self).wire_out + other.wire_out <= u64::MAX,
        ensures
            final(self).has_merged(*old(self), other),
    {
        self.payload = self.payload + other.payload;
        self.records = self.records + other.records;
        self.wire_out = self.wire_out + other.wire_out;
        let mut more: Vec<String> = other.fatal;
        self.fatal.append(&mut more);
    }
}

/// Steps are counted one by one: two runs of steps count what the one and the
/// other count, a record counts its content and one, and everything else counts
/// nothing.
pub proof fn law_steps_add_up(a: Seq<Step>, b: Seq<Step>, content: u64)
    ensures
        payload_of(a + b) == payload_of(a) + payload_of(b),
        records_of(a + b) == records_of(a) + records_of(b),
        payload_of(seq![Step::Record(content)]) == content,
        records_of(seq![Step::Record(content)]) == 1,
        payload_of(seq![Step::Unreadable]) == 0,
        records_of(seq![Step::Unreadable]) == 0,
        payload_of(seq![Step::End]) == 0,
        records_of(seq![Step::End]) == 0,
        payload_of(Seq::empty()) == 0,
        records_of(Seq::empty()) == 0,
    decreases b.len(),
{
    let none = Seq::<Step>::empty();
    assert(seq![Step::Record(content)].drop_last() =~= none);
    assert(seq![Step::Unreadable].drop_last() =~= none);
    assert(seq![Step::End].drop_last() =~= none);
    assert(payload_of(none) == 0 && records_of(none) == 0);
    if b.len() == 0 {
        assert(a + b =~= a);
    } else {
        law_steps_add_up(a, b.drop_last(), content);
        assert((a + b).drop_last() =~= a + b.drop_last());
    }
}

/// The length that is counted for a chunk is that of the gRPC message that carries
/// it, to the byte.
pub proof fn law_chunk_frame_len(chunk: Seq<u8>)
    ensures
        chunk_frame_len(chunk.len()) == wire::frame(wire::chunk_request(chunk)).len(),
        chunk_frame_len(chunk.len()) == 5 + 1 + wire::varint(chunk.len()).len() + chunk.len(),
{
    wire::lemma_varint_len(chunk.len());
    wire::lemma_frame_len(wire::chunk_request(chunk));
}

/// An archive is uploaded in slices of 64 KiB, in order, of which only the last may
/// be shorter; none is empty, and together they are the archive.
pub proof fn law_slices_are_the_archive(archive: Seq<u8>)
    ensures
        (chunk_requests(archive).len() - 1) * 65536 < archive.len() || archive.len() == 0,
        chunk_requests(archive).len() * 65536 >= archive.len(),
        archive.len() == 0 ==> chunk_requests(archive).len() == 0,
        forall|i: int|
            0 <= i < chunk_requests(archive).len() ==> #[trigger] chunk_requests(archive)[i]
                == wire::chunk_request(
                archive.subrange(
                    i * 65536,
                    if (i + 1) * 65536 <= archive.len() {
                        (i + 1) * 65536
                    } else {
                        archive.len() as int
                    },
                ),
            ),
    decreases archive.len(),
{
    let requests = chunk_requests(archive);
    if archive.len() >= CHUNK {
        let head = archive.take(65536);
        let rest = archive.skip(65536);
        law_slices_are_the_archive(rest);
        let later = chunk_requests(rest);
        assert(requests =~= seq![wire::chunk_request(head)] + later);
        assert forall|i: int| 0 <= i < requests.len() implies #[trigger] requests[i]
            == wire::chunk_request(
            archive.subrange(
                i * 65536,
                if (i + 1) * 65536 <= archive.len() {
                    (i + 1) * 65536
                } else {
                    archive.len() as int
                },
            ),
        ) by {
            if i == 0 {
                assert(archive.subrange(0, 65536) =~= head);
            } else {
                assert(requests[i] == later[i - 1]);
                let end = if i * 65536 <= rest.len() {
                    i * 65536
                } else {
                    rest.len() as int
                };
                assert(rest.subrange((i - 1) * 65536, end) =~= archive.subrange(
                    i * 65536,
                    end + 65536,
                ));
            }
        }
    } else if archive.len() > 0 {
        assert(archive.subrange(0, archive.len() as int) =~= archive);
    }
}

/// A client counts the records that end and keeps the errors that end a parse: two
/// runs of events count what the one and then the other count, and each kind of
/// event counts for itself.
pub proof fn law_replies_add_up(
    start: Ends,
    a: Seq<ResponseKind>,
    b: Seq<ResponseKind>,
    event: ResponseKind,
)
    ensures
        start.after_all(a + b) == start.after_all(a).after_all(b),
        start.after_all(Seq::empty()) == start,
        ({
            let after = start.after_all(seq![event]);
            match event {
                ResponseKind::RecordEnd(end) => {
                    &&& after.payload == start.payload + end.payload_length
                    &&& after.records == start.records + 1
                    &&& after.fatal == start.fatal
                },
                ResponseKind::RecordError(error) => {
                    &&& after.payload == start.payload
                    &&& after.records == start.records
                    &&& error.recoverable ==> after.fatal == start.fatal
                    &&& !error.recoverable ==> after.fatal == start.fatal.push(error.message@)
                },
                _ => after == start,
            }
        }),
{
    lemma_ends_add(start, a, b);
    lemma_ends_one(start, event);
}

/// What a client's variables stand for is what they hold.
pub proof fn law_counts_are_the_variables(payload: u64, records: usize, fatal: Seq<String>)
    ensures
        ends(payload, records, fatal).payload == payload,
        ends(payload, records, fatal).records == records,
        ends(payload, records, fatal).fatal.len() == fatal.len(),
        forall|i: int|
            0 <= i < fatal.len() ==> #[trigger] ends(payload, records, fatal).fatal[i] == fatal[i]@,
{
}

/// A reply counts on the wire as the gRPC message that carries it, to the byte, and
/// adds the records that its events end and the errors that end the parse.
pub proof fn law_reply_counts_as_its_message(
    before: Replies,
    after: Replies,
    response: ParseWarcResponse,
    body: Seq<u8>,
)
    requires
        after.has_received(before, response, body.len()),
    ensures
        after.wire_out == before.wire_out + wire::frame(body).len(),
        after.payload == before.ends().after_all(message::events(response)).payload,
        after.records == before.ends().after_all(message::events(response)).records,
        after.fatal@.len() == before.ends().after_all(message::events(response)).fatal.len(),
        message::events(response).len() == 0 ==> after.payload == before.payload && after.records
            == before.records,
{
    wire::lemma_frame_len(body);
}

/// What two clients have received together is what the one and the other have, in
/// whichever order the numbers are added.
pub proof fn law_clients_add_up(one: Replies, other: Replies, both: Replies, reversed: Replies)
    requires
        both.has_merged(one, other),
        reversed.has_merged(other, one),
    ensures
        both.payload == one.payload + other.payload,
        both.records == one.records + other.records,
        both.wire_out == one.wire_out + other.wire_out,
        both.fatal@.len() == one.fatal@.len() + other.fatal@.len(),
        forall|i: int| 0 <= i < one.fatal@.len() ==> #[trigger] both.fatal@[i] == one.fatal@[i],
        both.payload == reversed.payload,
        both.records == reversed.records,
        both.wire_out == reversed.wire_out,
{
}

/// The parses that are measured differ in nothing but what is echoed and where the
/// archive is: two of them with the same switch and path are the same, the path is
/// the one that was given, and on any server with limits of 1 MiB for payload chunks
/// and 64 KiB for buffers they are accepted.
pub proof fn law_measured_parses_are_alike(
    config: ParseWarcConfig,
    other: ParseWarcConfig,
    full: bool,
    path: Seq<char>,
    limits: crate::config::Limits,
)
    requires
        is_measured_config(config, full, path),
        is_measured_config(other, full, path),
    ensures
        config.archive_path@ == path && other.archive_path@ == path,
        (full <==> config.include_payload == Some(true)) && (full <==> config.include_headers
            == Some(true)),
        config.include_payload is Some && config.include_headers is Some,
        config.parse_http == Some(false) && !config.verify_digests,
        config.response_batch_size == 64,
        config.payload_chunk_size == 1024 * 1024,
        config.input_buffer_size == 64 * 1024,
        limits.max_payload_chunk_size >= 1024 * 1024 && limits.max_input_buffer_size >= 64 * 1024
            ==> crate::config::config_fault(config, limits) is None,
        config.min_content_length is None && config.max_content_length is None,
{
}

} // verus!
