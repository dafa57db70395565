//! Batching of response events into batch messages.

use tokio::sync::mpsc::Sender;
use vstd::prelude::*;

use crate::channel::{send_waiting, sent_waiting, Exchange, Outlet, TrySend};
use crate::message::{all_events, events, ParseWarcResponse, RecordBatch, ResponseKind};
use crate::status::Status;
use crate::wire::{field_len, lemma_varint_len, lemma_varint_len_bound, varint, varint_len};

verus! {

/// Flush threshold for encoded batch items. A single larger event is sent
/// unbatched.
pub const MAX_BATCH_BYTES: usize = 0x20_0000;

/// Protobuf field number of the items of a batch.
pub const ITEM_TAG: u32 = 1;

/// `a + b`, or the largest `usize` if that is smaller.
pub open spec fn saturating_sum(a: nat, b: nat) -> nat {
    if a + b <= usize::MAX {
        a + b
    } else {
        usize::MAX as nat
    }
}

/// The length of an encoded response of `encoded_len` bytes as an item of a
/// batch: with its one-byte key and its length prefix.
pub open spec fn item_len(encoded_len: nat) -> nat {
    saturating_sum(encoded_len, 1 + varint_len(encoded_len))
}

/// Whether `message` carries exactly `items`: a single one as it is, several
/// as a batch.
pub open spec fn carries(message: ParseWarcResponse, items: Seq<ParseWarcResponse>) -> bool {
    if items.len() == 1 {
        message == items[0]
    } else {
        message.kind matches Some(ResponseKind::Batch(batch)) && batch.items@ == items
    }
}

/// A message carries the events of its items, in order.
pub proof fn lemma_carries_events(message: ParseWarcResponse, items: Seq<ParseWarcResponse>)
    requires
        carries(message, items),
    ensures
        events(message) == all_events(items),
{
    if items.len() == 1 {
        assert(items.drop_last() =~= Seq::<ParseWarcResponse>::empty());
        assert(all_events(items.drop_last()) =~= Seq::<ResponseKind>::empty());
        assert(all_events(items) =~= events(message));
    }
}

/// Events that wait for the batch they belong to.
pub struct Batch {
    items: Vec<ParseWarcResponse>,
    size: usize,
    bytes: usize,
}

impl Batch {
    /// The waiting responses, in emission order.
    pub closed spec fn items(&self) -> Seq<ParseWarcResponse> {
        self.items@
    }

    /// The number of responses that fills a batch.
    pub closed spec fn size(&self) -> nat {
        self.size as nat
    }

    /// Encoded size of the waiting responses as items of a batch.
    pub closed spec fn bytes(&self) -> nat {
        self.bytes as nat
    }

    /// Nothing that waits fills a batch: neither by number nor by size.
    pub open spec fn wf(&self) -> bool {
        &&& self.items().len() == 0 ==> self.bytes() == 0
        &&& self.items().len() > 0 ==> self.bytes() > 0
        &&& self.items().len() > 0 ==> self.items().len() < self.size()
        &&& self.bytes() < MAX_BATCH_BYTES
    }

    /// An empty batch that `size` responses fill.
    pub fn new(size: usize) -> (batch: Self)
        ensures
            batch.wf(),
            batch.size() == size,
            batch.items() == Seq::<ParseWarcResponse>::empty(),
            batch.bytes() == 0,
    {
        Batch { items: Vec::new(), size, bytes: 0 }
    }

    /// Encoded size of a response of `encoded_len` bytes as an item of a batch.
    pub fn item_size(encoded_len: usize) -> (size: usize)
        ensures
            size == item_len(encoded_len as nat),
            size > 0,
    {
        proof {
            lemma_varint_len(encoded_len as nat);
            lemma_varint_len_bound(encoded_len as nat);
            assert(varint_len(8) == 1);
        }
        encoded_len.saturating_add(prost::encoding::key_len(ITEM_TAG)).saturating_add(
            prost::encoding::encoded_len_varint(encoded_len as u64),
        )
    }

    /// Whether nothing waits.
    pub fn is_empty(&self) -> (empty: bool)
        ensures
            empty == (self.items().len() == 0),
    {
        self.items.len() == 0
    }

    /// Whether a response is sent by itself, because one fills a batch.
    pub fn is_disabled(&self) -> (disabled: bool)
        ensures
            disabled == (self.size() <= 1),
    {
        self.size <= 1
    }

    /// Empties the batch, if it holds anything, into one message.
    pub fn take(&mut self) -> (message: Option<ParseWarcResponse>)
        ensures
            final(self).wf(),
            final(self).size() == old(self).size(),
            final(self).items() == Seq::<ParseWarcResponse>::empty(),
            old(self).items().len() == 0 ==> message is None,
            old(self).items().len() > 0 ==> {
                &&& message matches Some(message)
                &&& carries(message, old(self).items())
            },
    {
        self.bytes = 0;
        let mut items: Vec<ParseWarcResponse> = Vec::new();
        std::mem::swap(&mut items, &mut self.items);
        if items.len() == 0 {
            None
        } else if items.len() == 1 {
            items.pop()
        } else {
            Some(ParseWarcResponse { kind: Some(ResponseKind::Batch(RecordBatch { items })) })
        }
    }

    /// Empties the batch into one message if an item of `size` bytes would take
    /// it past the threshold.
    pub fn make_room(&mut self, size: usize) -> (message: Option<ParseWarcResponse>)
        requires
            old(self).wf(),
        ensures
            final(self).wf(),
            final(self).size() == old(self).size(),
            old(self).bytes() + size <= MAX_BATCH_BYTES || old(self).items().len() == 0 ==> {
                &&& message is None
                &&& *final(self) == *old(self)
            },
            old(self).bytes() + size > MAX_BATCH_BYTES && old(self).items().len() > 0 ==> {
                &&& message matches Some(message)
                &&& carries(message, old(self).items())
                &&& final(self).items() == Seq::<ParseWarcResponse>::empty()
            },
    {
        if self.items.len() > 0 && self.bytes.saturating_add(size) > MAX_BATCH_BYTES {
            self.take()
        } else {
            None
        }
    }

    /// Adds a response of `size` bytes as an item. When that fills the batch,
    /// by number or by size, empties it into one message.
    pub fn add_item(&mut self, response: ParseWarcResponse, size: usize) -> (message: Option<ParseWarcResponse>)
        requires
            old(self).wf(),
            size > 0,
        ensures
            final(self).wf(),
            final(self).size() == old(self).size(),
            ({
                let full = old(self).items().len() + 1 >= old(self).size() || old(self).bytes() + size
                    >= MAX_BATCH_BYTES;
                &&& full ==> {
                    &&& message matches Some(message)
                    &&& carries(message, old(self).items().push(response))
                    &&& final(self).items() == Seq::<ParseWarcResponse>::empty()
                }
                &&& !full ==> {
                    &&& message is None
                    &&& final(self).items() == old(self).items().push(response)
                    &&& final(self).bytes() == old(self).bytes() + size
                }
            }),
    {
        self.bytes = self.bytes.saturating_add(size);
        self.items.push(response);
        if self.items.len() >= self.size || self.bytes >= MAX_BATCH_BYTES {
            self.take()
        } else {
            None
        }
    }
}

/// The response channel shared by the parser and the request forwarder.
pub type ResponseSender = Sender<Result<ParseWarcResponse, Status>>;

/// One message that was handed to the response channel.
pub struct Sending {
    /// The message.
    pub message: ParseWarcResponse,
    /// Whether the channel took it.
    pub delivered: bool,
}

/// What was said to the response channel, and what it answered.
pub type ResponseExchange = Exchange<Result<ParseWarcResponse, Status>>;

/// The responses that these exchanges hand to the channel, in order, each with
/// the channel's last word on it. A full channel has not had that yet.
pub open spec fn sendings(exchanges: Seq<ResponseExchange>) -> Seq<Sending>
    decreases exchanges.len(),
{
    if exchanges.len() == 0 {
        Seq::empty()
    } else {
        let earlier = sendings(exchanges.drop_last());
        match exchanges.last() {
            Exchange::Tried { message: Ok(message), answer: TrySend::Sent } => earlier.push(
                Sending { message, delivered: true },
            ),
            Exchange::Tried { message: Ok(message), answer: TrySend::Closed(_) } => earlier.push(
                Sending { message, delivered: false },
            ),
            Exchange::Waited { message: Ok(message), taken } => earlier.push(
                Sending { message, delivered: taken },
            ),
            _ => earlier,
        }
    }
}

/// Whether an exchange hands no status to the channel, only responses.
pub open spec fn is_statusless(exchange: ResponseExchange) -> bool {
    match exchange {
        Exchange::Asked { .. } => true,
        Exchange::Tried { message, .. } => message is Ok,
        Exchange::Waited { message, .. } => message is Ok,
    }
}

/// Whether these exchanges hand no status to the channel, only responses.
pub open spec fn are_statusless(exchanges: Seq<ResponseExchange>) -> bool {
    forall|i: int| 0 <= i < exchanges.len() ==> is_statusless(#[trigger] exchanges[i])
}

/// Whether the channel has turned something away: it was found closed when it
/// was asked, or it did not take a message.
pub open spec fn has_refused(exchanges: Seq<ResponseExchange>) -> bool {
    ||| exists|i: int|
        0 <= i < exchanges.len() && #[trigger] exchanges[i] == (Exchange::Asked::<
            Result<ParseWarcResponse, Status>,
        > { closed: true })
    ||| exists|i: int|
        0 <= i < sendings(exchanges).len() && !(#[trigger] sendings(exchanges)[i]).delivered
}

/// Whether the channel took every message.
pub open spec fn all_delivered(log: Seq<Sending>) -> bool {
    forall|i: int| 0 <= i < log.len() ==> (#[trigger] log[i]).delivered
}

/// Asking a channel whether it is closed hands nothing to it.
proof fn lemma_asking_sends_nothing(exchanges: Seq<ResponseExchange>, closed: bool)
    ensures
        sendings(exchanges.push(Exchange::Asked { closed })) == sendings(exchanges),
{
    assert(exchanges.push(Exchange::Asked { closed }).drop_last() =~= exchanges);
}

/// Sending a response hands it to the channel once.
proof fn lemma_sending_is_recorded(
    earlier: Seq<ResponseExchange>,
    message: ParseWarcResponse,
    new: Seq<ResponseExchange>,
    delivered: bool,
)
    requires
        sent_waiting(Ok(message), new, delivered),
    ensures
        sendings(earlier + new) == sendings(earlier).push(Sending { message, delivered }),
{
    if new.len() == 1 {
        assert((earlier + new).drop_last() =~= earlier);
    } else {
        let tried = earlier + new.drop_last();
        assert((earlier + new).drop_last() =~= tried);
        assert(tried.drop_last() =~= earlier);
        assert(tried.last() == new[0]);
        assert(sendings(tried) == sendings(earlier));
    }
    assert((earlier + new).last() == new.last());
}

/// The events of the messages that were handed to the channel, in order.
pub open spec fn sent_events(log: Seq<Sending>) -> Seq<ResponseKind>
    decreases log.len(),
{
    if log.len() == 0 {
        Seq::empty()
    } else {
        sent_events(log.drop_last()) + events(log.last().message)
    }
}

/// What waits for a batch: the responses, and their size as items of it.
pub struct Waiting {
    /// The responses, in emission order.
    pub items: Seq<ParseWarcResponse>,
    /// Their encoded size as items.
    pub bytes: nat,
}

/// Nothing waits.
pub open spec fn nothing_waits() -> Waiting {
    Waiting { items: Seq::empty(), bytes: 0 }
}

/// Whether a response of `encoded_len` bytes would take what waits past the
/// threshold.
pub open spec fn is_crowded(before: Waiting, encoded_len: nat) -> bool {
    before.items.len() > 0 && before.bytes + item_len(encoded_len) > MAX_BATCH_BYTES
}

/// What a response joins: what waits, or nothing where that would be too much.
pub open spec fn joined(before: Waiting, encoded_len: nat) -> Waiting {
    if is_crowded(before, encoded_len) {
        nothing_waits()
    } else {
        before
    }
}

/// Whether emitting a response of `encoded_len` bytes, on top of what waits,
/// hands these messages to the channel, leaves this waiting, and gives this
/// answer.
///
/// Where a batch is one response, it goes out as it is. Otherwise what waits
/// goes out first where the response would take it past the threshold; then the
/// response joins what still waits, and all of it goes out once it fills the
/// batch by number or by size. The answer is whether every message was taken,
/// and the first one that is not ends the emission.
pub open spec fn emitted(
    before: Waiting,
    size: nat,
    response: ParseWarcResponse,
    encoded_len: nat,
    sendings: Seq<Sending>,
    after: Waiting,
    accepted: bool,
) -> bool {
    let crowded = is_crowded(before, encoded_len);
    let kept = joined(before, encoded_len);
    let bytes = kept.bytes + item_len(encoded_len);
    let full = kept.items.len() + 1 >= size || bytes >= MAX_BATCH_BYTES;
    let first: int = if crowded {
        1
    } else {
        0
    };
    if size <= 1 {
        &&& sendings.len() == 1
        &&& sendings[0].message == response
        &&& accepted == sendings[0].delivered
        &&& after == before
    } else if crowded && sendings.len() > 0 && !sendings[0].delivered {
        &&& sendings.len() == 1
        &&& carries(sendings[0].message, before.items)
        &&& !accepted
        &&& after == nothing_waits()
    } else {
        &&& crowded ==> sendings.len() > 0 && carries(sendings[0].message, before.items)
        &&& full ==> {
            &&& sendings.len() == first + 1
            &&& carries(sendings[first].message, kept.items.push(response))
            &&& accepted == sendings[first].delivered
            &&& after == nothing_waits()
        }
        &&& !full ==> {
            &&& sendings.len() == first
            &&& accepted
            &&& after == (Waiting { items: kept.items.push(response), bytes })
        }
    }
}

/// Groups events by count and encoded size without reordering them. Call
/// [`Self::flush`] after the last event to send any remaining items.
pub struct BatchEmitter<'a> {
    outlet: Outlet<'a, Result<ParseWarcResponse, Status>>,
    batch: Batch,
}

impl<'a> BatchEmitter<'a> {
    /// What waits to be sent.
    pub closed spec fn waiting(&self) -> Waiting {
        Waiting { items: self.batch.items(), bytes: self.batch.bytes() }
    }

    /// The number of responses that fills a batch.
    pub closed spec fn size(&self) -> nat {
        self.batch.size()
    }

    /// The response channel.
    pub closed spec fn channel(&self) -> ResponseSender {
        self.outlet.channel()
    }

    /// The exchanges with the channel, in order.
    pub closed spec fn exchanges(&self) -> Seq<ResponseExchange> {
        self.outlet.exchanges()
    }

    /// The messages that were handed to the channel, in order.
    pub open spec fn log(&self) -> Seq<Sending> {
        sendings(self.exchanges())
    }

    /// What waits fills no batch, and the channel was given no status.
    pub closed spec fn wf(&self) -> bool {
        &&& self.batch.wf()
        &&& are_statusless(self.exchanges())
    }

    /// What waits fills no batch: it is fewer responses than that takes, and
    /// their size as items is below the threshold. Where a batch is one
    /// response, nothing waits. The channel was given only responses.
    pub proof fn lemma_what_waits_fills_no_batch(&self)
        requires
            self.wf(),
        ensures
            self.waiting().items.len() == 0 || self.waiting().items.len() < self.size(),
            self.waiting().items.len() == 0 <==> self.waiting().bytes == 0,
            self.waiting().bytes < MAX_BATCH_BYTES,
            are_statusless(self.exchanges()),
    {
    }

    /// Whether emitting a response of `encoded_len` bytes turns `before` into
    /// this emitter and gives this answer: the channel is asked whether it is
    /// closed; if it says so, that is all; otherwise what is due goes out.
    pub open spec fn has_emitted(
        &self,
        before: BatchEmitter<'a>,
        response: ParseWarcResponse,
        encoded_len: nat,
        accepted: bool,
    ) -> bool {
        let earlier = before.exchanges();
        let sendings = self.log().skip(before.log().len() as int);
        &&& self.size() == before.size()
        &&& self.channel() == before.channel()
        &&& earlier.len() < self.exchanges().len()
        &&& earlier.is_prefix_of(self.exchanges())
        &&& self.exchanges()[earlier.len() as int] matches Exchange::Asked { closed }
        &&& closed ==> {
            &&& !accepted
            &&& self.exchanges() == earlier.push(Exchange::Asked { closed })
            &&& self.log() == before.log()
            &&& self.waiting() == before.waiting()
        }
        &&& !closed ==> {
            &&& self.log() == before.log() + sendings
            &&& emitted(
                before.waiting(),
                before.size(),
                response,
                encoded_len,
                sendings,
                self.waiting(),
                accepted,
            )
        }
    }

    /// Whether flushing turns `before` into this emitter and gives this answer:
    /// what waits goes out as one message, and where nothing does, the channel is
    /// asked whether it is closed.
    pub open spec fn has_flushed(&self, before: BatchEmitter<'a>, accepted: bool) -> bool {
        &&& self.size() == before.size()
        &&& self.channel() == before.channel()
        &&& before.exchanges().is_prefix_of(self.exchanges())
        &&& self.waiting() == nothing_waits()
        &&& before.waiting().items.len() == 0 ==> {
            &&& self.log() == before.log()
            &&& self.exchanges() == before.exchanges().push(Exchange::Asked { closed: !accepted })
        }
        &&& before.waiting().items.len() > 0 ==> {
            &&& self.log().len() == before.log().len() + 1
            &&& self.log().drop_last() == before.log()
            &&& carries(self.log().last().message, before.waiting().items)
            &&& accepted == self.log().last().delivered
        }
    }

    /// An emitter that groups `batch_size` events per response on `tx`; one or
    /// none disables batching.
    pub fn new(tx: &'a ResponseSender, batch_size: usize) -> (emitter: Self)
        ensures
            emitter.wf(),
            emitter.size() == batch_size,
            emitter.waiting() == nothing_waits(),
            emitter.channel() == *tx,
            emitter.exchanges() == Seq::<ResponseExchange>::empty(),
            emitter.log() == Seq::<Sending>::empty(),
    {
        BatchEmitter { outlet: Outlet::new(tx), batch: Batch::new(batch_size) }
    }

    /// Queues an event whose encoding is `encoded_len` bytes long, and sends
    /// what is due. Answers `false` when the response channel is closed.
    ///
    /// The channel is first asked whether it is closed. If it says so, that is
    /// all; otherwise the event is queued.
    pub fn emit(&mut self, response: ParseWarcResponse, encoded_len: usize) -> (accepted: bool)
        requires
            old(self).wf(),
        ensures
            final(self).wf(),
            final(self).has_emitted(*old(self), response, encoded_len as nat, accepted),
    {
        let closed: bool = self.outlet.is_closed();
        proof {
            lemma_asking_sends_nothing(old(self).exchanges(), closed);
        }
        let ghost asked = self.exchanges();
        let accepted: bool = self.emit_unless(closed, response, encoded_len);
        assert(self.exchanges()[old(self).exchanges().len() as int] == asked.last());
        accepted
    }

    /// [`Self::emit`] after the channel has answered whether it is closed.
    pub fn emit_unless(&mut self, closed: bool, response: ParseWarcResponse, encoded_len: usize) -> (accepted: bool)
        requires
            old(self).wf(),
        ensures
            final(self).wf(),
            final(self).size() == old(self).size(),
            final(self).channel() == old(self).channel(),
            old(self).exchanges().is_prefix_of(final(self).exchanges()),
            closed ==> !accepted && *final(self) == *old(self),
            !closed ==> {
                let sendings = final(self).log().skip(old(self).log().len() as int);
                &&& final(self).log() == old(self).log() + sendings
                &&& emitted(
                    old(self).waiting(),
                    old(self).size(),
                    response,
                    encoded_len as nat,
                    sendings,
                    final(self).waiting(),
                    accepted,
                )
            },
    {
        if closed {
            return false;
        }
        if self.batch.is_disabled() {
            let delivered: bool = self.send(response);
            assert(self.log().skip(old(self).log().len() as int) =~= seq![self.log().last()]);
            return delivered;
        }
        let size: usize = Batch::item_size(encoded_len);
        if let Some(message) = self.batch.make_room(size) {
            let delivered: bool = self.send(message);
            assert(self.log().skip(old(self).log().len() as int) =~= seq![self.log().last()]);
            if !delivered {
                return false;
            }
        } else {
            assert(self.log().skip(old(self).log().len() as int) =~= Seq::<Sending>::empty());
        }
        let ghost so_far = self.log();
        let message: Option<ParseWarcResponse> = self.batch.add_item(response, size);
        let accepted: bool = match message {
            Some(message) => self.send(message),
            None => true,
        };
        proof {
            let n = old(self).log().len() as int;
            assert(self.log().skip(n) =~= so_far.skip(n) + self.log().skip(so_far.len() as int));
            if message is Some {
                assert(self.log().skip(so_far.len() as int) =~= seq![self.log().last()]);
            } else {
                assert(self.log().skip(so_far.len() as int) =~= Seq::<Sending>::empty());
            }
        }
        accepted
    }

    /// Whether nothing waits.
    pub fn is_idle(&self) -> (idle: bool)
        ensures
            idle == (self.waiting().items.len() == 0),
    {
        self.batch.is_empty()
    }

    /// The outlet to the response channel, with what was said through it. What
    /// waits is dropped.
    pub fn into_outlet(self) -> (outlet: Outlet<'a, Result<ParseWarcResponse, Status>>)
        ensures
            outlet.channel() == self.channel(),
            outlet.exchanges() == self.exchanges(),
    {
        self.outlet
    }

    /// Sends pending events, leaving a single event unwrapped. Answers `false`
    /// when the response channel is closed: with nothing pending, it is asked.
    pub fn flush(&mut self) -> (accepted: bool)
        requires
            old(self).wf(),
        ensures
            final(self).wf(),
            final(self).has_flushed(*old(self), accepted),
    {
        match self.batch.take() {
            Some(message) => {
                let accepted: bool = self.send(message);
                assert(self.log().drop_last() =~= old(self).log());
                accepted
            },
            None => {
                let closed: bool = self.outlet.is_closed();
                proof {
                    lemma_asking_sends_nothing(old(self).exchanges(), closed);
                }
                !closed
            },
        }
    }

    /// Hands one message to the channel and records what became of it.
    fn send(&mut self, message: ParseWarcResponse) -> (delivered: bool)
        requires
            old(self).wf(),
        ensures
            final(self).wf(),
            final(self).batch == old(self).batch,
            final(self).channel() == old(self).channel(),
            old(self).exchanges().is_prefix_of(final(self).exchanges()),
            final(self).log() == old(self).log().push(Sending { message, delivered }),
    {
        let delivered: bool = send_waiting(&mut self.outlet, Ok(message));
        proof {
            let earlier = old(self).exchanges();
            let new = self.exchanges().skip(earlier.len() as int);
            lemma_sending_is_recorded(earlier, message, new, delivered);
            assert forall|i: int| 0 <= i < self.exchanges().len() implies is_statusless(
                #[trigger] self.exchanges()[i],
            ) by {
                if i < earlier.len() {
                    assert(self.exchanges()[i] == earlier[i]);
                } else {
                    assert(self.exchanges()[i] == new[i - earlier.len()]);
                }
            }
        }
        delivered
    }
}

/// Emitting keeps the order of events and loses none: unless a message was
/// refused, what has been handed to the channel, followed by what waits, is
/// what it was before, followed by the new response's events.
pub proof fn law_emission_keeps_order(
    log: Seq<Sending>,
    before: Waiting,
    size: nat,
    response: ParseWarcResponse,
    encoded_len: nat,
    sendings: Seq<Sending>,
    after: Waiting,
    accepted: bool,
)
    requires
        size > 1 || before.items.len() == 0,
        emitted(before, size, response, encoded_len, sendings, after, accepted),
        accepted,
    ensures
        sent_events(log + sendings) + all_events(after.items) == sent_events(log) + all_events(
            before.items,
        ) + events(response),
{
    lemma_all_events_push(before.items, response);
    lemma_all_events_push(Seq::empty(), response);
    let kept = joined(before, encoded_len).items;
    let crowded = is_crowded(before, encoded_len);
    reveal_with_fuel(sent_events, 3);
    assert(all_events(Seq::<ParseWarcResponse>::empty()) =~= Seq::<ResponseKind>::empty());
    if sendings.len() == 0 {
        assert(log + sendings =~= log);
    } else {
        assert((log + sendings).drop_last() =~= log + sendings.drop_last());
        assert((log + sendings).last() == sendings.last());
        if size > 1 {
            if crowded {
                lemma_carries_events(sendings[0].message, before.items);
            }
            if sendings.len() == 1 {
                assert(log + sendings.drop_last() =~= log);
                if !crowded {
                    lemma_carries_events(sendings[0].message, kept.push(response));
                }
            } else {
                assert((log + sendings.drop_last()).drop_last() =~= log);
                lemma_carries_events(sendings[1].message, kept.push(response));
            }
        } else {
            assert(log + sendings.drop_last() =~= log);
        }
    }
    assert(sent_events(log + sendings) + all_events(after.items) =~= sent_events(log) + all_events(
        before.items,
    ) + events(response));
}

/// Appending one response appends its events.
proof fn lemma_all_events_push(items: Seq<ParseWarcResponse>, response: ParseWarcResponse)
    ensures
        all_events(items.push(response)) == all_events(items) + events(response),
{
    assert(items.push(response).drop_last() =~= items);
}

/// An emission that was refused loses nothing but the end: what has been handed
/// to the channel, followed by what waits, is what it was before, followed by
/// the new response's events or by nothing.
pub proof fn law_refusal_keeps_order(
    log: Seq<Sending>,
    before: Waiting,
    size: nat,
    response: ParseWarcResponse,
    encoded_len: nat,
    sendings: Seq<Sending>,
    after: Waiting,
)
    requires
        size > 1 || before.items.len() == 0,
        emitted(before, size, response, encoded_len, sendings, after, false),
    ensures
        ({
            let now = sent_events(log + sendings) + all_events(after.items);
            let earlier = sent_events(log) + all_events(before.items);
            now == earlier || now == earlier + events(response)
        }),
{
    let now = sent_events(log + sendings) + all_events(after.items);
    let earlier = sent_events(log) + all_events(before.items);
    let crowded = is_crowded(before, encoded_len);
    reveal_with_fuel(sent_events, 3);
    assert(all_events(Seq::<ParseWarcResponse>::empty()) =~= Seq::<ResponseKind>::empty());
    if size > 1 && crowded && !sendings[0].delivered {
        lemma_carries_events(sendings[0].message, before.items);
        assert((log + sendings).drop_last() =~= log);
        assert(now =~= earlier);
    } else {
        let taken = Sending { delivered: true, ..sendings.last() };
        let delivered = sendings.drop_last().push(taken);
        law_emission_keeps_order(
            log,
            before,
            size,
            response,
            encoded_len,
            delivered,
            after,
            true,
        );
        assert((log + sendings).drop_last() =~= (log + delivered).drop_last());
        assert(sent_events(log + sendings) =~= sent_events(log + delivered));
    }
}

/// Several events share a message only where they fit the threshold together:
/// an emission that sends the new response in company sends no more than the
/// threshold, and a response that exceeds it by itself travels alone.
pub proof fn law_shared_messages_stay_small(
    before: Waiting,
    size: nat,
    response: ParseWarcResponse,
    encoded_len: nat,
    sendings: Seq<Sending>,
    after: Waiting,
)
    requires
        size > 1,
        before.items.len() > 0 ==> before.bytes > 0,
        emitted(before, size, response, encoded_len, sendings, after, true),
    ensures
        joined(before, encoded_len).items.len() > 0 ==> joined(before, encoded_len).bytes + item_len(
            encoded_len,
        ) <= MAX_BATCH_BYTES,
        item_len(encoded_len) >= MAX_BATCH_BYTES ==> sendings.len() > 0 && sendings.last().message
            == response,
{
}

/// The size of a response as an item of a batch is the length of its encoding
/// there, to the byte: the key of field 1 with the length-delimited wire type, the
/// length, and the encoded response. Only what no `usize` can count is cut off.
pub proof fn law_item_len_is_the_encoded_length(body: Seq<u8>)
    ensures
        ({
            let item = seq![0x0au8] + varint(body.len()) + body;
            &&& item.len() == field_len(body.len())
            &&& item.len() <= usize::MAX ==> item_len(body.len()) == item.len()
            &&& item.len() > usize::MAX ==> item_len(body.len()) == usize::MAX
            &&& body.len() <= usize::MAX ==> item_len(body.len()) >= body.len()
        }),
        ITEM_TAG * 8 + 2 == 0x0a,
        MAX_BATCH_BYTES == 2 * 1024 * 1024,
{
    lemma_varint_len(body.len());
}

/// A longer response is never a smaller item.
pub proof fn law_item_len_grows(shorter: nat, longer: nat)
    requires
        shorter <= longer,
    ensures
        item_len(shorter) <= item_len(longer),
{
    crate::wire::lemma_varint_len_monotonic(shorter, longer);
}

/// A message carries its responses and nothing else: a single one is the message
/// itself, and several are the items of a batch, in order.
pub proof fn law_message_is_its_responses(
    message: ParseWarcResponse,
    items: Seq<ParseWarcResponse>,
)
    requires
        carries(message, items),
    ensures
        items.len() == 1 ==> message == items[0],
        items.len() != 1 ==> (message.kind matches Some(ResponseKind::Batch(batch))
            && batch.items@.len() == items.len() && (forall|i: int|
            0 <= i < items.len() ==> #[trigger] batch.items@[i] == items[i])),
{
}

/// The messages that a channel took, in order.
pub open spec fn taken(exchanges: Seq<ResponseExchange>) -> Seq<Result<ParseWarcResponse, Status>> {
    exchanges.filter_map(
        |exchange: ResponseExchange|
            match exchange {
                Exchange::Tried { message, answer: TrySend::Sent } => Some(message),
                Exchange::Waited { message, taken: true } => Some(message),
                _ => None,
            },
    )
}

/// Where every message was delivered, the messages of the log are those that the
/// channel took.
pub proof fn law_log_is_what_the_channel_took(exchanges: Seq<ResponseExchange>)
    requires
        are_statusless(exchanges),
        all_delivered(sendings(exchanges)),
    ensures
        taken(exchanges).len() == sendings(exchanges).len(),
        forall|i: int|
            0 <= i < sendings(exchanges).len() ==> #[trigger] taken(exchanges)[i] == Ok::<
                ParseWarcResponse,
                Status,
            >(sendings(exchanges)[i].message),
    decreases exchanges.len(),
{
    reveal(Seq::filter_map);
    if exchanges.len() > 0 {
        let earlier = exchanges.drop_last();
        let log = sendings(exchanges);
        assert forall|i: int| 0 <= i < earlier.len() implies is_statusless(#[trigger] earlier[i]) by {
            assert(is_statusless(exchanges[i]));
        }
        assert(is_statusless(exchanges[exchanges.len() - 1]));
        let before = sendings(earlier);
        assert(before.len() <= log.len());
        assert forall|i: int| 0 <= i < before.len() implies (#[trigger] before[i]).delivered by {
            assert(log[i] == before[i]);
            assert(log[i].delivered);
        }
        law_log_is_what_the_channel_took(earlier);
        if log.len() > before.len() {
            assert(log[log.len() - 1].delivered);
        }
        assert forall|i: int| 0 <= i < log.len() implies #[trigger] taken(exchanges)[i] == Ok::<
            ParseWarcResponse,
            Status,
        >(log[i].message) by {
            if i < before.len() {
                assert(taken(earlier)[i] == Ok::<ParseWarcResponse, Status>(before[i].message));
            }
        }
    }
}

/// A refusal is the channel's own: it said that it is closed, or it did not take a
/// message.
pub proof fn law_refusal_is_the_channels_own(exchanges: Seq<ResponseExchange>)
    requires
        has_refused(exchanges),
    ensures
        exists|i: int|
            0 <= i < exchanges.len() && match #[trigger] exchanges[i] {
                Exchange::Asked { closed } => closed,
                Exchange::Tried { message: _, answer } => answer is Closed,
                Exchange::Waited { message: _, taken } => !taken,
            },
{
    let log = sendings(exchanges);
    if exists|i: int| 0 <= i < log.len() && !(#[trigger] log[i]).delivered {
        let i = choose|i: int| 0 <= i < log.len() && !(#[trigger] log[i]).delivered;
        lemma_undelivered_was_refused(exchanges, i);
    } else {
        let i = choose|i: int|
            0 <= i < exchanges.len() && #[trigger] exchanges[i] == (Exchange::Asked::<
                Result<ParseWarcResponse, Status>,
            > { closed: true });
        assert(exchanges[i] == (Exchange::Asked::<Result<ParseWarcResponse, Status>> {
            closed: true,
        }));
    }
}

/// What was not delivered, the channel did not take.
proof fn lemma_undelivered_was_refused(exchanges: Seq<ResponseExchange>, i: int)
    requires
        0 <= i < sendings(exchanges).len(),
        !sendings(exchanges)[i].delivered,
    ensures
        exists|k: int|
            0 <= k < exchanges.len() && match #[trigger] exchanges[k] {
                Exchange::Asked { closed } => closed,
                Exchange::Tried { message: _, answer } => answer is Closed,
                Exchange::Waited { message: _, taken } => !taken,
            },
    decreases exchanges.len(),
{
    let earlier = exchanges.drop_last();
    if i < sendings(earlier).len() {
        assert(sendings(earlier)[i] == sendings(exchanges)[i]);
        lemma_undelivered_was_refused(earlier, i);
        let k = choose|k: int|
            0 <= k < earlier.len() && match #[trigger] earlier[k] {
                Exchange::Asked { closed } => closed,
                Exchange::Tried { message: _, answer } => answer is Closed,
                Exchange::Waited { message: _, taken } => !taken,
            };
        assert(exchanges[k] == earlier[k]);
    } else {
        let k = exchanges.len() - 1;
        assert(exchanges[k] == exchanges.last());
    }
}

/// Nothing waits that is due: after an emission fewer responses wait than fill a
/// batch, and they are smaller than the threshold. Where a batch is one response,
/// none waits at all. A response is accepted exactly where every message that went
/// out for it was delivered.
pub proof fn law_nothing_waits_that_is_due(
    before: Waiting,
    size: nat,
    response: ParseWarcResponse,
    encoded_len: nat,
    sendings: Seq<Sending>,
    after: Waiting,
    accepted: bool,
)
    requires
        before.items.len() == 0 || before.items.len() < size,
        before.bytes < 2 * 1024 * 1024,
        emitted(before, size, response, encoded_len, sendings, after, accepted),
    ensures
        after.items.len() == 0 || after.items.len() < size,
        after.bytes < 2 * 1024 * 1024,
        size <= 1 ==> sendings.len() == 1 && sendings[0].message == response,
        sendings.len() <= 2,
        accepted <==> (forall|i: int| 0 <= i < sendings.len() ==> (#[trigger] sendings[i]).delivered),
{
}

/// An emission first asks the channel whether it is closed. If it is, nothing is
/// handed over and the response is not accepted.
pub proof fn law_closed_channel_gets_nothing<'a>(
    before: BatchEmitter<'a>,
    after: BatchEmitter<'a>,
    response: ParseWarcResponse,
    encoded_len: nat,
    accepted: bool,
)
    requires
        after.has_emitted(before, response, encoded_len, accepted),
    ensures
        ({
            let asked = before.exchanges().len() as int;
            &&& before.exchanges().len() < after.exchanges().len()
            &&& after.exchanges().take(asked) == before.exchanges()
            &&& after.exchanges()[asked] is Asked
            &&& after.exchanges()[asked]->closed ==> {
                &&& !accepted
                &&& after.exchanges().len() == asked + 1
                &&& after.waiting() == before.waiting()
            }
        }),
{
}

/// A flush leaves nothing waiting and loses nothing: all that waited goes out in one
/// message, a single response as it is, and it is accepted exactly where the channel
/// took that message. Where nothing waited, it is accepted exactly where the channel
/// says that it is open.
pub proof fn law_flush_sends_all_that_waits<'a>(
    before: BatchEmitter<'a>,
    after: BatchEmitter<'a>,
    accepted: bool,
)
    requires
        after.has_flushed(before, accepted),
    ensures
        after.waiting().items.len() == 0,
        after.waiting().bytes == 0,
        before.waiting().items.len() == 0 ==> after.log() == before.log() && after.exchanges().len()
            == before.exchanges().len() + 1 && (after.exchanges().last() matches Exchange::Asked {
            closed,
        } && closed == !accepted),
        before.waiting().items.len() > 0 ==> {
            let sent = after.log().last();
            &&& after.log() == before.log().push(sent)
            &&& events(sent.message) == all_events(before.waiting().items)
            &&& before.waiting().items.len() == 1 ==> sent.message == before.waiting().items[0]
            &&& accepted == sent.delivered
        },
        sent_events(after.log()) == sent_events(before.log()) + all_events(before.waiting().items),
{
    if before.waiting().items.len() > 0 {
        let sent = after.log().last();
        lemma_carries_events(sent.message, before.waiting().items);
        assert(after.log() =~= before.log().push(sent));
    } else {
        assert(all_events(before.waiting().items) =~= Seq::<ResponseKind>::empty());
        assert(sent_events(before.log()) + all_events(before.waiting().items) =~= sent_events(
            before.log(),
        ));
    }
}

} // verus!
