//! Blocking reader over the client's chunk channel.

use prost::bytes::Bytes;
use tokio::sync::mpsc::Receiver;
use vstd::prelude::*;

use crate::buffers::{bytes_advance, bytes_from_vec, bytes_len, bytes_new, bytes_seq, bytes_slice};
use crate::channel::Inlet;

verus! {

/// Prefix length required by compression detection.
pub const MAGIC_LEN: usize = 4;

/// A position to seek to.
#[derive(Clone, Copy, Debug, PartialEq, Eq, Structural)]
pub enum Position {
    /// This many bytes from the start of the stream.
    Start(u64),
    /// This many bytes from the end of the stream.
    End(i64),
    /// This many bytes from where the reader stands.
    Current(i64),
}

/// The answer to a seek that would move the reader: streamed input does not
/// support repositioning.
#[derive(Clone, Copy, Debug, PartialEq, Eq, Structural)]
pub struct Unsupported;

/// Whether a seek to `target` leaves a reader at `pos` where it is.
pub open spec fn stays(pos: u64, target: Position) -> bool {
    target == Position::Current(0) || target == Position::Start(pos)
}

/// Whether this is the answer to a seek of a reader at `pos`.
pub open spec fn is_seek(pos: u64, target: Position, result: Result<u64, Unsupported>) -> bool {
    result == if stays(pos, target) {
        Ok::<u64, Unsupported>(pos)
    } else {
        Err(Unsupported)
    }
}

/// Answers a seek on a stream that cannot be repositioned: only the current
/// position is accepted.
pub fn seek_in_place(pos: u64, target: Position) -> (result: Result<u64, Unsupported>)
    ensures
        is_seek(pos, target, result),
{
    match target {
        Position::Current(offset) => {
            if offset == 0 {
                return Ok(pos);
            }
        },
        Position::Start(start) => {
            if start == pos {
                return Ok(pos);
            }
        },
        Position::End(_) => {},
    }
    Err(Unsupported)
}

/// The bytes of consecutive chunks, in order.
pub open spec fn stream(chunks: Seq<Bytes>) -> Seq<u8>
    decreases chunks.len(),
{
    if chunks.len() == 0 {
        Seq::empty()
    } else {
        stream(chunks.drop_last()) + bytes_seq(chunks.last())
    }
}

/// The bytes of the chunks that a channel delivered, in order. A missing reply
/// means that the channel was closed when it was asked.
pub open spec fn delivered(replies: Seq<Option<Bytes>>) -> Seq<u8>
    decreases replies.len(),
{
    if replies.len() == 0 {
        Seq::empty()
    } else {
        delivered(replies.drop_last()) + match replies.last() {
            Some(chunk) => bytes_seq(chunk),
            None => Seq::empty(),
        }
    }
}

/// Whether a channel that takes these chunks and is then closed gives these
/// replies: the chunks in order, as far as it was asked, and nothing after them.
pub open spec fn replies_of(sent: Seq<Bytes>, replies: Seq<Option<Bytes>>) -> bool {
    forall|k: int|
        0 <= k < replies.len() ==> #[trigger] replies[k] == if k < sent.len() {
            Some(sent[k])
        } else {
            None
        }
}

/// Whether a reader at `pos` with this window must ask for another chunk: when
/// the window is empty, and at the start of the stream as long as the window is
/// too short for compression detection.
pub open spec fn wants_chunk(window: Seq<u8>, pos: nat) -> bool {
    window.len() == 0 || (pos == 0 && window.len() < MAGIC_LEN)
}

/// Whether a reader asks for these replies one by one: only as long as more is
/// wanted, and never again once the channel is closed.
pub open spec fn asks(window: Seq<u8>, pos: nat, replies: Seq<Option<Bytes>>) -> bool {
    &&& forall|k: int|
        0 <= k < replies.len() ==> #[trigger] wants_chunk(window + delivered(replies.take(k)), pos)
    &&& forall|k: int| 0 <= k < replies.len() - 1 ==> #[trigger] replies[k] is Some
}

/// Whether these replies are the ones that filling this window takes: chunks
/// as long as more is wanted, or until the channel is closed.
pub open spec fn fills(window: Seq<u8>, pos: nat, replies: Seq<Option<Bytes>>) -> bool {
    &&& asks(window, pos, replies)
    &&& !wants_chunk(window + delivered(replies), pos) || (replies.len() > 0 && replies.last() is None)
}

/// Puts a chunk behind a window.
pub fn join(window: Bytes, chunk: Bytes) -> (joined: Bytes)
    ensures
        bytes_seq(joined) == bytes_seq(window) + bytes_seq(chunk),
{
    if bytes_len(&window) == 0 {
        assert(bytes_seq(window) + bytes_seq(chunk) =~= bytes_seq(chunk));
        return chunk;
    }
    let mut head: Vec<u8> = Vec::new();
    head.extend_from_slice(bytes_slice(&window));
    head.extend_from_slice(bytes_slice(&chunk));
    assert(head@ =~= bytes_seq(window) + bytes_seq(chunk));
    bytes_from_vec(head)
}

/// Blocking reader over input chunks. A closed channel signals the end of
/// input. Tracks consumed bytes for position queries; repositioning is
/// unsupported.
pub struct ChannelReader {
    inlet: Inlet<Bytes>,
    current: Bytes,
    pos: u64,
    consumed: Ghost<Seq<u8>>,
}

impl ChannelReader {
    /// The bytes that can be read without waiting.
    pub closed spec fn window(&self) -> Seq<u8> {
        bytes_seq(self.current)
    }

    /// The number of bytes consumed so far.
    pub closed spec fn pos(&self) -> u64 {
        self.pos
    }

    /// The bytes consumed so far.
    pub closed spec fn consumed(&self) -> Seq<u8> {
        self.consumed@
    }

    /// What the channel has replied so far.
    pub closed spec fn replies(&self) -> Seq<Option<Bytes>> {
        self.inlet.replies()
    }

    /// What was consumed, followed by the window, is what arrived, in order.
    pub open spec fn wf(&self) -> bool {
        &&& self.consumed().len() == self.pos()
        &&& self.consumed() + self.window() == delivered(self.replies())
    }

    /// Whether filling the window of `before` gives this reader: it has asked
    /// for what it takes, put it behind the window, and consumed nothing. A
    /// reader gives up after as many replies as a `u64` can count.
    pub open spec fn has_filled(&self, before: ChannelReader) -> bool {
        let asked = self.replies().skip(before.replies().len() as int);
        &&& self.wf()
        &&& self.pos() == before.pos()
        &&& self.consumed() == before.consumed()
        &&& self.replies() == before.replies() + asked
        &&& self.window() == before.window() + delivered(asked)
        &&& asks(before.window(), before.pos() as nat, asked)
        &&& asked.len() < u64::MAX ==> fills(before.window(), before.pos() as nat, asked)
    }

    /// Whether reading into a buffer with this much room turns `before` into
    /// this reader and gives these bytes: the front of the filled window, which
    /// is consumed. A buffer without room asks for nothing.
    pub open spec fn has_read(&self, before: ChannelReader, room: nat, bytes: Seq<u8>) -> bool {
        let asked = self.replies().skip(before.replies().len() as int);
        let filled = before.window() + delivered(asked);
        &&& self.wf()
        &&& self.replies() == before.replies() + asked
        &&& room == 0 ==> asked.len() == 0
        &&& room > 0 ==> asks(before.window(), before.pos() as nat, asked)
        &&& room > 0 && asked.len() < u64::MAX ==> fills(
            before.window(),
            before.pos() as nat,
            asked,
        )
        &&& bytes == filled.take(
            if filled.len() <= room {
                filled.len() as int
            } else {
                room as int
            },
        )
        &&& self.pos() == before.pos() + bytes.len()
        &&& self.consumed() == before.consumed() + bytes
        &&& self.window() == filled.skip(bytes.len() as int)
    }

    /// Whether advancing by `amount` turns `before` into this reader: so many
    /// bytes, but no more than are at hand, leave the window at its front.
    pub open spec fn has_consumed(&self, before: ChannelReader, amount: nat) -> bool {
        let count = if amount <= before.window().len() {
            amount as int
        } else {
            before.window().len() as int
        };
        &&& self.replies() == before.replies()
        &&& self.consumed() == before.consumed() + before.window().take(count)
        &&& self.window() == before.window().skip(count)
    }

    /// A reader that yields the bytes arriving on `rx` in order.
    pub fn new(rx: Receiver<Bytes>) -> (reader: Self)
        ensures
            reader.wf(),
            reader.pos() == 0,
            reader.window() == Seq::<u8>::empty(),
            reader.replies() == Seq::<Option<Bytes>>::empty(),
    {
        let reader = ChannelReader {
            inlet: Inlet::new(rx),
            current: bytes_new(),
            pos: 0,
            consumed: Ghost(Seq::empty()),
        };
        assert(reader.consumed() + reader.window() =~= delivered(reader.replies()));
        reader
    }

    /// Whether the window must grow before it is handed out.
    pub fn wants_input(&self) -> (wants: bool)
        ensures
            wants == wants_chunk(self.window(), self.pos() as nat),
    {
        let len: usize = bytes_len(&self.current);
        len == 0 || (self.pos == 0 && len < MAGIC_LEN)
    }

    /// The bytes that can be read now, waiting for input when there are none.
    /// Skips empty chunks and joins the first chunks until compression can be
    /// detected. Empty only after the input channel closes, or after more empty
    /// chunks than a `u64` can count.
    pub fn fill_buf(&mut self) -> (window: &[u8])
        requires
            old(self).wf(),
        ensures
            window@ == final(self).window(),
            final(self).has_filled(*old(self)),
    {
        self.fill();
        bytes_slice(&self.current)
    }

    /// Asks the channel for chunks until the window may be handed out.
    fn fill(&mut self)
        requires
            old(self).wf(),
        ensures
            final(self).has_filled(*old(self)),
    {
        let ghost mut asked: Seq<Option<Bytes>> = Seq::empty();
        proof {
            assert(self.replies() + asked =~= self.replies());
            assert(self.window() + delivered(asked) =~= self.window());
        }
        let mut more: bool = true;
        let mut left: u64 = u64::MAX;
        while more && left > 0 && self.wants_input()
            invariant
                self.wf(),
                self.pos() == old(self).pos(),
                self.consumed() == old(self).consumed(),
                self.replies() == old(self).replies() + asked,
                self.window() == old(self).window() + delivered(asked),
                asked.len() + left == u64::MAX,
                asks(old(self).window(), old(self).pos() as nat, asked),
                more ==> asked.len() == 0 || asked.last() is Some,
                !more ==> asked.len() > 0 && asked.last() is None,
            decreases left,
        {
            let ghost before = asked;
            let ghost earlier = self.replies();
            let reply: Option<Bytes> = self.inlet.blocking_recv();
            proof {
                asked = before.push(reply);
                assert(asked.drop_last() =~= before);
                assert(self.replies().drop_last() =~= earlier);
                assert(old(self).replies() + asked =~= (old(self).replies() + before).push(reply));
                assert forall|k: int| 0 <= k < asked.len() implies #[trigger] wants_chunk(
                    old(self).window() + delivered(asked.take(k)),
                    old(self).pos() as nat,
                ) by {
                    if k < before.len() {
                        assert(asked.take(k) =~= before.take(k));
                    } else {
                        assert(asked.take(k) =~= before);
                    }
                }
                assert forall|k: int| 0 <= k < asked.len() - 1 implies #[trigger] asked[k] is Some by {
                    assert(asked[k] == before[k]);
                }
            }
            match reply {
                Some(chunk) => {
                    let mut current: Bytes = bytes_new();
                    std::mem::swap(&mut current, &mut self.current);
                    self.current = join(current, chunk);
                },
                None => {
                    more = false;
                },
            }
            left = left - 1;
            proof {
                assert(self.window() =~= old(self).window() + delivered(asked));
                assert(self.consumed() + self.window() =~= delivered(self.replies()));
            }
        }
        assert(self.replies().skip(old(self).replies().len() as int) =~= asked);
    }

    /// Reads into `buf` from the buffered chunk, waiting for input when
    /// necessary. Answers the number of bytes read, zero at the end of input.
    /// An empty `buf` asks for nothing.
    pub fn read(&mut self, buf: &mut [u8]) -> (count: usize)
        requires
            old(self).wf(),
            old(self).pos() + old(buf)@.len() <= u64::MAX,
        ensures
            final(buf)@.len() == old(buf)@.len(),
            count <= old(buf)@.len(),
            final(buf)@.skip(count as int) == old(buf)@.skip(count as int),
            final(self).has_read(*old(self), old(buf)@.len(), final(buf)@.take(count as int)),
    {
        if buf.len() == 0 {
            proof {
                let none = Seq::<Option<Bytes>>::empty();
                assert(self.replies().skip(self.replies().len() as int) =~= none);
                assert(self.replies() + none =~= self.replies());
                assert((self.window() + delivered(none)).skip(0) =~= self.window());
                assert((self.window() + delivered(none)).take(0) =~= buf@.take(0));
                assert(self.consumed() + buf@.take(0) =~= self.consumed());
            }
            return 0;
        }
        self.fill();
        let ghost filled = self.window();
        let window: &[u8] = bytes_slice(&self.current);
        let count: usize = if window.len() <= buf.len() { window.len() } else { buf.len() };
        let mut i: usize = 0;
        while i < count
            invariant
                i <= count <= window@.len(),
                count <= old(buf)@.len(),
                buf@.len() == old(buf)@.len(),
                buf@.take(i as int) == window@.take(i as int),
                buf@.skip(i as int) == old(buf)@.skip(i as int),
            decreases count - i,
        {
            let ghost before = buf@;
            buf[i] = window[i];
            i = i + 1;
            proof {
                assert(buf@.take(i as int) =~= before.take(i - 1).push(window@[i - 1]));
                assert(window@.take(i as int) =~= window@.take(i - 1).push(window@[i - 1]));
                assert(buf@.skip(i as int) =~= before.skip(i - 1).skip(1));
                assert(old(buf)@.skip(i as int) =~= old(buf)@.skip(i - 1).skip(1));
            }
        }
        self.consume(count);
        assert(buf@.take(count as int) =~= filled.take(count as int));
        count
    }

    /// Advances by at most the number of buffered bytes.
    pub fn consume(&mut self, amount: usize)
        requires
            old(self).wf(),
            old(self).pos() + amount <= u64::MAX || old(self).pos() + old(self).window().len() <= u64::MAX,
        ensures
            final(self).wf(),
            final(self).has_consumed(*old(self), amount as nat),
    {
        let len: usize = bytes_len(&self.current);
        let count: usize = if amount <= len { amount } else { len };
        let ghost taken = self.window().take(count as int);
        bytes_advance(&mut self.current, count);
        self.pos = self.pos + count as u64;
        proof {
            self.consumed@ = self.consumed@ + taken;
            assert(self.consumed() + self.window() =~= old(self).consumed() + old(self).window());
        }
    }

    /// Accepts only seeks to the current position.
    pub fn seek(&self, target: Position) -> (result: Result<u64, Unsupported>)
        ensures
            is_seek(self.pos(), target, result),
    {
        seek_in_place(self.pos, target)
    }
}

/// What a reader hands out is what the channel delivered: the bytes consumed
/// so far are a prefix of the chunks put end to end, and the window goes on
/// where they stop.
pub proof fn law_reader_yields_the_stream(reader: ChannelReader)
    requires
        reader.wf(),
    ensures
        reader.consumed() == delivered(reader.replies()).take(reader.pos() as int),
        reader.window() == delivered(reader.replies()).skip(reader.pos() as int),
{
    assert(reader.consumed() =~= delivered(reader.replies()).take(reader.pos() as int));
    assert(reader.window() =~= delivered(reader.replies()).skip(reader.pos() as int));
}

/// At the start of a stream, a filled window is long enough for compression
/// detection unless the stream ended first.
pub proof fn law_stream_head_is_detectable(window: Seq<u8>, replies: Seq<Option<Bytes>>)
    requires
        fills(window, 0, replies),
    ensures
        (window + delivered(replies)).len() >= 4 || (replies.len() > 0 && replies.last() is None),
{
}

/// Two runs of chunks end to end are the bytes of both.
proof fn lemma_stream_add(a: Seq<Bytes>, b: Seq<Bytes>)
    ensures
        stream(a + b) == stream(a) + stream(b),
    decreases b.len(),
{
    if b.len() == 0 {
        assert(a + b =~= a);
        assert(stream(a) + stream(b) =~= stream(a));
    } else {
        lemma_stream_add(a, b.drop_last());
        assert((a + b).drop_last() =~= a + b.drop_last());
        assert(stream(a + b) =~= stream(a) + stream(b));
    }
}

/// What a channel has delivered is the bytes of the chunks that it took, as far
/// as it was asked.
proof fn lemma_delivered_is_sent(sent: Seq<Bytes>, replies: Seq<Option<Bytes>>)
    requires
        replies_of(sent, replies),
    ensures
        replies.len() < sent.len() ==> delivered(replies) == stream(
            sent.take(replies.len() as int),
        ),
        replies.len() >= sent.len() ==> delivered(replies) == stream(sent),
        delivered(replies).is_prefix_of(stream(sent)),
    decreases replies.len(),
{
    let n = if replies.len() < sent.len() {
        replies.len() as int
    } else {
        sent.len() as int
    };
    assert(sent.take(sent.len() as int) =~= sent);
    if replies.len() > 0 {
        let earlier = replies.drop_last();
        assert forall|k: int| 0 <= k < earlier.len() implies #[trigger] earlier[k] == if k
            < sent.len() {
            Some(sent[k])
        } else {
            None
        } by {
            assert(earlier[k] == replies[k]);
        }
        lemma_delivered_is_sent(sent, earlier);
        assert(replies.last() == replies[replies.len() - 1]);
        if replies.len() <= sent.len() {
            assert(sent.take(n).drop_last() =~= sent.take(n - 1));
            assert(delivered(replies) =~= stream(sent.take(n)));
        } else {
            assert(delivered(replies) =~= stream(sent));
        }
    } else {
        assert(sent.take(0) =~= Seq::<Bytes>::empty());
    }
    lemma_stream_add(sent.take(n), sent.skip(n));
    assert(sent.take(n) + sent.skip(n) =~= sent);
}

/// A run of replies to a channel's questions ends at the first missing chunk,
/// so it is no longer than the chunks and the end that follows them.
proof fn lemma_asked_is_bounded(
    sent: Seq<Bytes>,
    earlier: Seq<Option<Bytes>>,
    asked: Seq<Option<Bytes>>,
)
    requires
        replies_of(sent, earlier + asked),
        forall|k: int| 0 <= k < asked.len() - 1 ==> #[trigger] asked[k] is Some,
    ensures
        asked.len() <= sent.len() + 1,
        asked.len() > 0 && asked.last() is None ==> (earlier + asked).len() > sent.len(),
{
    let all = earlier + asked;
    if asked.len() > 1 {
        let k = asked.len() - 2;
        assert(asked[k] is Some);
        assert(all[earlier.len() + k] == asked[k]);
    }
    if asked.len() > 0 && asked.last() is None {
        assert(all[all.len() - 1] == asked.last());
    }
}

/// A filled window is a prefix of what the channel still has to give, and is
/// empty only where that is nothing. As long as nothing was consumed it is long
/// enough for compression detection, unless that is all there is.
///
/// `sent` are the chunks, some perhaps empty, that the sender sends before it is
/// dropped.
pub proof fn law_window_is_the_front_of_the_rest(
    sent: Seq<Bytes>,
    before: ChannelReader,
    after: ChannelReader,
)
    requires
        before.wf(),
        after.has_filled(before),
        replies_of(sent, after.replies()),
        sent.len() < u64::MAX - 1,
    ensures
        ({
            let rest = stream(sent).skip(before.pos() as int);
            &&& before.pos() <= stream(sent).len()
            &&& after.pos() == before.pos()
            &&& after.window().is_prefix_of(rest)
            &&& after.window().len() == 0 <==> rest.len() == 0
            &&& before.pos() == 0 ==> after.window().len() >= 4 || after.window() == rest
        }),
{
    let asked = after.replies().skip(before.replies().len() as int);
    let rest = stream(sent).skip(before.pos() as int);
    lemma_asked_is_bounded(sent, before.replies(), asked);
    lemma_delivered_is_sent(sent, after.replies());
    let got = delivered(after.replies());
    assert(got == stream(sent).take(got.len() as int));
    assert(after.window() =~= got.skip(after.pos() as int));
    assert(after.window() =~= rest.take(after.window().len() as int));
    if wants_chunk(after.window(), after.pos() as nat) {
        assert(after.window() =~= rest);
    }
}

/// Filling a window again, with nothing consumed in between, gives the same
/// bytes.
pub proof fn law_filling_twice_changes_nothing(
    sent: Seq<Bytes>,
    before: ChannelReader,
    first: ChannelReader,
    second: ChannelReader,
)
    requires
        before.wf(),
        first.has_filled(before),
        second.has_filled(first),
        replies_of(sent, second.replies()),
        sent.len() < u64::MAX - 1,
    ensures
        second.window() == first.window(),
        second.pos() == first.pos(),
{
    let earlier = first.replies();
    let asked = second.replies().skip(earlier.len() as int);
    assert forall|k: int| 0 <= k < earlier.len() implies #[trigger] earlier[k] == if k < sent.len() {
        Some(sent[k])
    } else {
        None
    } by {
        assert(earlier[k] == second.replies()[k]);
    }
    law_window_is_the_front_of_the_rest(sent, before, first);
    law_window_is_the_front_of_the_rest(sent, first, second);
    if asked.len() == 0 {
        assert(second.window() =~= first.window());
    } else {
        assert(asked.take(0) =~= Seq::<Option<Bytes>>::empty());
        assert(wants_chunk(first.window() + delivered(asked.take(0)), first.pos() as nat));
        assert(first.window() + delivered(asked.take(0)) =~= first.window());
        let rest = stream(sent).skip(first.pos() as int);
        assert(first.window() =~= rest);
        assert(second.window().len() >= first.window().len());
        assert(second.window() =~= rest);
    }
}

/// One read: how much room the buffer had, and the bytes that came.
pub struct Reading {
    /// Length of the buffer.
    pub room: nat,
    /// The bytes that were read into it.
    pub bytes: Seq<u8>,
}

/// The bytes of consecutive reads, in order.
pub open spec fn read_bytes(readings: Seq<Reading>) -> Seq<u8>
    decreases readings.len(),
{
    if readings.len() == 0 {
        Seq::empty()
    } else {
        read_bytes(readings.drop_last()) + readings.last().bytes
    }
}

/// Whether these reads lead through these readers: the first one is fresh, and
/// each read turns one into the next.
pub open spec fn reads_through(readers: Seq<ChannelReader>, readings: Seq<Reading>) -> bool {
    &&& readers.len() == readings.len() + 1
    &&& readers[0].wf()
    &&& readers[0].pos() == 0
    &&& forall|i: int|
        0 <= i < readings.len() ==> (#[trigger] readers[i + 1]).has_read(
            readers[i],
            readings[i].room,
            readings[i].bytes,
        )
}

/// What reads have consumed is what they gave.
proof fn lemma_reads_consume(readers: Seq<ChannelReader>, readings: Seq<Reading>)
    requires
        reads_through(readers, readings),
    ensures
        readers.last().wf(),
        readers.last().consumed() == read_bytes(readings),
    decreases readings.len(),
{
    if readings.len() == 0 {
        assert(readers.last().consumed() =~= read_bytes(readings));
    } else {
        let n = readings.len() - 1;
        let earlier = readers.drop_last();
        assert forall|i: int| 0 <= i < n implies (#[trigger] earlier[i + 1]).has_read(
            earlier[i],
            readings.drop_last()[i].room,
            readings.drop_last()[i].bytes,
        ) by {
            assert(readers[i + 1].has_read(readers[i], readings[i].room, readings[i].bytes));
        }
        lemma_reads_consume(earlier, readings.drop_last());
        assert(readers[n + 1].has_read(readers[n], readings[n].room, readings[n].bytes));
    }
}

/// However the bytes were cut into chunks, and whatever buffers they are read
/// into: what the reads give, put end to end, is a prefix of what was sent, and
/// the position is its length. Once a read into a buffer with room gives
/// nothing, it is all of what was sent.
///
/// `sent` are the chunks, some perhaps empty, that the sender sends before it is
/// dropped.
pub proof fn law_reads_give_what_was_sent(
    sent: Seq<Bytes>,
    readers: Seq<ChannelReader>,
    readings: Seq<Reading>,
)
    requires
        reads_through(readers, readings),
        replies_of(sent, readers.last().replies()),
        sent.len() < u64::MAX - 1,
    ensures
        read_bytes(readings).is_prefix_of(stream(sent)),
        readers.last().pos() == read_bytes(readings).len(),
        readings.len() > 0 && readings.last().room > 0 && readings.last().bytes.len() == 0
            ==> read_bytes(readings) == stream(sent),
{
    let last = readers.last();
    lemma_reads_consume(readers, readings);
    lemma_delivered_is_sent(sent, last.replies());
    let got = delivered(last.replies());
    assert(got == stream(sent).take(got.len() as int));
    assert(last.consumed() =~= got.take(last.pos() as int));
    assert(read_bytes(readings) =~= stream(sent).take(read_bytes(readings).len() as int));
    if readings.len() > 0 && readings.last().room > 0 && readings.last().bytes.len() == 0 {
        let n = readings.len() - 1;
        let before = readers[n];
        assert(readers[n + 1].has_read(before, readings[n].room, readings[n].bytes));
        let asked = last.replies().skip(before.replies().len() as int);
        lemma_asked_is_bounded(sent, before.replies(), asked);
        assert((before.window() + delivered(asked)).len() == 0);
        assert(last.window() =~= Seq::<u8>::empty());
        assert(last.consumed() =~= stream(sent));
    }
}

/// A reader waits only when it must: with bytes at hand it asks for nothing, but
/// for the first four of a stream; every chunk that it asks for is needed; and it
/// comes back with nothing only where the channel is closed.
pub proof fn law_reader_waits_only_when_it_must(before: ChannelReader, after: ChannelReader)
    requires
        after.has_filled(before),
    ensures
        ({
            let asked = after.replies().skip(before.replies().len() as int);
            let short = before.window() + delivered(asked.drop_last());
            &&& before.window().len() > 0 && (before.pos() > 0 || before.window().len() >= 4)
                ==> asked.len() == 0 && after.window() == before.window()
            &&& asked.len() > 0 ==> short.len() == 0 || (before.pos() == 0 && short.len() < 4)
            &&& after.window().len() == 0 && asked.len() < u64::MAX ==> asked.len() > 0
                && asked.last() is None
            &&& before.window().is_prefix_of(after.window())
        }),
{
    let asked = after.replies().skip(before.replies().len() as int);
    assert(asked.take(0) =~= Seq::<Option<Bytes>>::empty());
    assert(before.window() + delivered(asked.take(0)) =~= before.window());
    if asked.len() > 0 {
        assert(wants_chunk(before.window() + delivered(asked.take(0)), before.pos() as nat));
        let last = asked.len() - 1;
        assert(asked.take(last) =~= asked.drop_last());
        assert(wants_chunk(before.window() + delivered(asked.take(last)), before.pos() as nat));
    } else {
        assert(asked =~= asked.take(0));
    }
}

/// A read takes as much as fits: the bytes that it gives, followed by what stays at
/// hand, are what was at hand before, followed by what arrived; it leaves something
/// only where the buffer is full; and the position moves by what was given.
pub proof fn law_read_takes_as_much_as_fits(
    before: ChannelReader,
    after: ChannelReader,
    room: nat,
    bytes: Seq<u8>,
)
    requires
        after.has_read(before, room, bytes),
    ensures
        ({
            let asked = after.replies().skip(before.replies().len() as int);
            &&& bytes + after.window() == before.window() + delivered(asked)
            &&& bytes.len() <= room
            &&& bytes.len() < room ==> after.window().len() == 0
            &&& after.pos() == before.pos() + bytes.len()
            &&& after.consumed() == before.consumed() + bytes
            &&& room == 0 ==> after.replies() == before.replies()
        }),
{
    let asked = after.replies().skip(before.replies().len() as int);
    assert(bytes + after.window() =~= before.window() + delivered(asked));
    if room == 0 {
        assert(before.replies() + asked =~= before.replies());
    }
}

/// A seek is accepted exactly where it stays: to the position of the reader from
/// the start, or by nothing from where it stands; never from the end.
pub proof fn law_only_staying_is_accepted(
    pos: u64,
    start: u64,
    offset: i64,
    target: Position,
    result: Result<u64, Unsupported>,
)
    requires
        is_seek(pos, target, result),
    ensures
        result is Ok <==> target == Position::Start(pos) || target == Position::Current(0),
        result matches Ok(position) ==> position == pos,
        stays(pos, Position::Start(start)) <==> start == pos,
        stays(pos, Position::Current(offset)) <==> offset == 0,
        !stays(pos, Position::End(offset)),
{
}

/// The bytes of chunks are theirs put end to end.
pub proof fn law_stream_is_the_chunks_end_to_end(chunks: Seq<Bytes>)
    ensures
        stream(chunks) == Seq::new(chunks.len(), |i: int| bytes_seq(chunks[i])).flatten(),
    decreases chunks.len(),
{
    let contents = Seq::new(chunks.len(), |i: int| bytes_seq(chunks[i]));
    if chunks.len() == 0 {
        assert(stream(chunks) =~= contents.flatten());
    } else {
        let earlier = chunks.drop_last();
        law_stream_is_the_chunks_end_to_end(earlier);
        let fewer = Seq::new(earlier.len(), |i: int| bytes_seq(earlier[i]));
        assert(fewer.push(bytes_seq(chunks.last())) =~= contents);
        fewer.lemma_flatten_push(bytes_seq(chunks.last()));
    }
}

/// What a channel delivered is its chunks put end to end, and a missing one adds
/// nothing.
pub proof fn law_delivered_is_the_chunks_end_to_end(replies: Seq<Option<Bytes>>)
    ensures
        delivered(replies) == Seq::new(
            replies.len(),
            |i: int|
                match replies[i] {
                    Some(chunk) => bytes_seq(chunk),
                    None => Seq::empty(),
                },
        ).flatten(),
    decreases replies.len(),
{
    let contents = Seq::new(
        replies.len(),
        |i: int|
            match replies[i] {
                Some(chunk) => bytes_seq(chunk),
                None => Seq::empty(),
            },
    );
    if replies.len() == 0 {
        assert(delivered(replies) =~= contents.flatten());
    } else {
        let earlier = replies.drop_last();
        law_delivered_is_the_chunks_end_to_end(earlier);
        let fewer = Seq::new(
            earlier.len(),
            |i: int|
                match earlier[i] {
                    Some(chunk) => bytes_seq(chunk),
                    None => Seq::empty(),
                },
        );
        assert(fewer.push(contents.last()) =~= contents);
        fewer.lemma_flatten_push(contents.last());
    }
}

/// Advancing moves the position by what was asked for, or to the end of what is at
/// hand where that is less; the bytes in between are consumed, the rest stays at
/// hand, and nothing is asked of the channel.
pub proof fn law_advancing_moves_the_position(
    before: ChannelReader,
    after: ChannelReader,
    amount: nat,
)
    requires
        before.wf(),
        after.wf(),
        after.has_consumed(before, amount),
    ensures
        amount <= before.window().len() ==> after.pos() == before.pos() + amount,
        amount > before.window().len() ==> after.pos() == before.pos() + before.window().len(),
        after.consumed() + after.window() == before.consumed() + before.window(),
        after.replies() == before.replies(),
{
    assert(after.consumed() + after.window() =~= before.consumed() + before.window());
}

} // verus!
