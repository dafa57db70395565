//! One run of the parser: its responses go out in batches, and what still waits
//! at the end is flushed.

use vstd::prelude::*;

use crate::batch::{BatchEmitter, ResponseExchange, ResponseSender, Sending};
use crate::channel::{Exchange, Outlet};
use crate::grouping::{responses, Emission};
use crate::message::{ParseWarcResponse, RecordError, ResponseKind};
use crate::status::Status;
use crate::warc_service::OpenFailure;
use crate::{batch, grouping, message};

verus! {

/// What the parser makes of its input.
pub enum ParserOutput {
    /// These responses, in order.
    Responses(Vec<Emission>),
    /// Nothing: the input is refused with this status.
    Refused(Status),
}

/// What a local file that cannot be opened makes of a run: a refusal, or a
/// single unrecoverable error of the first record. `error_len` and `encoded_len`
/// are the lengths of the encodings of that error and of the response that
/// carries it.
pub fn failed_open(failure: OpenFailure, error_len: usize, encoded_len: usize) -> (output:
    ParserOutput)
    ensures
        match failure {
            OpenFailure::Refuse(status) => output == ParserOutput::Refused(status),
            OpenFailure::Report(text) => {
                &&& output matches ParserOutput::Responses(emissions)
                &&& emissions@ == seq![
                    Emission { response: open_error(text, error_len), encoded_len },
                ]
            },
        },
        failure matches OpenFailure::Report(text) ==> {
            &&& output matches ParserOutput::Responses(emissions)
            &&& emissions@.len() == 1
            &&& emissions@[0].encoded_len == encoded_len
            &&& emissions@[0].response.kind matches Some(ResponseKind::RecordError(error))
            &&& error.record_index == 0
            &&& !error.recoverable
            &&& error.message@ == text@
            &&& error.encoded_len == error_len
        },
{
    match failure {
        OpenFailure::Refuse(status) => ParserOutput::Refused(status),
        OpenFailure::Report(message) => {
            let error = RecordError {
                record_index: 0,
                recoverable: false,
                message,
                encoded_len: error_len,
            };
            let response = ParseWarcResponse { kind: Some(ResponseKind::RecordError(error)) };
            let mut emissions: Vec<Emission> = Vec::new();
            emissions.push(Emission { response, encoded_len });
            assert(emissions@ =~= seq![Emission { response, encoded_len }]);
            ParserOutput::Responses(emissions)
        },
    }
}

/// The response that reports a local file that cannot be opened.
pub open spec fn open_error(message: String, error_len: usize) -> ParseWarcResponse {
    ParseWarcResponse {
        kind: Some(
            ResponseKind::RecordError(
                RecordError { record_index: 0, recoverable: false, message, encoded_len: error_len },
            ),
        ),
    }
}

/// What became of a run.
pub struct ParserRun<'a> {
    /// Whether nothing was turned away: the channel was never found closed ahead
    /// of a response, and took every message.
    pub complete: bool,
    /// The outlet to the response channel, with what was said through it.
    pub outlet: Outlet<'a, Result<ParseWarcResponse, Status>>,
}

/// Whether the messages in the log carry the first responses, and all of them
/// where that is asked for: in order and without gaps, a message for each group
/// of them, where `size` responses fill a batch.
pub open spec fn hands_over(
    log: Seq<Sending>,
    all: Seq<Emission>,
    size: nat,
    complete: bool,
) -> bool {
    exists|groups: Seq<Seq<Emission>>|
        {
            &&& #[trigger] grouping::carry_groups(log, groups)
            &&& grouping::well_grouped(groups, size)
            &&& grouping::ungrouped(groups).is_prefix_of(all)
            &&& complete ==> grouping::ungrouped(groups) == all
        }
}

/// Whether a run over these responses has these exchanges with the channel and
/// this answer.
///
/// Only responses are handed over, the first ones in order and without gaps. The
/// run is complete unless the channel turned something away, and then all of
/// them were taken. Without responses nothing is handed over, and a single one
/// goes out as it is.
pub open spec fn has_run(
    exchanges: Seq<ResponseExchange>,
    all: Seq<Emission>,
    size: nat,
    complete: bool,
) -> bool {
    let log = batch::sendings(exchanges);
    &&& batch::are_statusless(exchanges)
    &&& hands_over(log, all, size, complete)
    &&& complete ==> batch::all_delivered(log)
    &&& !complete ==> batch::has_refused(exchanges)
    &&& all.len() == 0 ==> complete && log.len() == 0
    &&& all.len() == 1 && complete ==> log == seq![
        Sending { message: all[0].response, delivered: true },
    ]
}

/// A run of the parser that goes on: its responses are emitted one by one, and
/// what still waits at the end is flushed. Once one is not accepted, the run has
/// stopped, and no later one is.
pub struct ResponseRun<'a> {
    emitter: BatchEmitter<'a>,
    stopped: bool,
    emitted: Ghost<Seq<Emission>>,
    groups: Ghost<Seq<Seq<Emission>>>,
    pending: Ghost<Seq<Emission>>,
}

impl<'a> ResponseRun<'a> {
    /// The emitter that batches the responses.
    pub closed spec fn emitter(&self) -> BatchEmitter<'a> {
        self.emitter
    }

    /// Whether a response was not accepted.
    pub closed spec fn stopped(&self) -> bool {
        self.stopped
    }

    /// The responses that were emitted so far, accepted or not.
    pub closed spec fn emitted(&self) -> Seq<Emission> {
        self.emitted@
    }

    /// What was handed over, followed by what waits, is what was emitted, up to
    /// where the run stopped. It stops only where the channel turned something
    /// away.
    pub closed spec fn wf(&self) -> bool {
        let so_far = grouping::ungrouped(self.groups@) + self.pending@;
        let size = self.emitter.size();
        &&& self.emitter.wf()
        &&& grouping::waits(self.emitter.waiting(), self.pending@)
        &&& grouping::in_progress(self.emitter.log(), self.groups@, self.pending@, size)
        &&& so_far.is_prefix_of(self.emitted@)
        &&& !self.stopped ==> {
            &&& so_far == self.emitted@
            &&& grouping::is_settled(self.groups@, self.pending@, size)
            &&& batch::all_delivered(self.emitter.log())
        }
        &&& self.stopped ==> self.emitted@.len() > 0 && batch::has_refused(
            self.emitter.exchanges(),
        )
    }

    /// A run that has emitted nothing. It groups `batch_size` responses per
    /// message on `response_tx`; one or none disables batching.
    pub fn new(response_tx: &'a ResponseSender, batch_size: usize) -> (run: Self)
        ensures
            run.wf(),
            run.emitter().channel() == *response_tx,
            run.emitter().size() == batch_size,
            run.emitter().exchanges() == Seq::<ResponseExchange>::empty(),
            run.emitter().waiting() == batch::nothing_waits(),
            run.emitted() == Seq::<Emission>::empty(),
            !run.stopped(),
    {
        let run = ResponseRun {
            emitter: BatchEmitter::new(response_tx, batch_size),
            stopped: false,
            emitted: Ghost(Seq::empty()),
            groups: Ghost(Seq::empty()),
            pending: Ghost(Seq::empty()),
        };
        proof {
            let none = Seq::<Emission>::empty();
            assert(responses(none) =~= Seq::<ParseWarcResponse>::empty());
            assert(grouping::ungrouped(run.groups@) + none =~= none);
        }
        run
    }

    /// Emits a response whose encoding is `encoded_len` bytes long. Answers
    /// `false` once the response channel is closed.
    pub fn emit(&mut self, response: ParseWarcResponse, encoded_len: usize) -> (accepted: bool)
        requires
            old(self).wf(),
        ensures
            final(self).wf(),
            final(self).emitted() == old(self).emitted().push(Emission { response, encoded_len }),
            final(self).stopped() == !accepted,
            old(self).stopped() ==> !accepted && final(self).emitter() == old(self).emitter(),
            !old(self).stopped() ==> final(self).emitter().has_emitted(
                old(self).emitter(),
                response,
                encoded_len as nat,
                accepted,
            ),
    {
        let ghost emission = Emission { response, encoded_len };
        let ghost all = self.emitted@.push(emission);
        let ghost so_far = grouping::ungrouped(self.groups@) + self.pending@;
        assert(so_far.is_prefix_of(all));
        if self.stopped {
            self.emitted = Ghost(all);
            return false;
        }
        let ghost before = self.emitter;
        let ghost log = before.log();
        proof {
            before.lemma_what_waits_fills_no_batch();
        }
        let accepted: bool = self.emitter.emit(response, encoded_len);
        self.stopped = !accepted;
        self.emitted = Ghost(all);
        proof {
            let exchanges = self.emitter.exchanges();
            let asked = exchanges[before.exchanges().len() as int];
            if asked->closed {
                assert(batch::has_refused(exchanges));
            } else {
                let sendings = self.emitter.log().skip(log.len() as int);
                let (groups, pending) = grouping::lemma_emission_groups(
                    log,
                    self.groups@,
                    self.pending@,
                    before.waiting(),
                    before.size(),
                    emission,
                    sendings,
                    self.emitter.waiting(),
                    accepted,
                );
                self.groups@ = groups;
                self.pending@ = pending;
                if accepted {
                    assert forall|i: int| 0 <= i < self.emitter.log().len() implies (
                    #[trigger] self.emitter.log()[i]).delivered by {
                        if i < log.len() {
                            assert(log[i].delivered);
                        } else {
                            assert(sendings[i - log.len()].delivered);
                        }
                    }
                } else {
                    let last = self.emitter.log().len() - 1;
                    assert(!batch::sendings(exchanges)[last].delivered);
                    assert(batch::has_refused(exchanges));
                }
            }
        }
        accepted
    }

    /// Flushes what still waits, and ends the run.
    pub fn finish(self) -> (run: ParserRun<'a>)
        requires
            self.wf(),
        ensures
            run.outlet.channel() == self.emitter().channel(),
            self.emitter().exchanges().is_prefix_of(run.outlet.exchanges()),
            has_run(
                run.outlet.exchanges(),
                self.emitted(),
                self.emitter().size(),
                run.complete,
            ),
    {
        let ghost groups = self.groups@;
        let ghost pending = self.pending@;
        let ghost all = self.emitted@;
        let stopped: bool = self.stopped;
        let mut emitter: BatchEmitter<'a> = self.emitter;
        let ghost size = emitter.size();
        let ghost log = emitter.log();
        let ghost earlier = emitter.exchanges();
        let idle: bool = emitter.is_idle();
        let flushed: bool = emitter.flush();
        let complete: bool = !stopped && (idle || flushed);
        proof {
            let sent = grouping::with_pending(groups, pending);
            assert(responses(pending).len() == pending.len());
            if idle {
                assert(grouping::ungrouped(groups) + pending =~= grouping::ungrouped(sent));
            } else {
                let last = emitter.log().last();
                grouping::lemma_carry_one_more(log, groups, last, pending);
                assert(emitter.log() =~= log.push(last));
            }
            assert(grouping::carry_groups(emitter.log(), sent));
            grouping::lemma_few_responses(emitter.log(), sent, size);
            emitter.lemma_what_waits_fills_no_batch();
            if !complete {
                lemma_refusal_lasts(earlier, emitter.exchanges());
                if !stopped {
                    let last = emitter.log().len() - 1;
                    assert(!batch::sendings(emitter.exchanges())[last].delivered);
                }
            }
            if all.len() == 1 && complete {
                assert(emitter.log()[0].delivered);
                assert(emitter.log() =~= seq![
                    Sending { message: all[0].response, delivered: true },
                ]);
            }
        }
        ParserRun { complete, outlet: emitter.into_outlet() }
    }
}

/// Whether the client is answered by these exchanges: with the responses of a run, or
/// with the status of a refused input alone.
pub open spec fn has_answered(
    output: ParserOutput,
    exchanges: Seq<ResponseExchange>,
    size: nat,
    complete: bool,
) -> bool {
    match output {
        ParserOutput::Responses(emissions) => has_run(exchanges, emissions@, size, complete),
        ParserOutput::Refused(status) => exchanges == seq![
            Exchange::Waited {
                message: Err::<ParseWarcResponse, Status>(status),
                taken: complete,
            },
        ],
    }
}

/// Sends what the parser makes of its input, in batches of `batch_size`, and
/// flushes the last batch. It gives up on the first response that the channel
/// does not accept, and still flushes. A refused input is answered with its
/// status alone.
///
/// Whether the channel accepts is the client's doing.
pub fn run_parser<'a>(output: ParserOutput, response_tx: &'a ResponseSender, batch_size: usize) -> (run:
    ParserRun<'a>)
    ensures
        run.outlet.channel() == *response_tx,
        has_answered(output, run.outlet.exchanges(), batch_size as nat, run.complete),
{
    let emissions: Vec<Emission> = match output {
        ParserOutput::Responses(emissions) => emissions,
        ParserOutput::Refused(status) => {
            let mut outlet: Outlet<Result<ParseWarcResponse, Status>> = Outlet::new(response_tx);
            let taken: bool = outlet.blocking_send(Err(status));
            assert(outlet.exchanges() =~= seq![Exchange::Waited { message: Err(status), taken }]);
            return ParserRun { complete: taken, outlet };
        },
    };
    let ghost all = emissions@;
    let mut run: ResponseRun<'a> = ResponseRun::new(response_tx, batch_size);
    for emission in it: emissions
        invariant
            it.seq() == all,
            run.wf(),
            run.emitter().size() == batch_size,
            run.emitter().channel() == *response_tx,
            run.emitted() == all.take(it.index() as int),
    {
        let ghost k = it.index() as int;
        assert(emission == all[k]);
        assert(all.take(k + 1) =~= all.take(k).push(all[k]));
        let _accepted: bool = run.emit(emission.response, emission.encoded_len);
    }
    assert(all.take(all.len() as int) =~= all);
    run.finish()
}

/// What a channel has turned away stays so.
proof fn lemma_refusal_lasts(earlier: Seq<ResponseExchange>, exchanges: Seq<ResponseExchange>)
    requires
        earlier.is_prefix_of(exchanges),
        batch::sendings(earlier).is_prefix_of(batch::sendings(exchanges)),
    ensures
        batch::has_refused(earlier) ==> batch::has_refused(exchanges),
{
    let log = batch::sendings(earlier);
    if exists|i: int| 0 <= i < log.len() && !(#[trigger] log[i]).delivered {
        let i = choose|i: int| 0 <= i < log.len() && !(#[trigger] log[i]).delivered;
        assert(batch::sendings(exchanges)[i] == log[i]);
    } else if batch::has_refused(earlier) {
        let i = choose|i: int|
            0 <= i < earlier.len() && #[trigger] earlier[i] == (Exchange::Asked::<
                Result<ParseWarcResponse, Status>,
            > { closed: true });
        assert(exchanges[i] == earlier[i]);
    }
}

/// The groups of a run.
proof fn lemma_run_has_groups(
    exchanges: Seq<ResponseExchange>,
    all: Seq<Emission>,
    size: nat,
    complete: bool,
) -> (groups: Seq<Seq<Emission>>)
    requires
        has_run(exchanges, all, size, complete),
    ensures
        grouping::carry_groups(batch::sendings(exchanges), groups),
        grouping::well_grouped(groups, size),
        grouping::ungrouped(groups).is_prefix_of(all),
        complete ==> grouping::ungrouped(groups) == all,
{
    choose|groups: Seq<Seq<Emission>>|
        {
            &&& #[trigger] grouping::carry_groups(batch::sendings(exchanges), groups)
            &&& grouping::well_grouped(groups, size)
            &&& grouping::ungrouped(groups).is_prefix_of(all)
            &&& complete ==> grouping::ungrouped(groups) == all
        }
}

/// As long as the channel turns nothing away, the client gets everything: every
/// message is taken, nothing but responses is sent, and with batches opened up
/// they are the parser's events, all of them and in order.
pub proof fn law_open_channel_gets_every_event(
    exchanges: Seq<ResponseExchange>,
    all: Seq<Emission>,
    size: nat,
    complete: bool,
)
    requires
        has_run(exchanges, all, size, complete),
        !batch::has_refused(exchanges),
    ensures
        complete,
        batch::are_statusless(exchanges),
        batch::all_delivered(batch::sendings(exchanges)),
        batch::sent_events(batch::sendings(exchanges)) == message::all_events(responses(all)),
{
    law_complete_run_sends_every_event(exchanges, all, size);
}

/// A complete run has sent the parser's events, all of them and in order.
pub proof fn law_complete_run_sends_every_event(
    exchanges: Seq<ResponseExchange>,
    all: Seq<Emission>,
    size: nat,
)
    requires
        has_run(exchanges, all, size, true),
    ensures
        batch::all_delivered(batch::sendings(exchanges)),
        batch::sent_events(batch::sendings(exchanges)) == message::all_events(responses(all)),
{
    let groups = lemma_run_has_groups(exchanges, all, size, true);
    grouping::lemma_groups_carry_events(batch::sendings(exchanges), groups);
}

/// A single response goes out as it is, in one message: as long as the channel
/// turns nothing away, a run over one response sends exactly that.
pub proof fn law_single_response_goes_out_unwrapped(
    exchanges: Seq<ResponseExchange>,
    emission: Emission,
    size: nat,
    complete: bool,
)
    requires
        has_run(exchanges, seq![emission], size, complete),
        !batch::has_refused(exchanges),
    ensures
        batch::are_statusless(exchanges),
        batch::sendings(exchanges) == seq![
            Sending { message: emission.response, delivered: true },
        ],
{
}

/// The batch size changes how events are grouped, and nothing else: two
/// complete runs over the same responses send the same events.
pub proof fn law_batch_size_changes_no_event(
    exchanges: Seq<ResponseExchange>,
    others: Seq<ResponseExchange>,
    all: Seq<Emission>,
    size: nat,
    other_size: nat,
)
    requires
        has_run(exchanges, all, size, true),
        has_run(others, all, other_size, true),
    ensures
        batch::sent_events(batch::sendings(exchanges)) == batch::sent_events(
            batch::sendings(others),
        ),
{
    law_complete_run_sends_every_event(exchanges, all, size);
    law_complete_run_sends_every_event(others, all, other_size);
}

/// Whatever the channel does, the events that were handed to it are those of
/// the first responses, in order and without gaps.
pub proof fn law_run_keeps_order(
    exchanges: Seq<ResponseExchange>,
    all: Seq<Emission>,
    size: nat,
    complete: bool,
)
    requires
        has_run(exchanges, all, size, complete),
    ensures
        batch::sent_events(batch::sendings(exchanges)).is_prefix_of(message::all_events(responses(all))),
{
    let groups = lemma_run_has_groups(exchanges, all, size, complete);
    let sent = grouping::ungrouped(groups);
    grouping::lemma_groups_carry_events(batch::sendings(exchanges), groups);
    let rest = all.skip(sent.len() as int);
    assert(responses(all) =~= responses(sent) + responses(rest));
    message::lemma_all_events_add(responses(sent), responses(rest));
}

/// Several responses share a message only where they fit the threshold together
/// and are no more than fill a batch: whatever the channel does, each message of
/// a run carries a single response as it is, or a batch within both limits.
pub proof fn law_shared_messages_of_a_run_stay_small(
    exchanges: Seq<ResponseExchange>,
    all: Seq<Emission>,
    size: nat,
    complete: bool,
    i: int,
)
    requires
        has_run(exchanges, all, size, complete),
        0 <= i < batch::sendings(exchanges).len(),
    ensures
        exists|group: Seq<Emission>|
            {
                &&& #[trigger] batch::carries(
                    batch::sendings(exchanges)[i].message,
                    responses(group),
                )
                &&& group.len() == 1 || (1 < group.len() <= size && grouping::items_len(group)
                    <= batch::MAX_BATCH_BYTES)
            },
{
    let groups = lemma_run_has_groups(exchanges, all, size, complete);
    assert(batch::carries(batch::sendings(exchanges)[i].message, responses(groups[i])));
    assert(grouping::fits_message(groups[i], size));
}

/// A complete run has handed every response to the channel, which took them all,
/// in order, in batches that are as large as they may be and no larger.
pub proof fn law_complete_run_delivers_in_large_batches(
    exchanges: Seq<ResponseExchange>,
    all: Seq<Emission>,
    size: nat,
) -> (groups: Seq<Seq<Emission>>)
    requires
        has_run(exchanges, all, size, true),
    ensures
        groups.flatten() == all,
        batch::taken(exchanges).len() == groups.len(),
        forall|i: int|
            0 <= i < groups.len() ==> {
                &&& batch::taken(exchanges)[i] matches Ok(message)
                &&& grouping::is_message_of(message, #[trigger] groups[i])
                &&& grouping::is_as_large_as_may_be(groups, i, size)
            },
{
    let log = batch::sendings(exchanges);
    let groups = lemma_run_has_groups(exchanges, all, size, true);
    grouping::law_batches_are_as_large_as_they_may_be(log, groups, size);
    batch::law_log_is_what_the_channel_took(exchanges);
    assert forall|i: int| 0 <= i < groups.len() implies {
        &&& batch::taken(exchanges)[i] matches Ok(message)
        &&& grouping::is_message_of(message, #[trigger] groups[i])
        &&& grouping::is_as_large_as_may_be(groups, i, size)
    } by {
        assert(batch::taken(exchanges)[i] == Ok::<ParseWarcResponse, Status>(log[i].message));
    }
    groups
}

/// A run that is not complete was turned away by the channel, which said that it
/// is closed or did not take a message. Whatever the channel did, the messages that
/// it was given carry the first responses in order, in batches that are as large as
/// they may be and no larger.
pub proof fn law_incomplete_run_was_turned_away(
    exchanges: Seq<ResponseExchange>,
    all: Seq<Emission>,
    size: nat,
) -> (groups: Seq<Seq<Emission>>)
    requires
        has_run(exchanges, all, size, false),
    ensures
        exists|i: int|
            0 <= i < exchanges.len() && match #[trigger] exchanges[i] {
                Exchange::Asked { closed } => closed,
                Exchange::Tried { message: _, answer } => answer is Closed,
                Exchange::Waited { message: _, taken } => !taken,
            },
        groups.flatten().is_prefix_of(all),
        batch::sendings(exchanges).len() == groups.len(),
        forall|i: int|
            0 <= i < groups.len() ==> {
                &&& grouping::is_message_of(
                    batch::sendings(exchanges)[i].message,
                    #[trigger] groups[i],
                )
                &&& grouping::is_as_large_as_may_be(groups, i, size)
            },
{
    batch::law_refusal_is_the_channels_own(exchanges);
    let groups = lemma_run_has_groups(exchanges, all, size, false);
    grouping::law_batches_are_as_large_as_they_may_be(batch::sendings(exchanges), groups, size);
    groups
}

/// A refused input is answered with its status and with nothing else: the channel is
/// given that status once, and it is all that the client gets where the channel takes
/// it. The responses of any other input are the run over them.
pub proof fn law_refused_input_is_answered_with_its_status(
    output: ParserOutput,
    exchanges: Seq<ResponseExchange>,
    size: nat,
    complete: bool,
)
    requires
        has_answered(output, exchanges, size, complete),
    ensures
        output matches ParserOutput::Refused(status) ==> {
            &&& exchanges.len() == 1
            &&& exchanges[0] matches Exchange::Waited { message: Err(given), taken }
            &&& given == status
            &&& taken == complete
            &&& complete ==> batch::taken(exchanges) == seq![
                Err::<ParseWarcResponse, Status>(status),
            ]
            &&& !complete ==> batch::taken(exchanges).len() == 0
        },
        output matches ParserOutput::Responses(emissions) ==> has_run(
            exchanges,
            emissions@,
            size,
            complete,
        ),
{
    if let ParserOutput::Refused(status) = output {
        reveal_with_fuel(Seq::filter_map, 3);
        assert(exchanges.drop_last() =~= Seq::<ResponseExchange>::empty());
        if complete {
            assert(batch::taken(exchanges) =~= seq![Err::<ParseWarcResponse, Status>(status)]);
        }
    }
}

/// A file that cannot be opened makes one item and no more, whatever the batch size:
/// where it is kept out of reach, the denial; and otherwise one error that is not
/// recoverable, by itself.
pub proof fn law_failed_open_is_one_item(
    exchanges: Seq<ResponseExchange>,
    emission: Emission,
    size: nat,
)
    requires
        has_run(exchanges, seq![emission], size, true),
    ensures
        batch::taken(exchanges).len() == 1,
        batch::taken(exchanges)[0] == Ok::<ParseWarcResponse, Status>(emission.response),
{
    batch::law_log_is_what_the_channel_took(exchanges);
    assert(batch::taken(exchanges)[0] == Ok::<ParseWarcResponse, Status>(
        batch::sendings(exchanges)[0].message,
    ));
}

} // verus!
