//! What the body of a raw `ParseWarc` call comes to, however it is cut into DATA
//! frames.
//!
//! A body is read step by step: its frames are queued, complete messages are
//! taken off the queue, decoded and judged, until it ends or fails. The laws in
//! this file say that the outcome is that of the messages in the body's bytes.

use prost::bytes::Bytes;
use vstd::prelude::*;

use crate::buffers::bytes_seq;
use crate::config::Limits;
use crate::grpc_frame::{front, leftover, messages, pops, pushes, Front};
use crate::message::{ParseWarcConfig, ParseWarcRequest, RequestKind};
use crate::raw_service::{
    chunk_messages, codec_session, decides, ended, ending, pump_reaction, pump_reaction_of, raw_session,
    state_after, PumpAction, PumpReaction, PumpState, RequestPump, Session,
};
use crate::status::{Code, Status};
use crate::warc_service::Refusal;
use crate::wire::HEADER_LEN;
use crate::{grpc_frame, raw_service, warc_service, wire};

verus! {

/// One step of reading a body.
pub enum BodyStep {
    /// A frame is queued.
    Frame(Bytes),
    /// A message is taken off the queue, decoded and judged.
    Message {
        /// The message.
        body: Bytes,
        /// What decoding it came to.
        decoded: Result<ParseWarcRequest, String>,
        /// What is done about it.
        action: PumpAction,
    },
    /// No complete message is queued.
    Wait,
    /// What is queued is no message that may be taken.
    Broken(Status),
}

/// What decides on the messages of a body.
pub struct Rules {
    /// The directory for local files, if any is served.
    pub root: Option<Seq<char>>,
    /// The sizes that are accepted.
    pub limits: Limits,
    /// The longest message that is accepted.
    pub max: nat,
}

/// Whether a step turns one pump into the other.
pub open spec fn leads_to(
    rules: Rules,
    before: RequestPump,
    step: BodyStep,
    after: RequestPump,
) -> bool {
    match step {
        BodyStep::Frame(data) => {
            &&& pushes(before.queued(), bytes_seq(data), after.queued())
            &&& after.state() == before.state()
        },
        BodyStep::Message { body, decoded, action } => {
            &&& pops(before.queued(), rules.max, Ok(Some(body)), after.queued())
            &&& decides(rules.root, rules.limits, before.state(), decoded, action, after.state())
        },
        BodyStep::Wait => {
            &&& pops(before.queued(), rules.max, Ok(None), after.queued())
            &&& after.state() == before.state()
        },
        BodyStep::Broken(status) => {
            &&& pops(before.queued(), rules.max, Err(status), after.queued())
            &&& after.state() == before.state()
        },
    }
}

/// Whether these steps lead through these pumps.
pub open spec fn lead_through(
    rules: Rules,
    pumps: Seq<RequestPump>,
    steps: Seq<BodyStep>,
) -> bool {
    &&& pumps.len() == steps.len() + 1
    &&& forall|i: int|
        0 <= i < steps.len() ==> leads_to(rules, pumps[i], steps[i], #[trigger] pumps[i + 1])
}

/// Whether a step ends the call.
pub open spec fn fails(step: BodyStep) -> bool {
    match step {
        BodyStep::Message { action, .. } => action is Fail,
        BodyStep::Broken(_) => true,
        _ => false,
    }
}

/// Whether reading is over: the last step failed, with whatever is left of the
/// body unread, or all of it was read and no complete message is queued.
pub open spec fn is_over(
    rules: Rules,
    steps: Seq<BodyStep>,
    last: RequestPump,
    unread: Seq<u8>,
) -> bool {
    ||| steps.len() > 0 && fails(steps.last())
    ||| unread.len() == 0 && front(last.queued(), rules.max) is Incomplete
}

/// The bytes of the frames that were queued, in order.
pub open spec fn queued_bytes(steps: Seq<BodyStep>) -> Seq<u8>
    decreases steps.len(),
{
    if steps.len() == 0 {
        Seq::empty()
    } else {
        (match steps[0] {
            BodyStep::Frame(data) => bytes_seq(data),
            _ => Seq::empty(),
        }) + queued_bytes(steps.drop_first())
    }
}

/// Whether the messages that were taken were decoded to these results, in order.
pub open spec fn decode_to(
    steps: Seq<BodyStep>,
    results: Seq<Result<ParseWarcRequest, String>>,
) -> bool
    decreases steps.len(),
{
    if steps.len() == 0 {
        true
    } else {
        match steps[0] {
            BodyStep::Message { decoded, .. } => {
                &&& results.len() > 0
                &&& decoded == results[0]
                &&& decode_to(steps.drop_first(), results.drop_first())
            },
            _ => decode_to(steps.drop_first(), results),
        }
    }
}

/// What the steps came to, where the pump is in this state after the last.
pub open spec fn outcome(steps: Seq<BodyStep>, last: PumpState) -> Session
    decreases steps.len(),
{
    if steps.len() == 0 {
        ended(
            match ending(last) {
                Some(refusal) => Some(refusal.code),
                None => None,
            },
        )
    } else {
        let rest = outcome(steps.drop_first(), last);
        match steps[0] {
            BodyStep::Message { action, .. } => match pump_reaction_of(action) {
                PumpReaction::Start(path, config) => Session {
                    start: Some((path, config)),
                    ..rest
                },
                PumpReaction::Forward(chunk) => Session {
                    chunks: seq![chunk] + rest.chunks,
                    ..rest
                },
                PumpReaction::Ignore => rest,
                PumpReaction::Fail(refusal) => ended(Some(refusal.code)),
            },
            BodyStep::Broken(status) => ended(Some(status.code)),
            _ => rest,
        }
    }
}

/// The code of the failure that the front of a stream is, if it is one.
pub open spec fn fault(stream: Seq<u8>, max: nat) -> Option<Code> {
    match front(stream, max) {
        Front::Compressed => Some(Code::InvalidArgument),
        Front::TooLong(_) => Some(Code::OutOfRange),
        _ => None,
    }
}

/// What a body comes to, by what decoding its messages comes to and by the
/// fault, if any, of what follows them.
pub open spec fn body_session(
    rules: Rules,
    state: PumpState,
    results: Seq<Result<ParseWarcRequest, String>>,
    fault: Option<Code>,
) -> Session
    decreases results.len(),
{
    if results.len() == 0 {
        ended(
            if fault is Some {
                fault
            } else if state == PumpState::AwaitingConfig {
                Some(Code::InvalidArgument)
            } else {
                None
            },
        )
    } else {
        match results[0] {
            Err(_) => ended(Some(Code::InvalidArgument)),
            Ok(request) => {
                let reaction = pump_reaction(rules.root, rules.limits, state, request);
                let rest = body_session(
                    rules,
                    state_after(state, reaction),
                    results.drop_first(),
                    fault,
                );
                match reaction {
                    PumpReaction::Start(path, config) => Session {
                        start: Some((path, config)),
                        ..rest
                    },
                    PumpReaction::Forward(chunk) => Session {
                        chunks: seq![chunk] + rest.chunks,
                        ..rest
                    },
                    PumpReaction::Ignore => rest,
                    PumpReaction::Fail(refusal) => ended(Some(refusal.code)),
                }
            },
        }
    }
}

/// What steps from a pump on come to is what the messages in the bytes that are
/// queued, or still to come, come to.
proof fn lemma_outcome_from(
    rules: Rules,
    pumps: Seq<RequestPump>,
    steps: Seq<BodyStep>,
    unread: Seq<u8>,
    results: Seq<Result<ParseWarcRequest, String>>,
)
    requires
        lead_through(rules, pumps, steps),
        is_over(rules, steps, pumps.last(), unread),
        decode_to(steps, results),
        results.len() == messages(
            pumps[0].queued() + queued_bytes(steps) + unread,
            rules.max,
        ).len(),
    ensures
        outcome(steps, pumps.last().state()) == body_session(
            rules,
            pumps[0].state(),
            results,
            fault(
                leftover(pumps[0].queued() + queued_bytes(steps) + unread, rules.max),
                rules.max,
            ),
        ),
    decreases steps.len(),
{
    let queued = pumps[0].queued();
    let stream = queued + queued_bytes(steps) + unread;
    if steps.len() == 0 {
        assert(stream =~= queued);
    } else {
        let step = steps[0];
        let rest = steps.drop_first();
        let later = pumps.drop_first();
        let first: int = 0;
        assert(leads_to(rules, pumps[first], steps[first], pumps[first + 1]));
        assert forall|i: int| 0 <= i < rest.len() implies leads_to(
            rules,
            later[i],
            rest[i],
            #[trigger] later[i + 1],
        ) by {
            assert(leads_to(rules, pumps[i + 1], steps[i + 1], pumps[(i + 1) + 1]));
        }
        assert(rest.len() > 0 ==> rest.last() == steps.last());
        let more = queued_bytes(rest) + unread;
        let following = later[0].queued() + queued_bytes(rest) + unread;
        match step {
            BodyStep::Frame(data) => {
                assert(following =~= stream);
                lemma_outcome_from(rules, later, rest, unread, results);
            },
            BodyStep::Wait => {
                assert(queued_bytes(steps) =~= queued_bytes(rest));
                assert(following =~= stream);
                lemma_outcome_from(rules, later, rest, unread, results);
            },
            BodyStep::Broken(status) => {
                assert(queued_bytes(steps) =~= queued_bytes(rest));
                assert(stream =~= queued + more);
                grpc_frame::law_front_is_final(queued, more, rules.max);
            },
            BodyStep::Message { body, decoded, action } => {
                assert(queued_bytes(steps) =~= queued_bytes(rest));
                assert(stream =~= queued + more);
                grpc_frame::law_front_is_final(queued, more, rules.max);
                let taken = (HEADER_LEN + bytes_seq(body).len()) as int;
                assert(front(queued, rules.max) == Front::Message(bytes_seq(body)));
                assert(queued.len() >= taken);
                assert(stream.skip(taken) =~= following);
                assert(messages(stream, rules.max).len() == 1 + messages(
                    following,
                    rules.max,
                ).len());
                if !fails(step) {
                    lemma_outcome_from(rules, later, rest, unread, results.drop_first());
                }
            },
        }
    }
}

/// A body comes to the same, however it is cut into frames and whenever its
/// messages are taken off: to what its messages come to, in order, and to the
/// fault, if any, of what follows them. Nothing behind a failure counts.
///
/// `results` are what decoding the messages in the bytes of the body comes to.
pub proof fn law_body_is_judged_by_its_messages(
    rules: Rules,
    pumps: Seq<RequestPump>,
    steps: Seq<BodyStep>,
    unread: Seq<u8>,
    results: Seq<Result<ParseWarcRequest, String>>,
)
    requires
        lead_through(rules, pumps, steps),
        pumps[0].queued() == Seq::<u8>::empty(),
        pumps[0].state() == PumpState::AwaitingConfig,
        is_over(rules, steps, pumps.last(), unread),
        decode_to(steps, results),
        results.len() == messages(queued_bytes(steps) + unread, rules.max).len(),
    ensures
        outcome(steps, pumps.last().state()) == body_session(
            rules,
            PumpState::AwaitingConfig,
            results,
            fault(leftover(queued_bytes(steps) + unread, rules.max), rules.max),
        ),
{
    assert(pumps[0].queued() + queued_bytes(steps) + unread =~= queued_bytes(steps) + unread);
    lemma_outcome_from(rules, pumps, steps, unread, results);
}

/// Messages that can be decoded, as decoding gives them.
pub open spec fn decodable(requests: Seq<ParseWarcRequest>) -> Seq<
    Result<ParseWarcRequest, String>,
> {
    requests.map_values(|request: ParseWarcRequest| Ok::<ParseWarcRequest, String>(request))
}

/// A body of nothing but messages that can be decoded is the session of those.
proof fn lemma_decodable_body(rules: Rules, state: PumpState, requests: Seq<ParseWarcRequest>)
    ensures
        body_session(rules, state, decodable(requests), None) == raw_session(
            rules.root,
            rules.limits,
            state,
            requests,
        ),
    decreases requests.len(),
{
    if requests.len() > 0 {
        let reaction = pump_reaction(rules.root, rules.limits, state, requests[0]);
        lemma_decodable_body(rules, state_after(state, reaction), requests.drop_first());
        assert(decodable(requests).drop_first() =~= decodable(requests.drop_first()));
    }
}

/// Nothing follows the messages of a body that is made of messages.
proof fn lemma_nothing_follows(bodies: Seq<Seq<u8>>, max: nat)
    requires
        forall|i: int|
            0 <= i < bodies.len() ==> (#[trigger] bodies[i]).len() <= max && bodies[i].len()
                <= u32::MAX,
    ensures
        leftover(wire::frames(bodies), max) == Seq::<u8>::empty(),
    decreases bodies.len(),
{
    if bodies.len() > 0 {
        let rest = bodies.drop_first();
        assert forall|i: int| 0 <= i < rest.len() implies (#[trigger] rest[i]).len() <= max
            && rest[i].len() <= u32::MAX by {
            assert(rest[i] == bodies[i + 1]);
        }
        lemma_nothing_follows(rest, max);
        grpc_frame::law_message_survives_framing(bodies[0], wire::frames(rest), max);
    }
}

/// The raw route gives what the codec route gives, from the bytes of the body on:
/// where they are encoded messages within the limit, then for every cut of them
/// into frames the outcome is the codec route's session of those messages.
pub proof fn law_raw_body_mirrors_codec_route(
    rules: Rules,
    pumps: Seq<RequestPump>,
    steps: Seq<BodyStep>,
    unread: Seq<u8>,
    bodies: Seq<Seq<u8>>,
    requests: Seq<ParseWarcRequest>,
)
    requires
        lead_through(rules, pumps, steps),
        pumps[0].queued() == Seq::<u8>::empty(),
        pumps[0].state() == PumpState::AwaitingConfig,
        is_over(rules, steps, pumps.last(), unread),
        queued_bytes(steps) + unread == wire::frames(bodies),
        forall|i: int|
            0 <= i < bodies.len() ==> (#[trigger] bodies[i]).len() <= rules.max
                && bodies[i].len() <= u32::MAX,
        requests.len() == bodies.len(),
        decode_to(steps, decodable(requests)),
    ensures
        outcome(steps, pumps.last().state()) == raw_session(
            rules.root,
            rules.limits,
            PumpState::AwaitingConfig,
            requests,
        ),
        outcome(steps, pumps.last().state()) == codec_session(rules.root, rules.limits, requests),
{
    grpc_frame::lemma_messages_of_frames(bodies, rules.max);
    lemma_nothing_follows(bodies, rules.max);
    law_body_is_judged_by_its_messages(rules, pumps, steps, unread, decodable(requests));
    lemma_decodable_body(rules, PumpState::AwaitingConfig, requests);
    raw_service::law_raw_route_mirrors_codec_route(rules.root, rules.limits, requests);
}

/// An upload reaches the parser, from the bytes of the body on: where they are an
/// accepted configuration without a path and chunks, then for every cut of them
/// into frames the parser is started, handed every chunk in order, and nothing
/// fails.
pub proof fn law_uploaded_body_is_forwarded(
    rules: Rules,
    pumps: Seq<RequestPump>,
    steps: Seq<BodyStep>,
    unread: Seq<u8>,
    bodies: Seq<Seq<u8>>,
    config: ParseWarcConfig,
    chunks: Seq<Bytes>,
)
    requires
        warc_service::planned(rules.root, rules.limits, config) == Ok::<
            Option<Seq<char>>,
            Refusal,
        >(None),
        lead_through(rules, pumps, steps),
        pumps[0].queued() == Seq::<u8>::empty(),
        pumps[0].state() == PumpState::AwaitingConfig,
        is_over(rules, steps, pumps.last(), unread),
        queued_bytes(steps) + unread == wire::frames(bodies),
        forall|i: int|
            0 <= i < bodies.len() ==> (#[trigger] bodies[i]).len() <= rules.max
                && bodies[i].len() <= u32::MAX,
        bodies.len() == 1 + chunks.len(),
        decode_to(
            steps,
            decodable(
                seq![ParseWarcRequest { kind: Some(RequestKind::Config(config)) }]
                    + chunk_messages(chunks),
            ),
        ),
    ensures
        outcome(steps, pumps.last().state()) == (Session {
            start: Some((None, config)),
            chunks,
            failure: None,
        }),
{
    let requests = seq![ParseWarcRequest { kind: Some(RequestKind::Config(config)) }]
        + chunk_messages(chunks);
    law_raw_body_mirrors_codec_route(rules, pumps, steps, unread, bodies, requests);
    raw_service::law_upload_is_forwarded(rules.root, rules.limits, config, chunks);
}

/// Two readings of the same bytes, cut differently, come to the same.
pub proof fn law_cut_does_not_matter(
    rules: Rules,
    pumps: Seq<RequestPump>,
    steps: Seq<BodyStep>,
    unread: Seq<u8>,
    other_pumps: Seq<RequestPump>,
    other_steps: Seq<BodyStep>,
    other_unread: Seq<u8>,
    results: Seq<Result<ParseWarcRequest, String>>,
)
    requires
        lead_through(rules, pumps, steps),
        pumps[0].queued() == Seq::<u8>::empty(),
        pumps[0].state() == PumpState::AwaitingConfig,
        is_over(rules, steps, pumps.last(), unread),
        decode_to(steps, results),
        lead_through(rules, other_pumps, other_steps),
        other_pumps[0].queued() == Seq::<u8>::empty(),
        other_pumps[0].state() == PumpState::AwaitingConfig,
        is_over(rules, other_steps, other_pumps.last(), other_unread),
        decode_to(other_steps, results),
        queued_bytes(steps) + unread == queued_bytes(other_steps) + other_unread,
        results.len() == messages(queued_bytes(steps) + unread, rules.max).len(),
    ensures
        outcome(steps, pumps.last().state()) == outcome(
            other_steps,
            other_pumps.last().state(),
        ),
{
    law_body_is_judged_by_its_messages(rules, pumps, steps, unread, results);
    law_body_is_judged_by_its_messages(rules, other_pumps, other_steps, other_unread, results);
}

} // verus!
