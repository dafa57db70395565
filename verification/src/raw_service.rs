//! The `ParseWarc` route that splits request messages off the HTTP/2 body by
//! reference and frames responses itself.
//!
//! The route serves the same contract as the one behind the message codec:
//! [`RequestPump`] makes the same protocol checks, and [`ResponseBody`] ends a
//! stream of framed messages with one status.

use prost::bytes::{Bytes, BytesMut};
use vstd::prelude::*;
use vstd::string::StringExecFns;

use crate::buffers::bytes_mut_new;
use crate::config::Limits;
use crate::grpc_frame::{encode_message_into, MessageSplitter};
use crate::message::{ParseWarcConfig, ParseWarcRequest, RequestKind};
use crate::status::{Code, Status};
use crate::text::same_text;
use crate::warc_service::{ParsePlan, ParserInput, Reaction, Refusal, WarcParser};
use crate::wire::HEADER_LEN;
use crate::{buffers, grpc_frame, warc_service, wire};

verus! {

/// The service wrapper that serves `ParseWarc` without the message codec.
pub struct RawWarcService {
    parser: WarcParser,
}

/// Which server answers a call.
#[derive(Clone, Copy, Debug, PartialEq, Eq, Structural)]
pub enum Route {
    /// This one.
    Raw,
    /// The generated one.
    Generated,
}

/// The HTTP path of the `ParseWarc` method.
pub open spec fn parse_warc_path() -> Seq<char> {
    "/fastwarc.v1.WarcService/ParseWarc"@
}

impl RawWarcService {
    /// The parser behind both servers.
    pub closed spec fn served(&self) -> WarcParser {
        self.parser
    }

    /// Wraps a [`WarcParser`]; `ParseWarc` runs on the raw route, everything
    /// else on the generated server.
    #[must_use]
    pub fn new(parser: WarcParser) -> (service: Self)
        ensures
            service.served() == parser,
    {
        RawWarcService { parser }
    }

    /// The parser that the raw route asks.
    pub fn parser(&self) -> (parser: &WarcParser)
        ensures
            *parser == self.served(),
    {
        &self.parser
    }

    /// Chooses the server for a call by its HTTP path.
    pub fn route(&self, path: &str) -> (route: Route)
        ensures
            route == if path@ == parse_warc_path() {
                Route::Raw
            } else {
                Route::Generated
            },
            route == Route::Raw <==> path@ == "/fastwarc.v1.WarcService/ParseWarc"@,
    {
        if same_text(path, "/fastwarc.v1.WarcService/ParseWarc") {
            Route::Raw
        } else {
            Route::Generated
        }
    }
}

/// How far a request stream has come.
#[derive(Clone, Copy, Debug, PartialEq, Eq, Structural)]
pub enum PumpState {
    /// No configuration yet.
    AwaitingConfig,
    /// The parser reads the chunks of the stream.
    Uploading,
    /// The parser reads a file of the server.
    Local,
}

/// What the pump does about a message.
pub enum PumpAction {
    /// Start the parser.
    Start(ParsePlan),
    /// Hand this chunk to the parser.
    Forward(Bytes),
    /// Nothing.
    Ignore,
    /// Tell the client, and stop.
    Fail(Status),
}

/// What the pump does about a message, with plan and status taken apart.
pub enum PumpReaction {
    /// Start the parser on this path, or on chunks if that is none, with these
    /// options.
    Start(Option<Seq<char>>, ParseWarcConfig),
    /// Hand this chunk to the parser.
    Forward(Bytes),
    /// Nothing.
    Ignore,
    /// Tell the client, and stop.
    Fail(Refusal),
}

/// What an action is.
pub open spec fn pump_reaction_of(action: PumpAction) -> PumpReaction {
    match action {
        PumpAction::Start(plan) => PumpReaction::Start(
            match plan.input {
                ParserInput::Chunks => None,
                ParserInput::LocalFile(path) => Some(path@),
            },
            plan.config,
        ),
        PumpAction::Forward(chunk) => PumpReaction::Forward(chunk),
        PumpAction::Ignore => PumpReaction::Ignore,
        PumpAction::Fail(status) => PumpReaction::Fail(
            Refusal { code: status.code, text: status.message@ },
        ),
    }
}

/// The reaction to a message: the first one has to carry a configuration, and
/// no other one may; chunks go to the parser, unless it reads a file of the
/// server; and every message has to carry something.
pub open spec fn pump_reaction(
    root: Option<Seq<char>>,
    limits: Limits,
    state: PumpState,
    request: ParseWarcRequest,
) -> PumpReaction {
    match request.kind {
        None => PumpReaction::Fail(
            Refusal { code: Code::InvalidArgument, text: warc_service::no_kind_text() },
        ),
        Some(RequestKind::Config(config)) => if state == PumpState::AwaitingConfig {
            match warc_service::planned(root, limits, config) {
                Ok(path) => PumpReaction::Start(path, config),
                Err(refusal) => PumpReaction::Fail(refusal),
            }
        } else {
            PumpReaction::Fail(
                Refusal { code: Code::InvalidArgument, text: warc_service::second_config_text() },
            )
        },
        Some(RequestKind::Chunk(chunk)) => match state {
            PumpState::AwaitingConfig => PumpReaction::Fail(
                Refusal { code: Code::InvalidArgument, text: warc_service::config_first_text() },
            ),
            PumpState::Uploading => PumpReaction::Forward(chunk),
            PumpState::Local => PumpReaction::Ignore,
        },
    }
}

/// The state after a reaction.
pub open spec fn state_after(state: PumpState, reaction: PumpReaction) -> PumpState {
    match reaction {
        PumpReaction::Start(None, _) => PumpState::Uploading,
        PumpReaction::Start(Some(_), _) => PumpState::Local,
        _ => state,
    }
}

/// The failure of a body that ends in a state, if it is one.
pub open spec fn ending(state: PumpState) -> Option<Refusal> {
    match state {
        PumpState::AwaitingConfig => Some(
            Refusal { code: Code::InvalidArgument, text: warc_service::empty_stream_text() },
        ),
        _ => None,
    }
}

/// Whether judging a message, by what decoding it came to, gives this action and
/// leads to this state. What cannot be decoded fails the call.
pub open spec fn decides(
    root: Option<Seq<char>>,
    limits: Limits,
    state: PumpState,
    decoded: Result<ParseWarcRequest, String>,
    action: PumpAction,
    after: PumpState,
) -> bool {
    match decoded {
        Ok(request) => {
            let reaction = pump_reaction(root, limits, state, request);
            &&& pump_reaction_of(action) == reaction
            &&& after == state_after(state, reaction)
        },
        Err(error) => {
            &&& action matches PumpAction::Fail(status)
            &&& status.says(Code::InvalidArgument, "malformed ParseWarcRequest: "@ + error@)
            &&& after == state
        },
    }
}

/// Splits and judges the request messages of one call.
///
/// Whoever reads the body hands in its DATA frames, decodes the messages that
/// come out, and hands those back for a decision. It stops at the first
/// failure.
pub struct RequestPump {
    splitter: MessageSplitter,
    state: PumpState,
}

impl RequestPump {
    /// The byte count of the queued frames is right.
    pub closed spec fn wf(&self) -> bool {
        self.splitter.wf()
    }

    /// The bytes that are queued and belong to no message handed out yet.
    pub closed spec fn queued(&self) -> Seq<u8> {
        self.splitter@
    }

    /// How far the stream has come.
    pub closed spec fn state(&self) -> PumpState {
        self.state
    }

    /// A pump that has seen nothing.
    pub fn new() -> (pump: Self)
        ensures
            pump.wf(),
            pump.queued() == Seq::<u8>::empty(),
            pump.state() == PumpState::AwaitingConfig,
    {
        RequestPump { splitter: MessageSplitter::new(), state: PumpState::AwaitingConfig }
    }

    /// Whether the queue can take in `data` without outgrowing its byte count.
    pub fn has_room(&self, data: &Bytes) -> (room: bool)
        requires
            self.wf(),
        ensures
            room == (self.queued().len() + buffers::bytes_seq(*data).len() <= usize::MAX),
    {
        self.splitter.has_room(data)
    }

    /// Queues one DATA frame of the body.
    pub fn push(&mut self, data: Bytes)
        requires
            old(self).wf(),
            old(self).queued().len() + buffers::bytes_seq(data).len() <= usize::MAX,
        ensures
            final(self).wf(),
            grpc_frame::pushes(
                old(self).queued(),
                buffers::bytes_seq(data),
                final(self).queued(),
            ),
            final(self).state() == old(self).state(),
    {
        self.splitter.push(data);
    }

    /// Takes the next complete message off the queue, to be decoded and handed
    /// to [`Self::decide`]. `None` asks for more frames; a failure ends the
    /// call.
    pub fn next_message(&mut self, max_message_size: usize) -> (result: Result<
        Option<Bytes>,
        Status,
    >)
        requires
            old(self).wf(),
            grpc_frame::front(
                old(self).queued(),
                max_message_size as nat,
            ) matches grpc_frame::Front::Message(body) ==> body.len() <= isize::MAX,
        ensures
            final(self).wf(),
            final(self).state() == old(self).state(),
            grpc_frame::pops(
                old(self).queued(),
                max_message_size as nat,
                result,
                final(self).queued(),
            ),
    {
        self.splitter.next_message(max_message_size)
    }

    /// Judges a message by what decoding it came to: the message, or why it is
    /// none.
    pub fn decide(
        &mut self,
        decoded: Result<ParseWarcRequest, String>,
        parser: &WarcParser,
        limits: &Limits,
    ) -> (action: PumpAction)
        requires
            old(self).wf(),
        ensures
            final(self).wf(),
            final(self).queued() == old(self).queued(),
            decides(
                parser.root(),
                *limits,
                old(self).state(),
                decoded,
                action,
                final(self).state(),
            ),
    {
        let request: ParseWarcRequest = match decoded {
            Ok(request) => request,
            Err(error) => {
                let mut message: String = "malformed ParseWarcRequest: ".to_owned();
                message.append(error.as_str());
                return PumpAction::Fail(Status { code: Code::InvalidArgument, message });
            },
        };
        match request.kind {
            None => PumpAction::Fail(
                Status::new(
                    Code::InvalidArgument,
                    "ParseWarc request message must set `config` or `chunk`",
                ),
            ),
            Some(RequestKind::Config(config)) => {
                if self.state != PumpState::AwaitingConfig {
                    return PumpAction::Fail(
                        Status::new(
                            Code::InvalidArgument,
                            "`config` may only be set on the first request message",
                        ),
                    );
                }
                match parser.plan(config, limits) {
                    Ok(plan) => {
                        self.state = match &plan.input {
                            ParserInput::Chunks => PumpState::Uploading,
                            ParserInput::LocalFile(_) => PumpState::Local,
                        };
                        PumpAction::Start(plan)
                    },
                    Err(status) => PumpAction::Fail(status),
                }
            },
            Some(RequestKind::Chunk(chunk)) => match self.state {
                PumpState::AwaitingConfig => PumpAction::Fail(
                    Status::new(
                        Code::InvalidArgument,
                        "first ParseWarc request message must set `config`",
                    ),
                ),
                PumpState::Uploading => PumpAction::Forward(chunk),
                PumpState::Local => PumpAction::Ignore,
            },
        }
    }

    /// The failure of a body that ends here, if it is one: a stream without
    /// messages.
    pub fn end(&self) -> (failure: Option<Status>)
        ensures
            match ending(self.state()) {
                Some(refusal) => failure matches Some(status) && status.says(
                    refusal.code,
                    refusal.text,
                ),
                None => failure is None,
            },
    {
        match self.state {
            PumpState::AwaitingConfig => Some(
                Status::new(
                    Code::InvalidArgument,
                    "empty ParseWarc request stream; first message must set `config`",
                ),
            ),
            _ => None,
        }
    }
}

/// What a stream of request messages comes to, where nobody gives up early.
pub struct Session {
    /// The path to parse, or none for the chunks, and the options, if the
    /// parser was started.
    pub start: Option<(Option<Seq<char>>, ParseWarcConfig)>,
    /// The chunks that were handed to the parser, in order.
    pub chunks: Seq<Bytes>,
    /// The code of the failure, if the stream ended in one.
    pub failure: Option<Code>,
}

/// A stream that came to nothing but a failure, or to nothing at all.
pub open spec fn ended(failure: Option<Code>) -> Session {
    Session { start: None, chunks: Seq::empty(), failure }
}

/// What the raw route makes of the messages from a state on.
pub open spec fn raw_session(
    root: Option<Seq<char>>,
    limits: Limits,
    state: PumpState,
    messages: Seq<ParseWarcRequest>,
) -> Session
    decreases messages.len(),
{
    if messages.len() == 0 {
        ended(
            if state == PumpState::AwaitingConfig {
                Some(Code::InvalidArgument)
            } else {
                None
            },
        )
    } else {
        let reaction = pump_reaction(root, limits, state, messages[0]);
        let rest = raw_session(root, limits, state_after(state, reaction), messages.drop_first());
        match reaction {
            PumpReaction::Start(path, config) => Session { start: Some((path, config)), ..rest },
            PumpReaction::Forward(chunk) => Session { chunks: seq![chunk] + rest.chunks, ..rest },
            PumpReaction::Ignore => rest,
            PumpReaction::Fail(refusal) => ended(Some(refusal.code)),
        }
    }
}

/// What the codec route makes of the messages after the first.
pub open spec fn codec_rest(local: bool, messages: Seq<ParseWarcRequest>) -> Session
    decreases messages.len(),
{
    if messages.len() == 0 {
        ended(None)
    } else {
        let rest = codec_rest(local, messages.drop_first());
        match warc_service::message_reaction(local, messages[0]) {
            Reaction::Forward(chunk) => Session { chunks: seq![chunk] + rest.chunks, ..rest },
            Reaction::Ignore => rest,
            Reaction::Fail(refusal) => ended(Some(refusal.code)),
            Reaction::Stop => ended(None),
        }
    }
}

/// What the codec route makes of a stream of messages.
pub open spec fn codec_session(
    root: Option<Seq<char>>,
    limits: Limits,
    messages: Seq<ParseWarcRequest>,
) -> Session {
    let first = if messages.len() == 0 {
        None
    } else {
        Some(messages[0])
    };
    match warc_service::first_config(Ok(first)) {
        Err(refusal) => ended(Some(refusal.code)),
        Ok(config) => match warc_service::planned(root, limits, config) {
            Err(refusal) => ended(Some(refusal.code)),
            Ok(path) => Session {
                start: Some((path, config)),
                ..codec_rest(path is Some, messages.drop_first())
            },
        },
    }
}

/// The raw route makes of every stream of messages what the codec route makes
/// of it: it starts the same parse, hands it the same chunks, and fails with
/// the same code.
pub proof fn law_raw_route_mirrors_codec_route(
    root: Option<Seq<char>>,
    limits: Limits,
    messages: Seq<ParseWarcRequest>,
)
    ensures
        raw_session(root, limits, PumpState::AwaitingConfig, messages) == codec_session(
            root,
            limits,
            messages,
        ),
{
    if messages.len() > 0 {
        if let Some(RequestKind::Config(config)) = messages[0].kind {
            if let Ok(path) = warc_service::planned(root, limits, config) {
                lemma_rest_mirrors(root, limits, path is Some, messages.drop_first());
            }
        }
    }
}

proof fn lemma_rest_mirrors(
    root: Option<Seq<char>>,
    limits: Limits,
    local: bool,
    messages: Seq<ParseWarcRequest>,
)
    ensures
        raw_session(
            root,
            limits,
            if local {
                PumpState::Local
            } else {
                PumpState::Uploading
            },
            messages,
        ) == codec_rest(local, messages),
    decreases messages.len(),
{
    if messages.len() > 0 {
        lemma_rest_mirrors(root, limits, local, messages.drop_first());
    }
}

/// The chunks of messages that carry nothing else.
pub open spec fn chunk_messages(chunks: Seq<Bytes>) -> Seq<ParseWarcRequest> {
    chunks.map_values(
        |chunk: Bytes| ParseWarcRequest { kind: Some(RequestKind::Chunk(chunk)) },
    )
}

/// An upload reaches the parser: after an accepted configuration without a
/// path, every chunk is handed over, in order, and nothing fails.
pub proof fn law_upload_is_forwarded(
    root: Option<Seq<char>>,
    limits: Limits,
    config: ParseWarcConfig,
    chunks: Seq<Bytes>,
)
    requires
        warc_service::planned(root, limits, config) == Ok::<Option<Seq<char>>, Refusal>(None),
    ensures
        codec_session(
            root,
            limits,
            seq![ParseWarcRequest { kind: Some(RequestKind::Config(config)) }] + chunk_messages(
                chunks,
            ),
        ) == (Session { start: Some((None, config)), chunks, failure: None }),
{
    let first = ParseWarcRequest { kind: Some(RequestKind::Config(config)) };
    let messages = seq![first] + chunk_messages(chunks);
    assert(messages[0] == first);
    assert(messages.drop_first() =~= chunk_messages(chunks));
    lemma_chunks_are_forwarded(chunks);
}

proof fn lemma_chunks_are_forwarded(chunks: Seq<Bytes>)
    ensures
        codec_rest(false, chunk_messages(chunks)) == (Session {
            start: None,
            chunks,
            failure: None,
        }),
    decreases chunks.len(),
{
    if chunks.len() > 0 {
        lemma_chunks_are_forwarded(chunks.drop_first());
        assert(chunk_messages(chunks).drop_first() =~= chunk_messages(chunks.drop_first()));
        assert(seq![chunks[0]] + chunks.drop_first() =~= chunks);
    } else {
        assert(chunks =~= Seq::<Bytes>::empty());
    }
}

/// A server without a directory for local files opens none: whatever a stream
/// holds, no parse of a path is started.
pub proof fn law_no_local_files_without_root(limits: Limits, messages: Seq<ParseWarcRequest>)
    ensures
        codec_session(None, limits, messages).start matches Some((path, _)) ==> path is None,
{
}

/// What asking for the next response came to.
pub enum Polled<'a> {
    /// None is there yet.
    Pending,
    /// A response, by its encoding.
    Message(&'a [u8]),
    /// The call fails.
    Failed(Status),
    /// There are no more.
    Closed,
}

/// What goes out next.
pub enum BodyFrame {
    /// Nothing yet.
    Pending,
    /// A DATA frame with this content.
    Data(Bytes),
    /// The trailers: a failure, or none where the call went well.
    Trailers(Option<Status>),
    /// Nothing more.
    End,
}

/// [`Polled`] over its content.
pub enum PollModel {
    /// None is there yet.
    Pending,
    /// A response, by its encoding.
    Message(Seq<u8>),
    /// The call fails.
    Failed(Refusal),
    /// There are no more.
    Closed,
}

/// [`BodyFrame`] over its content.
pub enum FrameModel {
    /// Nothing yet.
    Pending,
    /// A DATA frame with this content.
    Data(Seq<u8>),
    /// The trailers: a failure, or none where the call went well.
    Trailers(Option<Refusal>),
    /// Nothing more.
    End,
}

/// The content of a poll.
pub open spec fn poll_model(polled: Polled) -> PollModel {
    match polled {
        Polled::Pending => PollModel::Pending,
        Polled::Message(body) => PollModel::Message(body@),
        Polled::Failed(status) => PollModel::Failed(
            Refusal { code: status.code, text: status.message@ },
        ),
        Polled::Closed => PollModel::Closed,
    }
}

/// The content of a frame.
pub open spec fn frame_model(frame: BodyFrame) -> FrameModel {
    match frame {
        BodyFrame::Pending => FrameModel::Pending,
        BodyFrame::Data(data) => FrameModel::Data(buffers::bytes_seq(data)),
        BodyFrame::Trailers(Some(status)) => FrameModel::Trailers(
            Some(Refusal { code: status.code, text: status.message@ }),
        ),
        BodyFrame::Trailers(None) => FrameModel::Trailers(None),
        BodyFrame::End => FrameModel::End,
    }
}

/// What goes out for a poll: each response as one message; a failure or the
/// end of the responses as trailers; after those, nothing.
pub open spec fn next_frame(done: bool, polled: PollModel) -> FrameModel {
    if done {
        FrameModel::End
    } else {
        match polled {
            PollModel::Pending => FrameModel::Pending,
            PollModel::Message(body) => FrameModel::Data(wire::frame(body)),
            PollModel::Failed(refusal) => FrameModel::Trailers(Some(refusal)),
            PollModel::Closed => FrameModel::Trailers(None),
        }
    }
}

/// Whether a poll gives this frame, and whether the status has gone out after it.
pub open spec fn polls_to(
    done: bool,
    polled: PollModel,
    frame: FrameModel,
    done_after: bool,
) -> bool {
    &&& frame == next_frame(done, polled)
    &&& done_after == (frame is Trailers || frame is End)
}

/// The body of a streamed response: encodes each message as one
/// length-prefixed frame and finishes with a status.
pub struct ResponseBody {
    scratch: BytesMut,
    done: bool,
}

impl ResponseBody {
    /// Nothing of an earlier message is left over.
    pub closed spec fn wf(&self) -> bool {
        buffers::bytes_mut_seq(self.scratch) == Seq::<u8>::empty()
    }

    /// Whether the status has gone out.
    pub closed spec fn finished(&self) -> bool {
        self.done
    }

    /// A body that has sent nothing.
    pub fn new() -> (body: Self)
        ensures
            body.wf(),
            !body.finished(),
    {
        ResponseBody { scratch: bytes_mut_new(), done: false }
    }

    /// Whether the status has gone out, so that there is nothing to ask for.
    pub fn is_done(&self) -> (done: bool)
        ensures
            done == self.finished(),
    {
        self.done
    }

    /// Decides what goes out, by what asking for the next response came to. A
    /// response is at most 4 GiB long, the limit of a gRPC frame.
    pub fn poll_frame(&mut self, polled: Polled) -> (frame: BodyFrame)
        requires
            old(self).wf(),
            polled matches Polled::Message(body) ==> body@.len() <= u32::MAX && HEADER_LEN
                + body@.len() <= isize::MAX,
        ensures
            final(self).wf(),
            polls_to(
                old(self).finished(),
                poll_model(polled),
                frame_model(frame),
                final(self).finished(),
            ),
    {
        if self.done {
            return BodyFrame::End;
        }
        match polled {
            Polled::Pending => BodyFrame::Pending,
            Polled::Message(body) => {
                let message: Bytes = encode_message_into(&mut self.scratch, body);
                assert(buffers::bytes_seq(message) =~= wire::frame(body@));
                BodyFrame::Data(message)
            },
            Polled::Failed(status) => {
                self.done = true;
                BodyFrame::Trailers(Some(status))
            },
            Polled::Closed => {
                self.done = true;
                BodyFrame::Trailers(None)
            },
        }
    }
}

/// What goes out for consecutive polls.
pub open spec fn frames_for(done: bool, polls: Seq<PollModel>) -> Seq<FrameModel>
    decreases polls.len(),
{
    if polls.len() == 0 {
        Seq::empty()
    } else {
        let frame = next_frame(done, polls[0]);
        seq![frame] + frames_for(frame is Trailers || frame is End, polls.drop_first())
    }
}

/// The bytes of the DATA frames, in order.
pub open spec fn data_of(frames: Seq<FrameModel>) -> Seq<u8>
    decreases frames.len(),
{
    if frames.len() == 0 {
        Seq::empty()
    } else {
        (match frames[0] {
            FrameModel::Data(data) => data,
            _ => Seq::empty(),
        }) + data_of(frames.drop_first())
    }
}

/// The encodings of the responses ahead of the first failure or end.
pub open spec fn responses_of(polls: Seq<PollModel>) -> Seq<Seq<u8>>
    decreases polls.len(),
{
    if polls.len() == 0 {
        Seq::empty()
    } else {
        match polls[0] {
            PollModel::Pending => responses_of(polls.drop_first()),
            PollModel::Message(body) => seq![body] + responses_of(polls.drop_first()),
            _ => Seq::empty(),
        }
    }
}

/// A body carries the responses, in order, as consecutive gRPC messages.
pub proof fn law_body_carries_responses(polls: Seq<PollModel>)
    ensures
        data_of(frames_for(false, polls)) == wire::frames(responses_of(polls)),
    decreases polls.len(),
{
    if polls.len() > 0 {
        let frames = frames_for(false, polls);
        let rest = polls.drop_first();
        law_body_carries_responses(rest);
        assert(frames.drop_first() =~= frames_for(frames[0] is Trailers, rest));
        match polls[0] {
            PollModel::Pending => {},
            PollModel::Message(body) => {
                let bodies = seq![body] + responses_of(rest);
                assert(bodies.drop_first() =~= responses_of(rest));
            },
            _ => {
                lemma_no_data_when_done(rest);
            },
        }
        assert(data_of(frames) =~= wire::frames(responses_of(polls)));
    }
}

proof fn lemma_no_data_when_done(polls: Seq<PollModel>)
    ensures
        data_of(frames_for(true, polls)) == Seq::<u8>::empty(),
        forall|i: int| 0 <= i < polls.len() ==> #[trigger] frames_for(true, polls)[i] is End,
        frames_for(true, polls).len() == polls.len(),
    decreases polls.len(),
{
    if polls.len() > 0 {
        lemma_no_data_when_done(polls.drop_first());
        let frames = frames_for(true, polls);
        assert(frames.drop_first() =~= frames_for(true, polls.drop_first()));
        assert forall|i: int| 0 <= i < polls.len() implies #[trigger] frames[i] is End by {
            if i > 0 {
                assert(frames[i] == frames_for(true, polls.drop_first())[i - 1]);
            }
        }
    }
}

proof fn lemma_one_frame_per_poll(done: bool, polls: Seq<PollModel>)
    ensures
        frames_for(done, polls).len() == polls.len(),
    decreases polls.len(),
{
    if polls.len() > 0 {
        let frame = next_frame(done, polls[0]);
        lemma_one_frame_per_poll(frame is Trailers || frame is End, polls.drop_first());
    }
}

/// A body has one status: once the trailers have gone out, nothing else does.
pub proof fn law_body_ends_once(polls: Seq<PollModel>, i: int, j: int)
    requires
        0 <= i < j < polls.len(),
        frames_for(false, polls)[i] is Trailers,
    ensures
        frames_for(false, polls)[j] is End,
    decreases polls.len(),
{
    let frames = frames_for(false, polls);
    let rest = polls.drop_first();
    lemma_no_data_when_done(rest);
    lemma_one_frame_per_poll(false, rest);
    if frames[0] is Trailers {
        assert(frames[j] == frames_for(true, rest)[j - 1]);
    } else {
        assert(frames[i] == frames_for(false, rest)[i - 1]);
        assert(frames[j] == frames_for(false, rest)[j - 1]);
        law_body_ends_once(rest, i - 1, j - 1);
    }
}

/// Whether these polls give these frames and lead through these bodies, the
/// first of which has sent no status.
pub open spec fn polls_through(
    bodies: Seq<ResponseBody>,
    polls: Seq<PollModel>,
    frames: Seq<FrameModel>,
) -> bool {
    &&& bodies.len() == polls.len() + 1
    &&& frames.len() == polls.len()
    &&& !bodies[0].finished()
    &&& forall|i: int|
        0 <= i < polls.len() ==> {
            polls_to(
                bodies[i].finished(),
                polls[i],
                frames[i],
                (#[trigger] bodies[i + 1]).finished(),
            )
        }
}

/// A body is one DATA frame for each response, in order, then one status, then
/// nothing: where asking for responses gives these, and then a failure or their
/// end, nothing that is queued behind that goes out.
pub proof fn law_body_is_responses_then_status(
    bodies: Seq<ResponseBody>,
    polls: Seq<PollModel>,
    frames: Seq<FrameModel>,
    responses: Seq<Seq<u8>>,
)
    requires
        polls_through(bodies, polls, frames),
        responses.len() < polls.len(),
        forall|i: int|
            0 <= i < responses.len() ==> #[trigger] polls[i] == PollModel::Message(responses[i]),
        polls[responses.len() as int] is Closed || polls[responses.len() as int] is Failed,
    ensures
        forall|i: int|
            0 <= i < responses.len() ==> #[trigger] frames[i] == FrameModel::Data(
                wire::frame(responses[i]),
            ),
        frames[responses.len() as int] == FrameModel::Trailers(
            match polls[responses.len() as int] {
                PollModel::Failed(refusal) => Some(refusal),
                _ => None,
            },
        ),
        forall|i: int| responses.len() < i < polls.len() ==> #[trigger] frames[i] is End,
{
    let n = responses.len() as int;
    assert forall|i: int| 0 <= i < n implies #[trigger] frames[i] == FrameModel::Data(
        wire::frame(responses[i]),
    ) by {
        lemma_open_until(bodies, polls, frames, i);
        assert(polls[i] == PollModel::Message(responses[i]));
        assert(polls_to(bodies[i].finished(), polls[i], frames[i], bodies[i + 1].finished()));
    }
    lemma_open_until(bodies, polls, frames, n);
    assert(polls_to(bodies[n].finished(), polls[n], frames[n], bodies[n + 1].finished()));
    assert forall|i: int| n < i < polls.len() implies #[trigger] frames[i] is End by {
        lemma_done_from(bodies, polls, frames, n + 1, i);
        assert(polls_to(bodies[i].finished(), polls[i], frames[i], bodies[i + 1].finished()));
    }
}

/// As long as there are responses, a body has sent no status.
proof fn lemma_open_until(
    bodies: Seq<ResponseBody>,
    polls: Seq<PollModel>,
    frames: Seq<FrameModel>,
    count: int,
)
    requires
        polls_through(bodies, polls, frames),
        0 <= count <= polls.len(),
        forall|i: int| 0 <= i < count ==> #[trigger] polls[i] is Message,
    ensures
        !bodies[count].finished(),
    decreases count,
{
    if count > 0 {
        let i = count - 1;
        lemma_open_until(bodies, polls, frames, i);
        assert(polls[i] is Message);
        assert(polls_to(bodies[i].finished(), polls[i], frames[i], bodies[i + 1].finished()));
    }
}

/// A body that has sent its status has sent it for good.
proof fn lemma_done_from(
    bodies: Seq<ResponseBody>,
    polls: Seq<PollModel>,
    frames: Seq<FrameModel>,
    from: int,
    to: int,
)
    requires
        polls_through(bodies, polls, frames),
        0 <= from <= to <= polls.len(),
        bodies[from].finished(),
    ensures
        bodies[to].finished(),
    decreases to - from,
{
    if from < to {
        let i = to - 1;
        lemma_done_from(bodies, polls, frames, from, i);
        assert(polls_to(bodies[i].finished(), polls[i], frames[i], bodies[i + 1].finished()));
    }
}

/// What the pump does about a message in each of its states: the first one has to
/// carry a configuration, by which the parser is started on the path that is
/// confined to the directory, or on the chunks of the stream where there is none;
/// later ones have to carry chunks, which go to the parser as they are, or nowhere
/// beside a local file; what is malformed fails the call.
pub proof fn law_pump_judges_every_message(
    root: Option<Seq<char>>,
    limits: Limits,
    state: PumpState,
    decoded: Result<ParseWarcRequest, String>,
    action: PumpAction,
    after: PumpState,
)
    requires
        decides(root, limits, state, decoded, action, after),
    ensures
        match decoded {
            Err(error) => {
                &&& action matches PumpAction::Fail(status)
                &&& status.code == Code::InvalidArgument
                &&& status.message@ == "malformed ParseWarcRequest: "@ + error@
                &&& after == state
            },
            Ok(request) => match request.kind {
                None => {
                    &&& action matches PumpAction::Fail(status)
                    &&& status.code == Code::InvalidArgument
                    &&& status.message@ == "ParseWarc request message must set `config` or `chunk`"@
                    &&& after == state
                },
                Some(RequestKind::Chunk(chunk)) => match state {
                    PumpState::AwaitingConfig => {
                        &&& action matches PumpAction::Fail(status)
                        &&& status.code == Code::InvalidArgument
                        &&& status.message@ == "first ParseWarc request message must set `config`"@
                        &&& after == state
                    },
                    PumpState::Uploading => action == PumpAction::Forward(chunk) && after == state,
                    PumpState::Local => action is Ignore && after == state,
                },
                Some(RequestKind::Config(config)) => if state == PumpState::AwaitingConfig {
                    match warc_service::planned(root, limits, config) {
                        Ok(path) => {
                            &&& action matches PumpAction::Start(plan)
                            &&& plan.config == config
                            &&& match path {
                                Some(path) => {
                                    &&& plan.input matches ParserInput::LocalFile(text)
                                    &&& text@ == path
                                    &&& after == PumpState::Local
                                },
                                None => plan.input is Chunks && after == PumpState::Uploading,
                            }
                        },
                        Err(refusal) => {
                            &&& action matches PumpAction::Fail(status)
                            &&& status.code == refusal.code
                            &&& status.message@ == refusal.text
                            &&& after == state
                        },
                    }
                } else {
                    &&& action matches PumpAction::Fail(status)
                    &&& status.code == Code::InvalidArgument
                    &&& status.message@ == "`config` may only be set on the first request message"@
                    &&& after == state
                },
            },
        },
{
}

/// An upload reaches the parser on every server: whatever directory is served, or
/// none, a configuration within its limits and without a path, followed by chunks,
/// starts a parse of chunks that is handed all of them in order, on both routes.
pub proof fn law_upload_reaches_the_parser_on_every_server(
    root: Option<Seq<char>>,
    limits: Limits,
    config: ParseWarcConfig,
    chunks: Seq<Bytes>,
)
    requires
        config.max_header_len <= limits.max_header_len
            && config.payload_chunk_size <= limits.max_payload_chunk_size
            && config.input_buffer_size <= limits.max_input_buffer_size
            && (forall|min: u64, max: u64|
            config.min_content_length == Some(min) && config.max_content_length == Some(max) ==> min
                <= max),
        config.archive_path@.len() == 0,
    ensures
        ({
            let messages = seq![ParseWarcRequest { kind: Some(RequestKind::Config(config)) }]
                + chunk_messages(chunks);
            let session = Session { start: Some((None, config)), chunks, failure: None };
            &&& codec_session(root, limits, messages) == session
            &&& raw_session(root, limits, PumpState::AwaitingConfig, messages) == session
            &&& messages.len() == 1 + chunks.len()
            &&& forall|i: int|
                0 <= i < chunks.len() ==> #[trigger] messages[1 + i] == (ParseWarcRequest {
                    kind: Some(RequestKind::Chunk(chunks[i])),
                })
        }),
{
    crate::config::law_options_within_limits_are_accepted(config, limits);
    law_upload_is_forwarded(root, limits, config, chunks);
    let messages = seq![ParseWarcRequest { kind: Some(RequestKind::Config(config)) }]
        + chunk_messages(chunks);
    law_raw_route_mirrors_codec_route(root, limits, messages);
}

/// Chunks, then a message that breaks the protocol, then anything: the chunks are
/// handed over, unless the archive is a local file, and the call fails.
proof fn lemma_violation_ends_the_rest(
    local: bool,
    chunks: Seq<Bytes>,
    violation: ParseWarcRequest,
    behind: Seq<ParseWarcRequest>,
)
    requires
        violation.kind is None || violation.kind->0 is Config,
    ensures
        codec_rest(local, chunk_messages(chunks) + seq![violation] + behind) == (Session {
            start: None,
            chunks: if local {
                Seq::empty()
            } else {
                chunks
            },
            failure: Some(Code::InvalidArgument),
        }),
    decreases chunks.len(),
{
    let messages = chunk_messages(chunks) + seq![violation] + behind;
    if chunks.len() > 0 {
        let rest = chunks.drop_first();
        lemma_violation_ends_the_rest(local, rest, violation, behind);
        assert(messages.drop_first() =~= chunk_messages(rest) + seq![violation] + behind);
        assert(messages[0] == chunk_messages(chunks)[0]);
        assert(seq![chunks[0]] + rest =~= chunks);
    } else {
        assert(messages[0] == violation);
        assert(chunks =~= Seq::<Bytes>::empty());
    }
}

/// A message that breaks the protocol ends the call, and what was handed over
/// before it stays so: behind an accepted configuration and chunks, a second
/// configuration or a message without content fails as an invalid argument, and
/// nothing behind it counts.
pub proof fn law_violation_ends_the_call(
    root: Option<Seq<char>>,
    limits: Limits,
    config: ParseWarcConfig,
    path: Option<Seq<char>>,
    chunks: Seq<Bytes>,
    violation: ParseWarcRequest,
    behind: Seq<ParseWarcRequest>,
)
    requires
        warc_service::planned(root, limits, config) == Ok::<Option<Seq<char>>, Refusal>(path),
        violation.kind is None || violation.kind->0 is Config,
    ensures
        codec_session(
            root,
            limits,
            seq![ParseWarcRequest { kind: Some(RequestKind::Config(config)) }] + (chunk_messages(
                chunks,
            ) + seq![violation] + behind),
        ) == (Session {
            start: Some((path, config)),
            chunks: if path is Some {
                Seq::empty()
            } else {
                chunks
            },
            failure: Some(Code::InvalidArgument),
        }),
{
    let first = ParseWarcRequest { kind: Some(RequestKind::Config(config)) };
    let rest = chunk_messages(chunks) + seq![violation] + behind;
    let messages = seq![first] + rest;
    assert(messages[0] == first);
    assert(messages.drop_first() =~= rest);
    lemma_violation_ends_the_rest(path is Some, chunks, violation, behind);
}

/// Chunks beside a local file are of no use and of no harm.
proof fn lemma_local_chunks_are_ignored(chunks: Seq<Bytes>)
    ensures
        codec_rest(true, chunk_messages(chunks)) == ended(None),
    decreases chunks.len(),
{
    if chunks.len() > 0 {
        lemma_local_chunks_are_ignored(chunks.drop_first());
        assert(chunk_messages(chunks).drop_first() =~= chunk_messages(chunks.drop_first()));
    }
}

/// A parse of a local file takes no chunks: the ones that a client sends are
/// ignored, and nothing fails.
pub proof fn law_local_file_takes_no_chunks(
    root: Option<Seq<char>>,
    limits: Limits,
    config: ParseWarcConfig,
    path: Seq<char>,
    chunks: Seq<Bytes>,
)
    requires
        warc_service::planned(root, limits, config) == Ok::<Option<Seq<char>>, Refusal>(
            Some(path),
        ),
    ensures
        codec_session(
            root,
            limits,
            seq![ParseWarcRequest { kind: Some(RequestKind::Config(config)) }] + chunk_messages(
                chunks,
            ),
        ) == (Session { start: Some((Some(path), config)), chunks: Seq::empty(), failure: None }),
{
    let first = ParseWarcRequest { kind: Some(RequestKind::Config(config)) };
    let messages = seq![first] + chunk_messages(chunks);
    assert(messages[0] == first);
    assert(messages.drop_first() =~= chunk_messages(chunks));
    lemma_local_chunks_are_ignored(chunks);
}

/// A stream that does not open with a configuration starts nothing and hands over
/// nothing, whatever follows, and fails as an invalid argument. So does an empty
/// one.
pub proof fn law_stream_without_configuration_fails(
    root: Option<Seq<char>>,
    limits: Limits,
    messages: Seq<ParseWarcRequest>,
)
    requires
        messages.len() == 0 || messages[0].kind is None || messages[0].kind->0 is Chunk,
    ensures
        codec_session(root, limits, messages) == (Session {
            start: None,
            chunks: Seq::empty(),
            failure: Some(Code::InvalidArgument),
        }),
{
}

/// A response that is not there yet holds nothing up and ends nothing: what goes
/// out is nothing, and the next response goes out as if it had been there at once.
pub proof fn law_pending_responses_are_waited_for(polls: Seq<PollModel>)
    ensures
        frames_for(false, seq![PollModel::Pending] + polls) == seq![FrameModel::Pending]
            + frames_for(false, polls),
{
    assert((seq![PollModel::Pending] + polls).drop_first() =~= polls);
}

/// What goes out for a poll, frame by frame: a response as one message of its
/// length and its bytes, a failure with its code and message, and the end without
/// one. Once the status has gone out, nothing does.
pub proof fn law_frame_goes_out_for_a_poll(
    done: bool,
    polled: Polled,
    frame: BodyFrame,
    done_after: bool,
)
    requires
        polled matches Polled::Message(body) ==> body@.len() <= u32::MAX,
        polls_to(done, poll_model(polled), frame_model(frame), done_after),
    ensures
        done ==> frame is End && done_after,
        !done ==> (done_after <==> polled is Failed || polled is Closed),
        !done ==> match polled {
            Polled::Pending => frame is Pending,
            Polled::Message(body) => {
                &&& frame matches BodyFrame::Data(data)
                &&& buffers::bytes_seq(data).len() == 5 + body@.len()
                &&& buffers::bytes_seq(data)[0] == 0
                &&& buffers::bytes_seq(data)[1] * 16777216 + buffers::bytes_seq(data)[2] * 65536
                    + buffers::bytes_seq(data)[3] * 256 + buffers::bytes_seq(data)[4] == body@.len()
                &&& buffers::bytes_seq(data).skip(5) == body@
            },
            Polled::Failed(failure) => {
                &&& frame matches BodyFrame::Trailers(Some(status))
                &&& status.code == failure.code
                &&& status.message@ == failure.message@
            },
            Polled::Closed => frame matches BodyFrame::Trailers(None),
        },
{
    if let Polled::Message(body) = polled {
        wire::law_frame_layout(body@);
        wire::lemma_frame_len(body@);
    }
}

} // verus!
