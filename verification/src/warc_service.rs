//! The decisions of the `WarcService` calls: what a request stream may hold,
//! where its archive is read from, and what the client is told.

use prost::bytes::Bytes;
use vstd::prelude::*;
use vstd::string::StringExecFns;

use crate::config::{validate_config, Limits};
use crate::message::{ParseWarcConfig, ParseWarcRequest, RequestKind};
use crate::paths::relative_archive_path;
use crate::status::{Code, Status};
use crate::{config, paths};

verus! {

/// Maximum queued input chunks.
pub const CHUNK_CHANNEL_BOUND: usize = 8;

/// Maximum queued response messages.
pub const RESPONSE_CHANNEL_BOUND: usize = 8;

/// What looking up the directory for local files came to.
pub enum RootLookup {
    /// Its canonical path could not be found; this is the error.
    Unresolved(String),
    /// There is an entry.
    Found {
        /// Its canonical path.
        path: String,
        /// Whether it is a directory.
        is_dir: bool,
        /// Whether it could be opened as a directory, or the error.
        opened: Result<(), String>,
    },
}

/// Why a directory cannot be served from.
#[derive(Clone, Debug, PartialEq, Eq)]
pub enum RootError {
    /// Its canonical path could not be found; this is the error.
    Unresolved(String),
    /// It is no directory; this says so.
    InvalidInput(String),
    /// It could not be opened; this is the error.
    Unopened(String),
}

/// The message that refuses a root that is no directory.
pub open spec fn not_a_directory_text(path: Seq<char>) -> Seq<char> {
    "local file root "@ + path + " is not a directory"@
}

/// The `fastwarc.v1.WarcService` gRPC service.
///
/// Use [`WarcParser::new`] for uploaded archives or
/// [`WarcParser::with_local_files`] to enable files under a configured
/// directory.
pub struct WarcParser {
    /// Canonical path of the directory that `archive_path` requests are
    /// confined to. `None` rejects every server-side path.
    local_file_root: Option<String>,
}

/// Why a request is refused.
pub struct Refusal {
    /// The status code.
    pub code: Code,
    /// The message.
    pub text: Seq<char>,
}

/// The message that refuses a server-side path where none is served.
pub open spec fn disabled_text() -> Seq<char> {
    "archive_path is disabled on this server; stream the archive as chunks instead"@
}

/// Where the archive of an accepted configuration comes from: a path relative
/// to the directory for local files, or, where there is none, the chunks of the
/// request stream. A configuration is refused for a fault of its own, for a
/// path where no paths are served, and for a path that is not confined to the
/// directory.
pub open spec fn planned(
    root: Option<Seq<char>>,
    limits: Limits,
    config: ParseWarcConfig,
) -> Result<Option<Seq<char>>, Refusal> {
    match config::config_fault(config, limits) {
        Some(text) => Err(Refusal { code: Code::InvalidArgument, text }),
        None => if config.archive_path@.len() == 0 {
            Ok(None)
        } else {
            match root {
                None => Err(Refusal { code: Code::PermissionDenied, text: disabled_text() }),
                Some(root) => match paths::confined(root, config.archive_path@) {
                    Some(path) => Ok(Some(path)),
                    None => Err(
                        Refusal { code: Code::PermissionDenied, text: paths::denied_text() },
                    ),
                },
            }
        },
    }
}

/// Where the parser reads archive bytes from.
pub enum ParserInput {
    /// Chunks streamed by the client.
    Chunks,
    /// A path opened relative to the configured directory.
    LocalFile(String),
}

/// An accepted parse.
pub struct ParsePlan {
    /// Where the archive comes from.
    pub input: ParserInput,
    /// The options.
    pub config: ParseWarcConfig,
}

impl ParsePlan {
    /// Whether this is the plan to read from `path`, or from chunks if that is
    /// none, with the options of `config`.
    pub open spec fn reads_from(self, path: Option<Seq<char>>, config: ParseWarcConfig) -> bool {
        &&& self.config == config
        &&& match path {
            None => self.input is Chunks,
            Some(path) => self.input matches ParserInput::LocalFile(text) && text@ == path,
        }
    }
}

/// Whether `result` is the plan or the refusal that `expected` says.
pub open spec fn is_planned(
    result: Result<ParsePlan, Status>,
    expected: Result<Option<Seq<char>>, Refusal>,
    config: ParseWarcConfig,
) -> bool {
    match expected {
        Ok(path) => result matches Ok(plan) && plan.reads_from(path, config),
        Err(refusal) => result matches Err(status) && status.says(refusal.code, refusal.text),
    }
}

/// Whether this is the parser for a directory, given what looking it up came to, or
/// the error.
pub open spec fn is_parser_for(parser: Result<WarcParser, RootError>, lookup: RootLookup) -> bool {
    match lookup {
        RootLookup::Unresolved(error) => parser == Err::<WarcParser, RootError>(
            RootError::Unresolved(error),
        ),
        RootLookup::Found { path, is_dir, opened } => if !is_dir {
            parser matches Err(RootError::InvalidInput(text)) && text@ == not_a_directory_text(
                path@,
            )
        } else {
            match opened {
                Ok(()) => parser matches Ok(parser) && parser.root() == Some(path@),
                Err(error) => parser == Err::<WarcParser, RootError>(RootError::Unopened(error)),
            }
        },
    }
}

impl Default for WarcParser {
    /// A parser that rejects server-side archive paths.
    fn default() -> (parser: Self)
        ensures
            parser.root() is None,
    {
        WarcParser { local_file_root: None }
    }
}

impl WarcParser {
    /// The directory that server-side paths are confined to, if any is served.
    pub closed spec fn root(&self) -> Option<Seq<char>> {
        match self.local_file_root {
            Some(root) => Some(root@),
            None => None,
        }
    }

    /// A parser that rejects server-side archive paths.
    #[must_use]
    pub fn new() -> (parser: Self)
        ensures
            parser.root() is None,
    {
        WarcParser::default()
    }

    /// A parser that permits server-side paths confined to a directory, given
    /// what looking it up came to.
    ///
    /// Relative paths are opened beneath a retained directory handle. Absolute
    /// paths must start with the canonical path of the directory; `..` is
    /// rejected. Clients must be trusted with read access to everything under
    /// the directory.
    ///
    /// Fails if the canonical path could not be found, or is no directory that
    /// can be opened.
    pub fn with_local_files(lookup: RootLookup) -> (parser: Result<Self, RootError>)
        ensures
            is_parser_for(parser, lookup),
    {
        match lookup {
            RootLookup::Unresolved(error) => Err(RootError::Unresolved(error)),
            RootLookup::Found { path, is_dir, opened } => {
                if !is_dir {
                    let mut text: String = "local file root ".to_owned();
                    text.append(path.as_str());
                    text.append(" is not a directory");
                    return Err(RootError::InvalidInput(text));
                }
                match opened {
                    Ok(()) => Ok(WarcParser { local_file_root: Some(path) }),
                    Err(error) => Err(RootError::Unopened(error)),
                }
            },
        }
    }

    /// Validates a configuration and decides where the archive is read from.
    pub fn plan(&self, config: ParseWarcConfig, limits: &Limits) -> (result: Result<
        ParsePlan,
        Status,
    >)
        ensures
            is_planned(result, planned(self.root(), *limits, config), config),
    {
        if let Err(status) = validate_config(&config, limits) {
            return Err(status);
        }
        if config.archive_path.as_str().is_empty() {
            return Ok(ParsePlan { input: ParserInput::Chunks, config });
        }
        match &self.local_file_root {
            Some(root) => match relative_archive_path(root.as_str(), config.archive_path.as_str()) {
                Ok(path) => Ok(ParsePlan { input: ParserInput::LocalFile(path), config }),
                Err(status) => Err(status),
            },
            None => Err(
                Status::new(
                    Code::PermissionDenied,
                    "archive_path is disabled on this server; stream the archive as chunks instead",
                ),
            ),
        }
    }

    /// Decides on a streaming call by its first message: what to parse, or why
    /// the call is refused.
    pub fn parse_warc(
        &self,
        first: Result<Option<ParseWarcRequest>, Status>,
        limits: &Limits,
    ) -> (result: Result<ParsePlan, Status>)
        ensures
            is_opened(result, first, self.root(), *limits),
    {
        match read_config(first) {
            Ok(config) => self.plan(config, limits),
            Err(status) => Err(status),
        }
    }

    /// Decides on a unary call by its configuration: the options to parse with,
    /// or why the call is refused. Server-side paths are refused.
    pub fn parse_archive(&self, config: Option<ParseWarcConfig>, limits: &Limits) -> (result:
        Result<ParseWarcConfig, Status>)
        ensures
            is_unary_answer(result, config, *limits),
    {
        let config: ParseWarcConfig = match config {
            Some(config) => config,
            None => {
                return Err(
                    Status::new(Code::InvalidArgument, "ParseArchive request must set `config`"),
                );
            },
        };
        if let Err(status) = validate_config(&config, limits) {
            return Err(status);
        }
        if !config.archive_path.as_str().is_empty() {
            return Err(
                Status::new(Code::InvalidArgument, "archive_path is only supported by ParseWarc"),
            );
        }
        Ok(config)
    }
}

/// Why a unary call is refused, if it is.
pub open spec fn archive_refusal(config: Option<ParseWarcConfig>, limits: Limits) -> Option<
    Refusal,
> {
    match config {
        None => Some(
            Refusal {
                code: Code::InvalidArgument,
                text: "ParseArchive request must set `config`"@,
            },
        ),
        Some(config) => match config::config_fault(config, limits) {
            Some(text) => Some(Refusal { code: Code::InvalidArgument, text }),
            None => if config.archive_path@.len() == 0 {
                None
            } else {
                Some(
                    Refusal {
                        code: Code::InvalidArgument,
                        text: "archive_path is only supported by ParseWarc"@,
                    },
                )
            },
        },
    }
}

/// Whether this is the answer to a unary call: its options, or the refusal.
pub open spec fn is_unary_answer(
    result: Result<ParseWarcConfig, Status>,
    config: Option<ParseWarcConfig>,
    limits: Limits,
) -> bool {
    match archive_refusal(config, limits) {
        None => config is Some && result == Ok::<ParseWarcConfig, Status>(config->0),
        Some(refusal) => result matches Err(status) && status.says(refusal.code, refusal.text),
    }
}

/// Whether this is the answer to a streaming call that starts with `first`: the
/// plan for its configuration, or the refusal.
pub open spec fn is_opened(
    result: Result<ParsePlan, Status>,
    first: Result<Option<ParseWarcRequest>, Status>,
    root: Option<Seq<char>>,
    limits: Limits,
) -> bool {
    match first_config(first) {
        Ok(config) => is_planned(result, planned(root, limits, config), config),
        Err(refusal) => result matches Err(status) && status.says(refusal.code, refusal.text),
    }
}

/// The configuration that opens a request stream, or why the stream is refused.
/// A failure of the transport is passed on.
pub open spec fn first_config(first: Result<Option<ParseWarcRequest>, Status>) -> Result<
    ParseWarcConfig,
    Refusal,
> {
    match first {
        Ok(Some(request)) => match request.kind {
            Some(RequestKind::Config(config)) => Ok(config),
            _ => Err(Refusal { code: Code::InvalidArgument, text: config_first_text() }),
        },
        Ok(None) => Err(Refusal { code: Code::InvalidArgument, text: empty_stream_text() }),
        Err(status) => Err(Refusal { code: status.code, text: status.message@ }),
    }
}

/// The message that refuses a stream that opens with something else.
pub open spec fn config_first_text() -> Seq<char> {
    "first ParseWarc request message must set `config`"@
}

/// The message that refuses a stream without messages.
pub open spec fn empty_stream_text() -> Seq<char> {
    "empty ParseWarc request stream; first message must set `config`"@
}

/// The message that refuses a second configuration.
pub open spec fn second_config_text() -> Seq<char> {
    "`config` may only be set on the first request message"@
}

/// The message that refuses a message that carries nothing.
pub open spec fn no_kind_text() -> Seq<char> {
    "ParseWarc request message must set `config` or `chunk`"@
}

/// Reads the required first configuration message, rejecting other message
/// kinds. `first` is what the request stream gave first.
pub fn read_config(first: Result<Option<ParseWarcRequest>, Status>) -> (result: Result<
    ParseWarcConfig,
    Status,
>)
    ensures
        match first_config(first) {
            Ok(config) => result == Ok::<ParseWarcConfig, Status>(config),
            Err(refusal) => result matches Err(status) && status.says(refusal.code, refusal.text),
        },
{
    match first {
        Ok(Some(request)) => match request.kind {
            Some(RequestKind::Config(config)) => Ok(config),
            _ => Err(
                Status::new(
                    Code::InvalidArgument,
                    "first ParseWarc request message must set `config`",
                ),
            ),
        },
        Ok(None) => Err(
            Status::new(
                Code::InvalidArgument,
                "empty ParseWarc request stream; first message must set `config`",
            ),
        ),
        Err(status) => Err(status),
    }
}

/// What a task that watches a request stream meets.
pub enum RequestEvent {
    /// The next message.
    Message(ParseWarcRequest),
    /// The end of the stream.
    Ended,
    /// A failure of the transport.
    Failed(Status),
    /// The parser takes no more input, or has finished.
    ParserGone,
    /// The client takes no more responses.
    ClientGone,
}

/// What a task that watches a request stream does next.
pub enum ForwardAction {
    /// Hand this chunk to the parser.
    Forward(Bytes),
    /// Nothing.
    Ignore,
    /// Tell the client, and stop.
    Fail(Status),
    /// Stop.
    Stop,
}

/// What a task that watches a request stream does next, with the status taken
/// apart.
pub enum Reaction {
    /// Hand this chunk to the parser.
    Forward(Bytes),
    /// Nothing.
    Ignore,
    /// Tell the client, and stop.
    Fail(Refusal),
    /// Stop.
    Stop,
}

/// What an action is.
pub open spec fn reaction_of(action: ForwardAction) -> Reaction {
    match action {
        ForwardAction::Forward(chunk) => Reaction::Forward(chunk),
        ForwardAction::Ignore => Reaction::Ignore,
        ForwardAction::Fail(status) => Reaction::Fail(
            Refusal { code: status.code, text: status.message@ },
        ),
        ForwardAction::Stop => Reaction::Stop,
    }
}

/// The reaction to a message after the first. `local` says that the archive is
/// a file of the server, so that chunks are of no use.
pub open spec fn message_reaction(local: bool, request: ParseWarcRequest) -> Reaction {
    match request.kind {
        Some(RequestKind::Chunk(chunk)) => if local {
            Reaction::Ignore
        } else {
            Reaction::Forward(chunk)
        },
        Some(RequestKind::Config(_)) => Reaction::Fail(
            Refusal { code: Code::InvalidArgument, text: second_config_text() },
        ),
        None => Reaction::Fail(Refusal { code: Code::InvalidArgument, text: no_kind_text() }),
    }
}

/// The reaction to an event behind the first message.
pub open spec fn event_reaction(local: bool, event: RequestEvent) -> Reaction {
    match event {
        RequestEvent::Message(request) => message_reaction(local, request),
        RequestEvent::Failed(status) => Reaction::Fail(
            Refusal { code: status.code, text: status.message@ },
        ),
        _ => Reaction::Stop,
    }
}

/// Decides on a message after the first.
fn react_to_message(local: bool, request: ParseWarcRequest) -> (action: ForwardAction)
    ensures
        reaction_of(action) == message_reaction(local, request),
{
    match request.kind {
        Some(RequestKind::Chunk(chunk)) => if local {
            ForwardAction::Ignore
        } else {
            ForwardAction::Forward(chunk)
        },
        Some(RequestKind::Config(_)) => ForwardAction::Fail(
            Status::new(
                Code::InvalidArgument,
                "`config` may only be set on the first request message",
            ),
        ),
        None => ForwardAction::Fail(
            Status::new(
                Code::InvalidArgument,
                "ParseWarc request message must set `config` or `chunk`",
            ),
        ),
    }
}

/// Forwards chunks until input ends, the parser stops or the client leaves.
/// Duplicate configuration messages and missing message kinds terminate the
/// call. This decides on one event.
pub fn forward_chunks(event: RequestEvent) -> (action: ForwardAction)
    ensures
        reaction_of(action) == event_reaction(false, event),
{
    match event {
        RequestEvent::Message(request) => react_to_message(false, request),
        RequestEvent::Failed(status) => ForwardAction::Fail(status),
        _ => ForwardAction::Stop,
    }
}

/// Watches the requests of a call that parses a file of the server: chunks are
/// of no use, but the protocol is enforced until input ends, the parser stops
/// or the client leaves. This decides on one event.
pub fn validate_local_requests(event: RequestEvent) -> (action: ForwardAction)
    ensures
        reaction_of(action) == event_reaction(true, event),
{
    match event {
        RequestEvent::Message(request) => react_to_message(true, request),
        RequestEvent::Failed(status) => ForwardAction::Fail(status),
        _ => ForwardAction::Stop,
    }
}

/// The status for a parser task that did not finish.
pub fn task_failure(panicked: bool) -> (status: Status)
    ensures
        panicked ==> status.says(Code::Internal, "WARC parser task panicked"@),
        !panicked ==> status.says(Code::Cancelled, "WARC parser task cancelled"@),
{
    if panicked {
        Status::new(Code::Internal, "WARC parser task panicked")
    } else {
        Status::new(Code::Cancelled, "WARC parser task cancelled")
    }
}

/// What to tell the client when a local file cannot be opened.
pub enum OpenFailure {
    /// The call fails with this status.
    Refuse(Status),
    /// The parse ends with an unrecoverable record error that says this.
    Report(String),
}

/// The message of the record error for a file that cannot be opened.
pub open spec fn open_failure_text(archive_path: Seq<char>, error: Seq<char>) -> Seq<char> {
    "failed to open archive_path "@ + archive_path + ": "@ + error
}

/// Whether this is what a local file that cannot be opened means for the call.
pub open spec fn is_open_failure(
    permission_denied: bool,
    archive_path: Seq<char>,
    error: Seq<char>,
    failure: OpenFailure,
) -> bool {
    &&& permission_denied ==> (failure matches OpenFailure::Refuse(status) && status.says(
        Code::PermissionDenied,
        "archive_path cannot be opened inside the configured local file root"@,
    ))
    &&& !permission_denied ==> (failure matches OpenFailure::Report(text) && text@
        == open_failure_text(archive_path, error))
}

/// Decides what a local file that cannot be opened means for the call: a file
/// that the directory keeps out of reach is refused; any other failure, which
/// `error` describes, is reported as a record error.
pub fn open_failure(permission_denied: bool, archive_path: &str, error: &str) -> (failure:
    OpenFailure)
    ensures
        is_open_failure(permission_denied, archive_path@, error@, failure),
{
    if permission_denied {
        return OpenFailure::Refuse(
            Status::new(
                Code::PermissionDenied,
                "archive_path cannot be opened inside the configured local file root",
            ),
        );
    }
    let mut text: String = "failed to open archive_path ".to_owned();
    text.append(archive_path);
    text.append(": ");
    text.append(error);
    OpenFailure::Report(text)
}

/// A parse of a server-side path reads a relative path without parent
/// components, so that it stays beneath the directory it is opened in.
pub proof fn law_planned_path_stays_inside_root(
    root: Seq<char>,
    limits: Limits,
    config: ParseWarcConfig,
    path: Seq<char>,
)
    requires
        paths::is_absolute(root),
        planned(Some(root), limits, config) == Ok::<Option<Seq<char>>, Refusal>(Some(path)),
    ensures
        !paths::is_absolute(path),
        !paths::parts(path).contains(paths::Part::Parent),
{
    paths::law_archive_path_stays_inside_root(root, config.archive_path@);
}

/// A configuration within its limits and without a path is an upload: whatever
/// directory is served, or none, the plan is to read the chunks of the stream,
/// with the options as they came.
pub proof fn law_no_path_is_an_upload(
    root: Option<Seq<char>>,
    limits: Limits,
    config: ParseWarcConfig,
    result: Result<ParsePlan, Status>,
)
    requires
        is_planned(result, planned(root, limits, config), config),
        config.max_header_len <= limits.max_header_len
            && config.payload_chunk_size <= limits.max_payload_chunk_size
            && config.input_buffer_size <= limits.max_input_buffer_size
            && (forall|min: u64, max: u64|
            config.min_content_length == Some(min) && config.max_content_length == Some(max) ==> min
                <= max),
        config.archive_path@.len() == 0,
    ensures
        planned(root, limits, config) == Ok::<Option<Seq<char>>, Refusal>(None),
        result matches Ok(plan) && plan.input is Chunks && plan.config == config,
{
    config::law_options_within_limits_are_accepted(config, limits);
}

/// A configuration within its limits and with a path is a parse of that path
/// where it is confined to the directory that is served, with the options as they
/// came. Where it is not, or where no directory is served, it is denied; chunks
/// are never read in its place.
pub proof fn law_path_is_opened_or_denied(
    root: Option<Seq<char>>,
    limits: Limits,
    config: ParseWarcConfig,
    result: Result<ParsePlan, Status>,
)
    requires
        is_planned(result, planned(root, limits, config), config),
        config.max_header_len <= limits.max_header_len
            && config.payload_chunk_size <= limits.max_payload_chunk_size
            && config.input_buffer_size <= limits.max_input_buffer_size
            && (forall|min: u64, max: u64|
            config.min_content_length == Some(min) && config.max_content_length == Some(max) ==> min
                <= max),
        config.archive_path@.len() > 0,
    ensures
        match root {
            Some(root) => match paths::confined(root, config.archive_path@) {
                Some(path) => {
                    &&& planned(Some(root), limits, config) == Ok::<Option<Seq<char>>, Refusal>(
                        Some(path),
                    )
                    &&& result matches Ok(plan)
                    &&& plan.input matches ParserInput::LocalFile(text)
                    &&& text@ == path
                    &&& plan.config == config
                },
                None => {
                    &&& planned(Some(root), limits, config) is Err
                    &&& result matches Err(status)
                    &&& status.code == Code::PermissionDenied
                    &&& status.message@
                        == "archive_path must stay inside the configured local file root"@
                },
            },
            None => {
                &&& planned(root, limits, config) is Err
                &&& result matches Err(status)
                &&& status.code == Code::PermissionDenied
                &&& status.message@
                    == "archive_path is disabled on this server; stream the archive as chunks instead"@
            },
        },
{
    config::law_options_within_limits_are_accepted(config, limits);
}

/// A configuration out of its limits is refused as invalid, whatever its path and
/// whatever is served, with the message of the validation.
pub proof fn law_invalid_options_come_first(
    root: Option<Seq<char>>,
    limits: Limits,
    config: ParseWarcConfig,
    result: Result<ParsePlan, Status>,
)
    requires
        is_planned(result, planned(root, limits, config), config),
        !(config.max_header_len <= limits.max_header_len
            && config.payload_chunk_size <= limits.max_payload_chunk_size
            && config.input_buffer_size <= limits.max_input_buffer_size
            && (forall|min: u64, max: u64|
            config.min_content_length == Some(min) && config.max_content_length == Some(max) ==> min
                <= max)),
    ensures
        result matches Err(status) && status.code == Code::InvalidArgument && config::config_fault(
            config,
            limits,
        ) == Some(status.message@),
{
    config::law_options_within_limits_are_accepted(config, limits);
}

/// A unary call is accepted exactly where it has a configuration within its
/// limits and without a path, and its options are taken as they came. Every refusal
/// is of an invalid argument.
pub proof fn law_unary_call_is_accepted(
    config: Option<ParseWarcConfig>,
    limits: Limits,
    result: Result<ParseWarcConfig, Status>,
)
    requires
        is_unary_answer(result, config, limits),
    ensures
        result is Ok <==> archive_refusal(config, limits) is None,
        result matches Ok(options) ==> config == Some(options),
        result matches Err(status) ==> status.code == Code::InvalidArgument && archive_refusal(
            config,
            limits,
        ) == Some(Refusal { code: status.code, text: status.message@ }),
        config is None ==> archive_refusal(config, limits) == Some(
            Refusal {
                code: Code::InvalidArgument,
                text: "ParseArchive request must set `config`"@,
            },
        ),
        config matches Some(config) ==> {
            &&& archive_refusal(Some(config), limits) is None <==> (config.archive_path@.len() == 0
                && config.max_header_len <= limits.max_header_len
                    && config.payload_chunk_size <= limits.max_payload_chunk_size
                    && config.input_buffer_size <= limits.max_input_buffer_size
                    && (forall|min: u64, max: u64|
                    config.min_content_length == Some(min) && config.max_content_length == Some(max) ==> min
                        <= max))
            &&& archive_refusal(Some(config), limits) matches Some(refusal) ==> refusal.code
                == Code::InvalidArgument && (config::config_fault(config, limits) == Some(
                refusal.text,
            ) || (config::config_fault(config, limits) is None && refusal.text
                == "archive_path is only supported by ParseWarc"@))
        },
{
    if let Some(config) = config {
        config::law_options_within_limits_are_accepted(config, limits);
    }
}

/// A stream is opened by a configuration and by nothing else: the one that the
/// first message carries is the one that counts. A failure of the transport is
/// passed on as it is; everything else is an invalid argument.
pub proof fn law_stream_is_opened_by_a_configuration(
    first: Result<Option<ParseWarcRequest>, Status>,
)
    ensures
        forall|config: ParseWarcConfig|
            (#[trigger] first_config(first) == Ok::<ParseWarcConfig, Refusal>(config)) <==> first
                == Ok::<Option<ParseWarcRequest>, Status>(
                Some(ParseWarcRequest { kind: Some(RequestKind::Config(config)) }),
            ),
        first matches Err(status) ==> (first_config(first) matches Err(refusal) && refusal.code
            == status.code && refusal.text == status.message@),
        first matches Ok(None) ==> (first_config(first) matches Err(refusal) && refusal.code
            == Code::InvalidArgument && refusal.text
            == "empty ParseWarc request stream; first message must set `config`"@),
        first matches Ok(Some(request)) ==> request.kind matches Some(RequestKind::Config(_)) || (
        first_config(first) matches Err(refusal) && refusal.code == Code::InvalidArgument
            && refusal.text == "first ParseWarc request message must set `config`"@),
{
}

/// What a task that watches a request stream does: the chunks of an upload go to
/// the parser as they are, and those beside a local file go nowhere; a second
/// configuration and a message without content are invalid; a failure of the
/// transport is passed on as it is; and everything else ends the watch quietly.
pub proof fn law_watch_reacts_to_every_event(
    local: bool,
    event: RequestEvent,
    action: ForwardAction,
)
    requires
        reaction_of(action) == event_reaction(local, event),
    ensures
        match event {
            RequestEvent::Message(request) => match request.kind {
                Some(RequestKind::Chunk(chunk)) => if local {
                    action is Ignore
                } else {
                    action == ForwardAction::Forward(chunk)
                },
                Some(RequestKind::Config(_)) => {
                    &&& action matches ForwardAction::Fail(status)
                    &&& status.code == Code::InvalidArgument
                    &&& status.message@ == "`config` may only be set on the first request message"@
                },
                None => {
                    &&& action matches ForwardAction::Fail(status)
                    &&& status.code == Code::InvalidArgument
                    &&& status.message@ == "ParseWarc request message must set `config` or `chunk`"@
                },
            },
            RequestEvent::Failed(failure) => {
                &&& action matches ForwardAction::Fail(status)
                &&& status.code == failure.code
                &&& status.message@ == failure.message@
            },
            RequestEvent::Ended | RequestEvent::ParserGone | RequestEvent::ClientGone => action is Stop,
        },
{
}

/// The queues between the tasks of a call are short: eight chunks, and eight
/// responses.
pub proof fn law_queues_are_short()
    ensures
        CHUNK_CHANNEL_BOUND == 8,
        RESPONSE_CHANNEL_BOUND == 8,
{
}

/// A streaming call is answered by its first message: a configuration is planned
/// for as it is, and without one the call is refused, a failure of the transport
/// with its own status and everything else as an invalid argument.
pub proof fn law_call_is_answered_by_its_first_message(
    result: Result<ParsePlan, Status>,
    first: Result<Option<ParseWarcRequest>, Status>,
    root: Option<Seq<char>>,
    limits: Limits,
)
    requires
        is_opened(result, first, root, limits),
    ensures
        match first {
            Ok(Some(request)) => match request.kind {
                Some(RequestKind::Config(config)) => is_planned(
                    result,
                    planned(root, limits, config),
                    config,
                ),
                _ => result matches Err(status) && status.code == Code::InvalidArgument
                    && status.message@ == "first ParseWarc request message must set `config`"@,
            },
            Ok(None) => result matches Err(status) && status.code == Code::InvalidArgument
                && status.message@
                == "empty ParseWarc request stream; first message must set `config`"@,
            Err(failure) => result matches Err(status) && status.code == failure.code
                && status.message@ == failure.message@,
        },
{
}

/// A file that the directory keeps out of reach is refused as denied, and says
/// nothing of the file or of the error; any other failure is reported with the path
/// as it was asked for and with the error.
pub proof fn law_open_failure_is_told_apart(
    permission_denied: bool,
    archive_path: Seq<char>,
    error: Seq<char>,
    failure: OpenFailure,
)
    requires
        is_open_failure(permission_denied, archive_path, error, failure),
    ensures
        failure is Refuse <==> permission_denied,
        failure matches OpenFailure::Refuse(status) ==> status.code == Code::PermissionDenied
            && status.message@
            == "archive_path cannot be opened inside the configured local file root"@,
        failure matches OpenFailure::Report(text) ==> {
            &&& text@.len() == "failed to open archive_path "@.len() + archive_path.len() + 2
                + error.len()
            &&& "failed to open archive_path "@.is_prefix_of(text@)
            &&& text@.skip("failed to open archive_path "@.len() as int).take(
                archive_path.len() as int,
            ) == archive_path
            &&& text@.skip(text@.len() - error.len()) == error
        },
{
    if let OpenFailure::Report(text) = failure {
        reveal_strlit(": ");
        let prefix = "failed to open archive_path "@;
        assert(prefix =~= text@.subrange(0, prefix.len() as int));
        assert(text@.skip(prefix.len() as int).take(archive_path.len() as int) =~= archive_path);
        assert(text@.skip(text@.len() - error.len()) =~= error);
    }
}

/// A directory is served exactly where it was found, is a directory and could be
/// opened, and then by its canonical path. Every failure of a lookup is passed on as
/// it is, and an entry that is no directory is named.
pub proof fn law_root_has_to_be_a_directory(
    parser: Result<WarcParser, RootError>,
    lookup: RootLookup,
)
    requires
        is_parser_for(parser, lookup),
    ensures
        parser is Ok <==> (lookup matches RootLookup::Found { path: _, is_dir, opened } && is_dir
            && opened is Ok),
        parser matches Ok(parser) ==> (lookup matches RootLookup::Found { path, is_dir: _, opened: _ }
            && parser.root() == Some(path@)),
        lookup matches RootLookup::Unresolved(error) ==> (parser matches Err(
            RootError::Unresolved(passed),
        ) && passed@ == error@),
        lookup matches RootLookup::Found { path, is_dir, opened: _ } && !is_dir ==> (
        parser matches Err(RootError::InvalidInput(text)) && text@ == "local file root "@
            + lookup->path@ + " is not a directory"@),
        lookup matches RootLookup::Found { path: _, is_dir, opened } && is_dir && opened is Err ==> (
        parser matches Err(RootError::Unopened(passed)) && passed@ == lookup->opened->Err_0@),
{
}

} // verus!
