use fastwarc_grpc::config::Limits;
use fastwarc_grpc::message::{ParseWarcConfig, ParseWarcRequest, RequestKind};
use fastwarc_grpc::status::{Code, Status};
use fastwarc_grpc::warc_service::{
    forward_chunks, open_failure, read_config, task_failure, validate_local_requests,
    ForwardAction, OpenFailure, ParserInput, RequestEvent, RootError, RootLookup, WarcParser,
};
use prost::bytes::Bytes;

const LIMITS: Limits = Limits {
    max_header_len: 1000,
    max_payload_chunk_size: 2000,
    max_input_buffer_size: 3000,
    default_input_buffer_size: 500,
};

fn root(path: &str) -> RootLookup {
    RootLookup::Found { path: path.to_owned(), is_dir: true, opened: Ok(()) }
}

fn jailed() -> WarcParser {
    WarcParser::with_local_files(root("/srv/archives")).ok().unwrap()
}

fn path_config(path: &str) -> ParseWarcConfig {
    ParseWarcConfig {
        parse_http: Some(false),
        archive_path: path.to_owned(),
        ..Default::default()
    }
}

fn config_message(config: ParseWarcConfig) -> ParseWarcRequest {
    ParseWarcRequest { kind: Some(RequestKind::Config(config)) }
}

fn chunk_message(chunk: &'static [u8]) -> ParseWarcRequest {
    ParseWarcRequest { kind: Some(RequestKind::Chunk(Bytes::from_static(chunk))) }
}

fn opened(parser: &WarcParser, path: &str) -> Result<String, Status> {
    match parser.parse_warc(Ok(Some(config_message(path_config(path)))), &LIMITS)?.input {
        ParserInput::LocalFile(path) => Ok(path),
        ParserInput::Chunks => panic!("expected a local file"),
    }
}

#[test]
fn root_must_be_an_existing_directory() {
    let missing = RootLookup::Unresolved("No such file or directory".to_owned());
    assert!(WarcParser::with_local_files(missing).is_err());
    let file = RootLookup::Found {
        path: "/srv/archives/warcfile.warc".to_owned(),
        is_dir: false,
        opened: Err("not tried".to_owned()),
    };
    assert!(WarcParser::with_local_files(file).is_err());
}

#[test]
fn a_refused_root_is_explained() {
    let lookup = RootLookup::Unresolved("gone".to_owned());
    assert_eq!(
        WarcParser::with_local_files(lookup).err(),
        Some(RootError::Unresolved("gone".to_owned()))
    );
    let lookup =
        RootLookup::Found { path: "/a".to_owned(), is_dir: false, opened: Ok(()) };
    assert_eq!(
        WarcParser::with_local_files(lookup).err(),
        Some(RootError::InvalidInput("local file root /a is not a directory".to_owned()))
    );
    let lookup =
        RootLookup::Found { path: "/a".to_owned(), is_dir: true, opened: Err("shut".to_owned()) };
    assert_eq!(
        WarcParser::with_local_files(lookup).err(),
        Some(RootError::Unopened("shut".to_owned()))
    );
}

#[test]
fn absolute_path_inside_root_is_served() {
    assert_eq!(opened(&jailed(), "/srv/archives/warcfile.warc"), Ok("warcfile.warc".to_owned()));
}

#[test]
fn relative_path_resolves_against_root() {
    assert_eq!(opened(&jailed(), "warcfile.warc"), Ok("warcfile.warc".to_owned()));
}

#[test]
fn absolute_path_outside_root_is_rejected() {
    assert_eq!(opened(&jailed(), "/srv/README.md").unwrap_err().code, Code::PermissionDenied);
}

#[test]
fn parent_traversal_is_rejected() {
    for requested in [
        "/srv/archives/../../../fastwarc-rs/tests/fixtures/warcfile.warc.zst",
        "../data/warcfile.warc",
        "..",
    ] {
        let status = opened(&jailed(), requested).unwrap_err();
        assert_eq!(status.code, Code::PermissionDenied, "expected denial for {requested}");
    }
}

#[test]
fn paths_are_refused_without_a_root() {
    assert_eq!(
        opened(&WarcParser::new(), "/etc/hostname"),
        Err(Status::new(
            Code::PermissionDenied,
            "archive_path is disabled on this server; stream the archive as chunks instead"
        ))
    );
}

#[test]
fn uploads_need_no_root() {
    let plan = WarcParser::default().plan(ParseWarcConfig::default(), &LIMITS).ok().unwrap();
    assert!(matches!(plan.input, ParserInput::Chunks));
    assert_eq!(plan.config, ParseWarcConfig::default());
}

#[test]
fn faults_come_before_paths() {
    let mut config = path_config("/etc/hostname");
    config.max_header_len = 1001;
    assert_eq!(
        WarcParser::new().plan(config, &LIMITS).err(),
        Some(Status::new(Code::InvalidArgument, "max_header_len must not exceed 1000 bytes"))
    );
}

#[test]
fn a_stream_opens_with_a_configuration() {
    let config = path_config("a");
    assert_eq!(read_config(Ok(Some(config_message(config.clone())))), Ok(config));
    let refused = |message: &str| Err(Status::new(Code::InvalidArgument, message));
    assert_eq!(
        read_config(Ok(Some(chunk_message(b"WARC/1.1\r\n")))),
        refused("first ParseWarc request message must set `config`")
    );
    assert_eq!(
        read_config(Ok(Some(ParseWarcRequest { kind: None }))),
        refused("first ParseWarc request message must set `config`")
    );
    assert_eq!(
        read_config(Ok(None)),
        refused("empty ParseWarc request stream; first message must set `config`")
    );
    let broken = Status::new(Code::Transport(15), "upload failed");
    assert_eq!(read_config(Err(broken.clone())), Err(broken));
}

#[test]
fn unary_calls_are_checked() {
    let parser = jailed();
    let refused = |message: &str| Err(Status::new(Code::InvalidArgument, message));
    assert_eq!(
        parser.parse_archive(None, &LIMITS),
        refused("ParseArchive request must set `config`")
    );
    assert_eq!(
        parser.parse_archive(Some(path_config("a")), &LIMITS),
        refused("archive_path is only supported by ParseWarc")
    );
    let mut config = path_config("a");
    config.payload_chunk_size = 2001;
    assert_eq!(
        parser.parse_archive(Some(config), &LIMITS),
        refused("payload_chunk_size must not exceed 2000 bytes")
    );
    assert_eq!(parser.parse_archive(Some(path_config("")), &LIMITS), Ok(path_config("")));
}

#[test]
fn chunks_are_forwarded() {
    let ForwardAction::Forward(chunk) = forward_chunks(RequestEvent::Message(chunk_message(b"abc")))
    else {
        panic!("chunk was not forwarded");
    };
    assert_eq!(&chunk[..], b"abc");
    for event in [RequestEvent::Ended, RequestEvent::ParserGone, RequestEvent::ClientGone] {
        assert!(matches!(forward_chunks(event), ForwardAction::Stop));
    }
}

#[test]
fn uploads_reject_invalid_messages() {
    for (event, expected) in invalid_events() {
        let ForwardAction::Fail(status) = forward_chunks(event) else {
            panic!("invalid message was accepted");
        };
        assert_eq!(status, expected);
    }
}

#[test]
fn local_file_requests_reject_invalid_messages_while_parsing() {
    for (event, expected) in invalid_events() {
        let ignored = validate_local_requests(RequestEvent::Message(chunk_message(b"ignored")));
        assert!(matches!(ignored, ForwardAction::Ignore));
        let ForwardAction::Fail(status) = validate_local_requests(event) else {
            panic!("invalid message was accepted");
        };
        assert_eq!(status, expected);
    }
    for event in [RequestEvent::Ended, RequestEvent::ParserGone, RequestEvent::ClientGone] {
        assert!(matches!(validate_local_requests(event), ForwardAction::Stop));
    }
}

fn invalid_events() -> Vec<(RequestEvent, Status)> {
    let broken = Status::new(Code::Transport(15), "upload failed");
    vec![
        (
            RequestEvent::Message(config_message(ParseWarcConfig::default())),
            Status::new(
                Code::InvalidArgument,
                "`config` may only be set on the first request message",
            ),
        ),
        (
            RequestEvent::Message(ParseWarcRequest { kind: None }),
            Status::new(
                Code::InvalidArgument,
                "ParseWarc request message must set `config` or `chunk`",
            ),
        ),
        (RequestEvent::Failed(broken.clone()), broken),
    ]
}

#[test]
fn task_failures_are_told_apart() {
    assert_eq!(task_failure(true), Status::new(Code::Internal, "WARC parser task panicked"));
    assert_eq!(task_failure(false), Status::new(Code::Cancelled, "WARC parser task cancelled"));
}

#[test]
fn unopened_files_are_reported() {
    let OpenFailure::Refuse(status) = open_failure(true, "link.warc", "denied") else {
        panic!("expected a refusal");
    };
    assert_eq!(
        status,
        Status::new(
            Code::PermissionDenied,
            "archive_path cannot be opened inside the configured local file root"
        )
    );
    let OpenFailure::Report(message) = open_failure(false, "gone.warc", "not found") else {
        panic!("expected a report");
    };
    assert_eq!(message, "failed to open archive_path gone.warc: not found");
}
